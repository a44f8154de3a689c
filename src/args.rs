use vstd::prelude::*;

use crate::text::{chars_of, digit_value, is_digit, string_of};

verus! {

/// The field on which to sort the output by.
#[derive(Debug, Clone, Copy, PartialEq, Eq, Structural)]
pub enum SortByField {
    /// Sort by the name of the symbol in lexicographic order.
    Symbol,
    /// Sort by the instruction count of the first column.
    FirstIR,
    /// Sort by the instruction count of the last column.
    LastIR,
    /// Sort by the instruction count of the given column (0-indexed).
    ColumnIR(u32),
}

/// The order in which to sort (ascending / descending).
#[derive(Debug, Clone, Copy, PartialEq, Eq, Structural)]
pub enum SortByOrder {
    /// Ascending order. Lowest value at the top.
    Ascending,
    /// Descending order. Lowest value at the bottom.
    Descending,
}

/// How to sort the output. The default is by ascending symbol.
#[derive(Debug, Clone, Copy, PartialEq, Eq, Structural)]
pub struct SortBy {
    /// The field on which to sort the output.
    pub field: SortByField,
    /// The order on which to sort the output.
    pub order: SortByOrder,
}

impl Default for SortBy {
    fn default() -> (r: Self)
        ensures
            r.field == SortByField::Symbol,
            r.order == SortByOrder::Ascending,
    {
        SortBy { field: SortByField::Symbol, order: SortByOrder::Ascending }
    }
}

/// How columns are compared one to another. The default is to compare to the first column.
#[derive(Debug, Clone, Copy, PartialEq, Eq, Structural)]
pub enum RelativeTo {
    /// Every column is compared to the first column (default).
    First,
    /// Every column is compared to the last column.
    Last,
    /// Every column is compared to column preceding it.
    Previous,
    /// Every column is compared to the n-th column (0-indexed).
    Column(u32),
}

impl Default for RelativeTo {
    fn default() -> (r: Self)
        ensures
            r == RelativeTo::First,
    {
        RelativeTo::First
    }
}

/// What to show for each data column.
#[derive(Debug, Clone, Copy, PartialEq, Eq, Structural)]
pub enum Show {
    /// All columns.
    All,
    /// The IR count.
    IRCount,
    /// The percentage (or ratio) of increase/decrease (with respect to [`RelativeTo`]).
    PercentageDiff,
    /// The difference in IR count with respect to [`RelativeTo`].
    IRCountDiff,
}

impl Default for Show {
    fn default() -> (r: Self)
        ensures
            r == Show::All,
    {
        Show::All
    }
}

/// The program configuration.
pub struct Args {
    /// Show all lines, even those without a change.
    pub all: bool,
    /// By which field to sort by.
    pub sort_by: SortBy,
    /// Path to an output file in which to write the IR as CSV.
    pub csv_export: String,
    /// Column names for the CSV export, one per `callgrind_annotate` input.
    pub csv_names: Vec<String>,
    /// Path to an output file in which to write a graph of the IR values. Currently unsupported.
    pub export_graph: String,
    /// The column which is the reference for IR. Other columns have diffs relative to it.
    pub relative_to: RelativeTo,
    /// What to show for each column of data.
    pub show: Vec<Show>,
    /// `callgrind_annotate` files or CSV files.
    pub inputs: Vec<String>,
}

/// What to show once `show` is sanitized: `All` (or nothing) stands for the three fields,
/// otherwise each field is kept once, where it first appears.
pub open spec fn sanitized(show: Seq<Show>) -> Seq<Show> {
    if show.len() == 0 || show.contains(Show::All) {
        seq![Show::IRCountDiff, Show::PercentageDiff, Show::IRCount]
    } else {
        dedup(show)
    }
}

/// `s` with every item after its first occurrence removed.
pub open spec fn dedup(s: Seq<Show>) -> Seq<Show>
    decreases s.len(),
{
    if s.len() == 0 {
        s
    } else if s.drop_last().contains(s.last()) {
        dedup(s.drop_last())
    } else {
        dedup(s.drop_last()).push(s.last())
    }
}

/// A list of fields to show is fit for display: not empty, no `All`, no field twice.
pub open spec fn show_ok(show: Seq<Show>) -> bool {
    &&& 0 < show.len() <= 3
    &&& !show.contains(Show::All)
    &&& forall|i: int, j: int| 0 <= i < j < show.len() ==> show[i] != show[j]
}

/// The number written by the decimal digits of `s`.
pub open spec fn plain_value(s: Seq<char>) -> nat
    decreases s.len(),
{
    if s.len() == 0 {
        0
    } else {
        (plain_value(s.drop_last()) * 10 + digit_value(s.last())) as nat
    }
}

/// `s` without its leading `+`, if it has one.
pub open spec fn unsigned_body(s: Seq<char>) -> Seq<char> {
    if s.len() > 0 && s[0] == '+' {
        s.skip(1)
    } else {
        s
    }
}

pub open spec fn all_digits(s: Seq<char>) -> bool {
    forall|i: int| 0 <= i < s.len() ==> is_digit(#[trigger] s[i])
}

/// The `u32` that `s` writes: an optional `+`, then one or more decimal digits, of a value
/// that fits.
pub open spec fn u32_text(s: Seq<char>) -> Option<u32> {
    let body = unsigned_body(s);
    if body.len() > 0 && all_digits(body) && plain_value(body) <= u32::MAX {
        Some(plain_value(body) as u32)
    } else {
        None
    }
}

/// A number does not shrink when more digits follow it.
proof fn lemma_plain_value_prefix(s: Seq<char>, i: int)
    requires
        0 <= i <= s.len(),
        forall|q: int| 0 <= q < s.len() ==> is_digit(#[trigger] s[q]),
    ensures
        plain_value(s.take(i)) <= plain_value(s),
    decreases s.len(),
{
    if i < s.len() {
        assert(is_digit(s[s.len() - 1]));
        lemma_plain_value_prefix(s.drop_last(), i);
        assert(s.drop_last().take(i) =~= s.take(i));
    } else {
        assert(s.take(i) =~= s);
    }
}

/// Read a `u32` written as an optional `+` and decimal digits; `None` for anything else, or
/// for a value that does not fit.
pub fn parse_u32(s: &str) -> (r: Option<u32>)
    ensures
        r == u32_text(s@),
{
    let c = chars_of(s);
    let start: usize = if c.len() > 0 && c[0] == '+' {
        1
    } else {
        0
    };
    let ghost body = c@.skip(start as int);
    assert(start == 0 ==> body =~= c@);
    if c.len() == start {
        return None;
    }
    let mut acc: u64 = 0;
    let mut i: usize = start;
    while i < c.len()
        invariant
            start <= i <= c.len(),
            body == c@.skip(start as int),
            c@ == s@,
            body == unsigned_body(s@),
            acc == plain_value(body.take(i - start)),
            acc <= u32::MAX,
            forall|q: int| 0 <= q < i - start ==> is_digit(#[trigger] body[q]),
        decreases c.len() - i,
    {
        let ch = c[i];
        assert(body[i - start] == ch);
        if !('0' <= ch && ch <= '9') {
            assert(!is_digit(body[i - start]));
            assert(!all_digits(body));
            assert(u32_text(s@) is None);
            return None;
        }
        assert(body.take(i - start + 1).drop_last() =~= body.take(i - start));
        assert(body.take(i - start + 1).last() == ch);
        let next = acc * 10 + (ch as u32 - '0' as u32) as u64;
        assert(next == plain_value(body.take(i - start + 1)));
        if next > 0xffff_ffff {
            proof {
                if all_digits(body) {
                    lemma_plain_value_prefix(body, i - start + 1);
                    assert(plain_value(body) > u32::MAX);
                }
                assert(u32_text(s@) is None);
            }
            return None;
        }
        acc = next;
        i = i + 1;
    }
    assert(body.take(i - start) =~= body);
    Some(acc as u32)
}

/// What follows `column` in `s`, where `s` starts with it.
pub open spec fn column_suffix(s: Seq<char>) -> Option<Seq<char>> {
    let c = "column"@;
    if s.len() >= c.len() && s.take(c.len() as int) == c {
        Some(s.skip(c.len() as int))
    } else {
        None
    }
}

/// The field that `s` names for sorting.
pub open spec fn sort_field_text(s: Seq<char>) -> Result<SortByField, ParseError> {
    if s == "symbol"@ {
        Ok(SortByField::Symbol)
    } else if s == "last-ir"@ {
        Ok(SortByField::LastIR)
    } else if s == "first-ir"@ {
        Ok(SortByField::FirstIR)
    } else if let Some(num) = column_suffix(s) {
        if num.len() == 0 {
            Err(ParseError::MissingColumnIndex)
        } else if let Some(x) = u32_text(num) {
            Ok(SortByField::ColumnIR(x))
        } else {
            Err(ParseError::InvalidColumnNumber)
        }
    } else {
        Err(ParseError::InvalidValue)
    }
}

/// The sort that `s` asks for: an optional `+` (ascending, the default) or `-` (descending),
/// then a field.
pub open spec fn sort_by_text(s: Seq<char>) -> Result<SortBy, ParseError> {
    if s.len() == 0 {
        Err(ParseError::Empty)
    } else {
        let order = if s[0] == '-' {
            SortByOrder::Descending
        } else {
            SortByOrder::Ascending
        };
        let rest = if s[0] == '+' || s[0] == '-' {
            s.skip(1)
        } else {
            s
        };
        match sort_field_text(rest) {
            Ok(field) => Ok(SortBy { field, order }),
            Err(e) => Err(e),
        }
    }
}

/// The reference that `s` names.
pub open spec fn relative_to_text(s: Seq<char>) -> Result<RelativeTo, ParseError> {
    if s == "first"@ {
        Ok(RelativeTo::First)
    } else if s == "last"@ {
        Ok(RelativeTo::Last)
    } else if s == "previous"@ {
        Ok(RelativeTo::Previous)
    } else if let Some(num) = column_suffix(s) {
        if let Some(x) = u32_text(num) {
            Ok(RelativeTo::Column(x))
        } else {
            Err(ParseError::InvalidColumnNumber)
        }
    } else {
        Err(ParseError::InvalidValue)
    }
}

/// The field to show that `s` names.
pub open spec fn show_text(s: Seq<char>) -> Result<Show, ParseError> {
    if s == "all"@ {
        Ok(Show::All)
    } else if s == "ircount"@ {
        Ok(Show::IRCount)
    } else if s == "percentagediff"@ {
        Ok(Show::PercentageDiff)
    } else if s == "ircountdiff"@ {
        Ok(Show::IRCountDiff)
    } else {
        Err(ParseError::InvalidValue)
    }
}

/// Whether `a`, from `from` on, is `b`.
fn rest_is(a: &Vec<char>, from: usize, b: &Vec<char>) -> (r: bool)
    requires
        from <= a.len(),
    ensures
        r == (a@.skip(from as int) == b@),
{
    if a.len() - from != b.len() {
        assert(a@.skip(from as int).len() != b@.len());
        return false;
    }
    let mut i: usize = 0;
    while i < b.len()
        invariant
            i <= b.len(),
            a.len() - from == b.len(),
            forall|q: int| 0 <= q < i ==> a@[from + q] == b@[q],
        decreases b.len() - i,
    {
        if a[from + i] != b[i] {
            assert(a@.skip(from as int)[i as int] != b@[i as int]);
            return false;
        }
        i = i + 1;
    }
    assert(a@.skip(from as int) =~= b@);
    true
}

/// What follows `column` in `a` from `from` on, where it starts with it.
fn column_suffix_of(a: &Vec<char>, from: usize) -> (r: Option<String>)
    requires
        from <= a.len(),
    ensures
        r matches Some(t) ==> column_suffix(a@.skip(from as int)) == Some(t@),
        r is None ==> column_suffix(a@.skip(from as int)) is None,
{
    let c = chars_of("column");
    let ghost s = a@.skip(from as int);
    if a.len() - from < c.len() {
        return None;
    }
    let mut i: usize = 0;
    while i < c.len()
        invariant
            i <= c.len(),
            a.len() - from >= c.len(),
            c@ == "column"@,
            s == a@.skip(from as int),
            forall|q: int| 0 <= q < i ==> a@[from + q] == c@[q],
        decreases c.len() - i,
    {
        if a[from + i] != c[i] {
            assert(s.take(c.len() as int)[i as int] == a@[from + i]);
            assert(s.take(c.len() as int) != c@);
            return None;
        }
        i = i + 1;
    }
    assert(s.take(c.len() as int) =~= c@);
    let mut rest: Vec<char> = Vec::new();
    let mut k = from + c.len();
    while k < a.len()
        invariant
            from + c.len() <= k <= a.len(),
            rest@ == a@.subrange(from + c.len(), k as int),
        decreases a.len() - k,
    {
        rest.push(a[k]);
        k = k + 1;
        assert(rest@ =~= a@.subrange(from + c.len(), k as int));
    }
    assert(rest@ =~= s.skip(c.len() as int));
    Some(string_of(&rest))
}

impl SortBy {
    /// Read a sort from its text, such as `symbol`, `-first-ir` or `+column3`.
    pub fn parse(s: &str) -> (r: Result<SortBy, ParseError>)
        ensures
            r == sort_by_text(s@),
    {
        let a = chars_of(s);
        if a.len() == 0 {
            return Err(ParseError::Empty);
        }
        let order = if a[0] == '-' {
            SortByOrder::Descending
        } else {
            SortByOrder::Ascending
        };
        let from: usize = if a[0] == '+' || a[0] == '-' {
            1
        } else {
            0
        };
        assert(a@.skip(0) =~= a@);
        let field = if rest_is(&a, from, &chars_of("symbol")) {
            SortByField::Symbol
        } else if rest_is(&a, from, &chars_of("last-ir")) {
            SortByField::LastIR
        } else if rest_is(&a, from, &chars_of("first-ir")) {
            SortByField::FirstIR
        } else {
            match column_suffix_of(&a, from) {
                Some(num) => {
                    if num.as_str().is_empty() {
                        return Err(ParseError::MissingColumnIndex);
                    }
                    match parse_u32(num.as_str()) {
                        Some(x) => SortByField::ColumnIR(x),
                        None => return Err(ParseError::InvalidColumnNumber),
                    }
                },
                None => return Err(ParseError::InvalidValue),
            }
        };
        Ok(SortBy { field, order })
    }
}

impl RelativeTo {
    /// Read a reference from its text: `first`, `last`, `previous` or `columnX`.
    pub fn parse(s: &str) -> (r: Result<RelativeTo, ParseError>)
        ensures
            r == relative_to_text(s@),
    {
        let a = chars_of(s);
        assert(a@.skip(0) =~= a@);
        if rest_is(&a, 0, &chars_of("first")) {
            Ok(RelativeTo::First)
        } else if rest_is(&a, 0, &chars_of("last")) {
            Ok(RelativeTo::Last)
        } else if rest_is(&a, 0, &chars_of("previous")) {
            Ok(RelativeTo::Previous)
        } else {
            match column_suffix_of(&a, 0) {
                Some(num) => match parse_u32(num.as_str()) {
                    Some(x) => Ok(RelativeTo::Column(x)),
                    None => Err(ParseError::InvalidColumnNumber),
                },
                None => Err(ParseError::InvalidValue),
            }
        }
    }
}

impl Show {
    /// Read a field to show from its text: `all`, `ircount`, `percentagediff` or
    /// `ircountdiff`.
    pub fn parse(s: &str) -> (r: Result<Show, ParseError>)
        ensures
            r == show_text(s@),
    {
        let a = chars_of(s);
        assert(a@.skip(0) =~= a@);
        if rest_is(&a, 0, &chars_of("all")) {
            Ok(Show::All)
        } else if rest_is(&a, 0, &chars_of("ircount")) {
            Ok(Show::IRCount)
        } else if rest_is(&a, 0, &chars_of("percentagediff")) {
            Ok(Show::PercentageDiff)
        } else if rest_is(&a, 0, &chars_of("ircountdiff")) {
            Ok(Show::IRCountDiff)
        } else {
            Err(ParseError::InvalidValue)
        }
    }
}

/// Why the configuration was refused.
#[derive(Debug, Clone, Copy, PartialEq, Eq, Structural)]
pub enum ArgsError {
    /// There are CSV names, but not one per `callgrind_annotate` input.
    CsvNamesMismatch { names: usize, runs: usize },
    /// No input was given.
    NoInput,
}

/// Why an option value could not be read.
#[derive(Debug, Clone, Copy, PartialEq, Eq, Structural)]
pub enum ParseError {
    /// The value is empty.
    Empty,
    /// `column` with no index after it.
    MissingColumnIndex,
    /// What follows `column` is not a `u32`.
    InvalidColumnNumber,
    /// The value is none of those accepted.
    InvalidValue,
}

/// The extension of `path`: what follows the last `.` of its file name, if any.
pub uninterp spec fn extension_of(path: Seq<char>) -> Option<Seq<char>>;

/// Relies on `Path::extension`: the extension of the path, which depends on the path alone.
/// The path is UTF-8, so the extension is too, and converting it to a `String` keeps it.
#[verifier::external_body]
fn path_extension(path: &String) -> (r: Option<String>)
    ensures
        r is None <==> extension_of(path@) is None,
        r matches Some(e) ==> extension_of(path@) == Some(e@),
{
    match std::path::Path::new(path).extension() {
        Some(e) => Some(e.to_string_lossy().into_owned()),
        None => None,
    }
}

/// `e` is `csv`, ignoring ASCII case.
pub open spec fn is_csv_extension(e: Seq<char>) -> bool {
    &&& e.len() == 3
    &&& (e[0] == 'c' || e[0] == 'C')
    &&& (e[1] == 's' || e[1] == 'S')
    &&& (e[2] == 'v' || e[2] == 'V')
}

/// `path` names a CSV file: its extension is `csv`, in any ASCII case.
pub open spec fn csv_path(path: Seq<char>) -> bool {
    match extension_of(path) {
        Some(e) => is_csv_extension(e),
        None => false,
    }
}

/// Whether `path` names a CSV file, by its extension, in any ASCII case.
pub fn is_csv_input(path: &String) -> (r: bool)
    ensures
        r == csv_path(path@),
{
    match path_extension(path) {
        Some(e) => {
            let c = chars_of(e.as_str());
            c.len() == 3 && (c[0] == 'c' || c[0] == 'C') && (c[1] == 's' || c[1] == 'S') && (
            c[2] == 'v' || c[2] == 'V')
        },
        None => false,
    }
}

/// How many of `inputs` are not CSV files.
pub open spec fn runs_count(inputs: Seq<String>) -> nat
    decreases inputs.len(),
{
    if inputs.len() == 0 {
        0
    } else {
        runs_count(inputs.drop_last()) + if csv_path(inputs.last()@) {
            0nat
        } else {
            1nat
        }
    }
}

proof fn lemma_dedup(s: Seq<Show>)
    ensures
        forall|x: Show| #[trigger] dedup(s).contains(x) == s.contains(x),
        forall|i: int, j: int| 0 <= i < j < dedup(s).len() ==> dedup(s)[i] != dedup(s)[j],
    decreases s.len(),
{
    if s.len() > 0 {
        let p = s.drop_last();
        lemma_dedup(p);
        assert(dedup(s) == (if p.contains(s.last()) {
            dedup(p)
        } else {
            dedup(p).push(s.last())
        }));
        assert forall|x: Show| #[trigger] s.contains(x) == (p.contains(x) || x == s.last()) by {
            if s.contains(x) {
                let k = choose|k: int| 0 <= k < s.len() && s[k] == x;
                if k < p.len() {
                    assert(p[k] == x);
                }
            }
            if p.contains(x) {
                let k = choose|k: int| 0 <= k < p.len() && p[k] == x;
                assert(s[k] == x);
            }
            if x == s.last() {
                assert(s[s.len() - 1] == x);
            }
        }
        if !p.contains(s.last()) {
            let d = dedup(p);
            assert forall|x: Show| #[trigger] d.push(s.last()).contains(x) == (d.contains(x) || x == s.last()) by {
                if d.push(s.last()).contains(x) {
                    let k = choose|k: int| 0 <= k < d.len() + 1 && d.push(s.last())[k] == x;
                    if k < d.len() {
                        assert(d[k] == x);
                    }
                }
                if d.contains(x) {
                    let k = choose|k: int| 0 <= k < d.len() && d[k] == x;
                    assert(d.push(s.last())[k] == x);
                }
                if x == s.last() {
                    assert(d.push(s.last())[d.len() as int] == x);
                }
            }
            assert forall|i: int, j: int| 0 <= i < j < d.len() + 1 implies d.push(s.last())[i] != d.push(s.last())[j] by {
                if j == d.len() {
                    assert(d.contains(d[i]));
                }
            }
        }
    }
}

/// What sanitizing gives is fit for display.
pub proof fn lemma_sanitized_ok(show: Seq<Show>)
    ensures
        show_ok(sanitized(show)),
{
    if show.len() == 0 || show.contains(Show::All) {
        let t = seq![Show::IRCountDiff, Show::PercentageDiff, Show::IRCount];
        assert(!t.contains(Show::All));
    } else {
        lemma_dedup(show);
        let d = dedup(show);
        assert(show.contains(show[0]));
        assert(d.contains(show[0]));
        if d.contains(Show::All) {
            assert(show.contains(Show::All));
        }
        if d.len() > 3 {
            assert(d.contains(d[0]) && d.contains(d[1]) && d.contains(d[2]) && d.contains(d[3]));
            assert(d[0] != Show::All && d[1] != Show::All && d[2] != Show::All && d[3] != Show::All);
            assert(d[0] != d[1] && d[0] != d[2] && d[0] != d[3] && d[1] != d[2] && d[1] != d[3] && d[2] != d[3]);
        }
    }
}

impl Args {
    /// Perform the final checks of the arguments: one CSV name per run where names are given,
    /// at least one input; then sanitize `show`.
    pub fn validated(self) -> (r: Result<Self, ArgsError>)
        ensures
            r is Err <==> ((self.csv_names.len() > 0 && runs_count(self.inputs@) != self.csv_names.len())
                || self.inputs.len() == 0),
            r matches Err(ArgsError::CsvNamesMismatch { names, runs }) ==> self.csv_names.len() > 0
                && names == self.csv_names.len() && runs == runs_count(self.inputs@)
                && runs != names,
            r matches Err(ArgsError::NoInput) ==> self.inputs.len() == 0 && (self.csv_names.len() == 0
                || runs_count(self.inputs@) == self.csv_names.len()),
            r matches Ok(a) ==> {
                &&& a.show@ == sanitized(self.show@)
                &&& show_ok(a.show@)
                &&& a.all == self.all
                &&& a.sort_by == self.sort_by
                &&& a.relative_to == self.relative_to
                &&& a.inputs@ == self.inputs@
                &&& a.csv_names@ == self.csv_names@
                &&& a.csv_export == self.csv_export
                &&& a.export_graph == self.export_graph
            },
    {
        let mut a = self;
        match a.check_csv_names_count() {
            Err(e) => return Err(e),
            Ok(()) => {},
        }
        match a.check_input_length() {
            Err(e) => return Err(e),
            Ok(()) => {},
        }
        a.sanitize_show();
        proof {
            lemma_sanitized_ok(self.show@);
        }
        Ok(a)
    }

    /// Check that the number of names in `csv_names`, if any, matches the number of runs in
    /// `inputs`.
    pub fn check_csv_names_count(&self) -> (r: Result<(), ArgsError>)
        ensures
            r is Ok <==> (self.csv_names.len() == 0 || runs_count(self.inputs@) == self.csv_names.len()),
            r matches Err(e) ==> e is CsvNamesMismatch,
            r matches Err(ArgsError::CsvNamesMismatch { names, runs }) ==> names
                == self.csv_names.len() && runs == runs_count(self.inputs@),
    {
        if self.csv_names.len() > 0 {
            let mut runs: usize = 0;
            let mut i: usize = 0;
            while i < self.inputs.len()
                invariant
                    i <= self.inputs.len(),
                    runs == runs_count(self.inputs@.take(i as int)),
                    runs <= i,
                decreases self.inputs.len() - i,
            {
                let ghost t = self.inputs@.take(i as int + 1);
                assert(t.drop_last() =~= self.inputs@.take(i as int));
                if !is_csv_input(&self.inputs[i]) {
                    runs = runs + 1;
                }
                i = i + 1;
            }
            assert(self.inputs@.take(self.inputs.len() as int) =~= self.inputs@);
            if runs != self.csv_names.len() {
                return Err(ArgsError::CsvNamesMismatch { names: self.csv_names.len(), runs });
            }
        }
        Ok(())
    }

    /// Sanitize `show`: `All`, or nothing, stands for the three fields; otherwise each field
    /// is kept once, where it first appears.
    pub fn sanitize_show(&mut self)
        ensures
            final(self).show@ == sanitized(old(self).show@),
            final(self).all == old(self).all,
            final(self).sort_by == old(self).sort_by,
            final(self).relative_to == old(self).relative_to,
            final(self).inputs@ == old(self).inputs@,
            final(self).csv_names@ == old(self).csv_names@,
            final(self).csv_export == old(self).csv_export,
            final(self).export_graph == old(self).export_graph,
    {
        let mut has_all = false;
        let mut i: usize = 0;
        while i < self.show.len()
            invariant
                i <= self.show.len(),
                has_all == self.show@.take(i as int).contains(Show::All),
            decreases self.show.len() - i,
        {
            let ghost t = self.show@.take(i as int + 1);
            assert(t =~= self.show@.take(i as int).push(self.show@[i as int]));
            if self.show[i] == Show::All {
                has_all = true;
                assert(t[i as int] == Show::All);
            } else {
                proof {
                    if has_all {
                        let k = choose|k: int| 0 <= k < i && self.show@.take(i as int)[k] == Show::All;
                        assert(t[k] == Show::All);
                    } else if t.contains(Show::All) {
                        let k = choose|k: int| 0 <= k < t.len() && t[k] == Show::All;
                        assert(k < i);
                        assert(self.show@.take(i as int)[k] == Show::All);
                    }
                }
            }
            i = i + 1;
        }
        assert(self.show@.take(self.show.len() as int) =~= self.show@);
        if self.show.len() == 0 || has_all {
            self.show = vec![Show::IRCountDiff, Show::PercentageDiff, Show::IRCount];
            assert(self.show@ =~= seq![Show::IRCountDiff, Show::PercentageDiff, Show::IRCount]);
        } else {
            let mut new_show: Vec<Show> = Vec::new();
            let mut k: usize = 0;
            while k < self.show.len()
                invariant
                    k <= self.show.len(),
                    new_show@ == dedup(self.show@.take(k as int)),
                decreases self.show.len() - k,
            {
                let ghost t = self.show@.take(k as int + 1);
                assert(t.drop_last() =~= self.show@.take(k as int));
                proof {
                    lemma_dedup(self.show@.take(k as int));
                }
                let x = self.show[k];
                let mut found = false;
                let mut j: usize = 0;
                while j < new_show.len()
                    invariant
                        j <= new_show.len(),
                        found == new_show@.take(j as int).contains(x),
                    decreases new_show.len() - j,
                {
                    let ghost u = new_show@.take(j as int + 1);
                    assert(u =~= new_show@.take(j as int).push(new_show@[j as int]));
                    if new_show[j] == x {
                        found = true;
                        assert(u[j as int] == x);
                    } else {
                        proof {
                            if found {
                                let q = choose|q: int| 0 <= q < j && new_show@.take(j as int)[q] == x;
                                assert(u[q] == x);
                            } else if u.contains(x) {
                                let q = choose|q: int| 0 <= q < u.len() && u[q] == x;
                                assert(new_show@.take(j as int)[q] == x);
                            }
                        }
                    }
                    j = j + 1;
                }
                assert(new_show@.take(new_show.len() as int) =~= new_show@);
                if !found {
                    new_show.push(x);
                }
                k = k + 1;
            }
            assert(self.show@.take(self.show.len() as int) =~= self.show@);
            self.show = new_show;
        }
    }

    /// Make sure at least one input is given.
    pub fn check_input_length(&self) -> (r: Result<(), ArgsError>)
        ensures
            r is Ok <==> self.inputs.len() > 0,
            r is Err ==> r == Err::<(), ArgsError>(ArgsError::NoInput),
    {
        if self.inputs.len() == 0 {
            Err(ArgsError::NoInput)
        } else {
            Ok(())
        }
    }
}

} // verus!
