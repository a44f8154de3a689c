use vstd::prelude::*;

use crate::args::{show_ok, Args, RelativeTo, Show};
use crate::runs::{Records, RecordsSymbol};
use crate::text::{chars_of, string_of};
use itertools::Itertools;

verus! {

/// The width of the percentage field (`+ 12.345%`): a sign, three integral digits, a dot,
/// three decimals and the `%`. A ratio of 1000x or more overflows it.
pub const PERCENTDIFF_WIDTH: usize = 9;

/// The column against which each column is compared, resolved once per display.
#[derive(Debug, Clone, Copy, PartialEq, Eq, Structural)]
pub enum Reference {
    /// Every column is compared to this one.
    Fixed(usize),
    /// Each column is compared to the one before it; the first column is the reference.
    Previous,
}

/// The reference that `relative_to` asks for, among `n` runs.
pub open spec fn reference_spec(relative_to: RelativeTo, n: nat) -> Reference {
    match relative_to {
        RelativeTo::First => Reference::Fixed(0),
        RelativeTo::Last => Reference::Fixed((n - 1) as usize),
        RelativeTo::Previous => Reference::Previous,
        RelativeTo::Column(x) => Reference::Fixed(x as usize),
    }
}

/// Column `i` is shown as the reference: its raw count, with no comparison.
pub open spec fn is_ref_spec(r: Reference, i: int) -> bool {
    match r {
        Reference::Fixed(c) => i == c,
        Reference::Previous => i == 0,
    }
}

/// The column that column `i` is compared to.
pub open spec fn ref_index_spec(r: Reference, i: int) -> int {
    match r {
        Reference::Fixed(c) => c as int,
        Reference::Previous => i - 1,
    }
}

/// Resolve the reference column for `n` runs.
pub fn resolve_reference(relative_to: RelativeTo, n: usize) -> (r: Reference)
    requires
        n > 0,
    ensures
        r == reference_spec(relative_to, n as nat),
{
    match relative_to {
        RelativeTo::First => Reference::Fixed(0),
        RelativeTo::Last => Reference::Fixed(n - 1),
        RelativeTo::Previous => Reference::Previous,
        RelativeTo::Column(x) => Reference::Fixed(x as usize),
    }
}

/// Return whether the column at index `i` is the reference column.
pub fn is_ref_column(r: Reference, i: usize) -> (b: bool)
    ensures
        b == is_ref_spec(r, i as int),
{
    match r {
        Reference::Fixed(c) => i == c,
        Reference::Previous => i == 0,
    }
}

/// With each column compared to the one before it, the first column is never compared, and
/// every other column `k` is compared to column `k - 1`.
pub proof fn lemma_previous_reference(n: nat, k: int)
    requires
        0 < k < n,
    ensures
        is_ref_spec(reference_spec(RelativeTo::Previous, n), 0),
        !is_ref_spec(reference_spec(RelativeTo::Previous, n), k),
        ref_index_spec(reference_spec(RelativeTo::Previous, n), k) == k - 1,
{
}

/// `|a - b|`.
pub open spec fn abs_diff(a: u64, b: u64) -> int {
    if a >= b {
        a - b
    } else {
        b - a
    }
}

/// The change from `reference_ir` to `ir` as a percentage of `reference_ir`, in thousandths of
/// a percent, rounded to the nearest; a change from 0 counts as 100%.
pub open spec fn percent_milli(ir: u64, reference_ir: u64) -> int {
    if reference_ir == 0 {
        100_000
    } else {
        (abs_diff(ir, reference_ir) * 200_000 + reference_ir) / (2 * reference_ir)
    }
}

/// The same change as a ratio of `reference_ir`, in thousandths, rounded to the nearest; a
/// change from 0 counts as 1.
pub open spec fn ratio_milli(ir: u64, reference_ir: u64) -> int {
    if reference_ir == 0 {
        1000
    } else {
        (abs_diff(ir, reference_ir) * 2000 + reference_ir) / (2 * reference_ir)
    }
}

/// The difference between `ir` and `reference_ir`, with no wrap-around.
pub fn ir_diff(ir: u64, reference_ir: u64) -> (r: u64)
    ensures
        r == abs_diff(ir, reference_ir),
{
    if ir >= reference_ir {
        ir - reference_ir
    } else {
        reference_ir - ir
    }
}

/// The percentage of change, in thousandths of a percent.
pub fn percent_diff_milli(ir: u64, reference_ir: u64) -> (r: u128)
    ensures
        r == percent_milli(ir, reference_ir),
{
    if reference_ir == 0 {
        100_000
    } else {
        let d = ir_diff(ir, reference_ir) as u128;
        let rf = reference_ir as u128;
        assert(d * 200_000 + rf <= 0xffff_ffff_ffff_ffff * 200_001) by (nonlinear_arith)
            requires
                d <= 0xffff_ffff_ffff_ffff,
                rf <= 0xffff_ffff_ffff_ffff,
        ;
        (d * 200_000 + rf) / (2 * rf)
    }
}

/// The ratio of change, in thousandths.
pub fn ratio_diff_milli(ir: u64, reference_ir: u64) -> (r: u128)
    ensures
        r == ratio_milli(ir, reference_ir),
{
    if reference_ir == 0 {
        1000
    } else {
        let d = ir_diff(ir, reference_ir) as u128;
        let rf = reference_ir as u128;
        assert(d * 2000 + rf <= 0xffff_ffff_ffff_ffff * 2001) by (nonlinear_arith)
            requires
                d <= 0xffff_ffff_ffff_ffff,
                rf <= 0xffff_ffff_ffff_ffff,
        ;
        (d * 2000 + rf) / (2 * rf)
    }
}

/// The change from 0 to 5 is 5, and 100%.
pub proof fn lemma_zero_reference()
    ensures
        abs_diff(5, 0) == 5,
        percent_milli(5, 0) == 100_000,
{
}

pub open spec fn digit_char(d: int) -> char {
    if d == 0 { '0' } else if d == 1 { '1' } else if d == 2 { '2' } else if d == 3 { '3' }
    else if d == 4 { '4' } else if d == 5 { '5' } else if d == 6 { '6' } else if d == 7 { '7' }
    else if d == 8 { '8' } else { '9' }
}

/// The decimal digits of `n`, without leading zeros.
pub open spec fn decimal(n: nat) -> Seq<char>
    decreases n,
{
    if n < 10 {
        seq![digit_char(n as int)]
    } else {
        decimal(n / 10).push(digit_char((n % 10) as int))
    }
}

fn digit_of(d: u128) -> (c: char)
    requires
        d < 10,
    ensures
        c == digit_char(d as int),
{
    if d == 0 { '0' } else if d == 1 { '1' } else if d == 2 { '2' } else if d == 3 { '3' }
    else if d == 4 { '4' } else if d == 5 { '5' } else if d == 6 { '6' } else if d == 7 { '7' }
    else if d == 8 { '8' } else { '9' }
}

/// The decimal digits of `n`.
pub fn decimal_of(n: u128) -> (r: Vec<char>)
    ensures
        r@ == decimal(n as nat),
    decreases n,
{
    if n < 10 {
        let mut r: Vec<char> = Vec::new();
        r.push(digit_of(n));
        assert(r@ =~= seq![digit_char(n as int)]);
        r
    } else {
        let mut r = decimal_of(n / 10);
        r.push(digit_of(n % 10));
        r
    }
}

pub open spec fn spaces(n: nat) -> Seq<char> {
    Seq::new(n, |_i: int| ' ')
}

/// `s` aligned to the right within `width`, padded with spaces; cut to `width` if longer.
pub open spec fn right(s: Seq<char>, width: nat) -> Seq<char> {
    if s.len() > width {
        s.take(width as int)
    } else {
        spaces((width - s.len()) as nat) + s
    }
}

/// `s` aligned to the left within `width`, padded with spaces; cut to `width` if longer.
pub open spec fn left(s: Seq<char>, width: nat) -> Seq<char> {
    if s.len() > width {
        s.take(width as int)
    } else {
        s + spaces((width - s.len()) as nat)
    }
}

/// `s` centered within `width`, the odd space of padding on the right; cut if longer.
pub open spec fn centered(s: Seq<char>, width: nat) -> Seq<char> {
    if s.len() > width {
        s.take(width as int)
    } else {
        let pad = (width - s.len()) as nat;
        spaces(pad / 2) + s + spaces(pad / 2 + pad % 2)
    }
}

/// Append `n` copies of `c`.
fn push_n(out: &mut Vec<char>, c: char, n: usize)
    ensures
        final(out)@ == old(out)@ + Seq::new(n as nat, |_i: int| c),
{
    let mut k: usize = 0;
    while k < n
        invariant
            k <= n,
            out@ == old(out)@ + Seq::new(k as nat, |_i: int| c),
        decreases n - k,
    {
        out.push(c);
        k = k + 1;
        assert(out@ =~= old(out)@ + Seq::new(k as nat, |_i: int| c));
    }
}

/// Append the first `n` characters of `s`.
fn push_prefix(out: &mut Vec<char>, s: &Vec<char>, n: usize)
    requires
        n <= s.len(),
    ensures
        final(out)@ == old(out)@ + s@.take(n as int),
{
    let mut k: usize = 0;
    while k < n
        invariant
            k <= n <= s.len(),
            out@ == old(out)@ + s@.take(k as int),
        decreases n - k,
    {
        out.push(s[k]);
        k = k + 1;
        assert(out@ =~= old(out)@ + s@.take(k as int));
    }
}

/// Append `s`.
fn push_all(out: &mut Vec<char>, s: &Vec<char>)
    ensures
        final(out)@ == old(out)@ + s@,
{
    push_prefix(out, s, s.len());
    assert(s@.take(s.len() as int) =~= s@);
}

/// Append `s` aligned to the right within `width`.
fn push_right(out: &mut Vec<char>, s: &Vec<char>, width: usize)
    ensures
        final(out)@ == old(out)@ + right(s@, width as nat),
{
    if s.len() > width {
        push_prefix(out, s, width);
    } else {
        push_n(out, ' ', width - s.len());
        push_all(out, s);
        assert(final(out)@ =~= old(out)@ + right(s@, width as nat));
    }
}

/// Append `s` aligned to the left within `width`.
fn push_left(out: &mut Vec<char>, s: &Vec<char>, width: usize)
    ensures
        final(out)@ == old(out)@ + left(s@, width as nat),
{
    if s.len() > width {
        push_prefix(out, s, width);
    } else {
        push_all(out, s);
        push_n(out, ' ', width - s.len());
        assert(final(out)@ =~= old(out)@ + left(s@, width as nat));
    }
}

/// Append `s` centered within `width`.
fn push_centered(out: &mut Vec<char>, s: &Vec<char>, width: usize)
    ensures
        final(out)@ == old(out)@ + centered(s@, width as nat),
{
    if s.len() > width {
        push_prefix(out, s, width);
    } else {
        let pad = width - s.len();
        push_n(out, ' ', pad / 2);
        push_all(out, s);
        push_n(out, ' ', pad / 2 + pad % 2);
        assert(final(out)@ =~= old(out)@ + centered(s@, width as nat));
    }
}

pub open spec fn red() -> Seq<char> {
    seq!['\x1B', '[', '3', '1', 'm']
}

pub open spec fn green() -> Seq<char> {
    seq!['\x1B', '[', '3', '2', 'm']
}

pub open spec fn bold_red() -> Seq<char> {
    seq!['\x1B', '[', '3', '1', ';', '1', 'm']
}

pub open spec fn reset() -> Seq<char> {
    seq!['\x1B', '[', '0', 'm']
}

/// The colors of a cell.
#[derive(Clone, Copy, PartialEq, Eq, Structural)]
pub enum Color {
    Red,
    Green,
    BoldRed,
    Reset,
}

pub open spec fn color_code(c: Color) -> Seq<char> {
    match c {
        Color::Red => red(),
        Color::Green => green(),
        Color::BoldRed => bold_red(),
        Color::Reset => reset(),
    }
}

/// Append the terminal escape code of a color.
fn push_color(out: &mut Vec<char>, c: Color)
    ensures
        final(out)@ == old(out)@ + color_code(c),
{
    out.push('\x1B');
    out.push('[');
    match c {
        Color::Red => {
            out.push('3');
            out.push('1');
        },
        Color::Green => {
            out.push('3');
            out.push('2');
        },
        Color::BoldRed => {
            out.push('3');
            out.push('1');
            out.push(';');
            out.push('1');
        },
        Color::Reset => {
            out.push('0');
        },
    }
    out.push('m');
    assert(out@ =~= old(out)@ + color_code(c));
}

/// `s` padded on the left with spaces to at least `width` characters.
pub open spec fn at_least(s: Seq<char>, width: nat) -> Seq<char> {
    if s.len() >= width {
        s
    } else {
        spaces((width - s.len()) as nat) + s
    }
}

/// A value given in thousandths, written with three decimals and at least 7 characters.
pub open spec fn fixed3(milli: nat) -> Seq<char> {
    at_least(
        decimal(milli / 1000) + seq![
            '.',
            digit_char(((milli % 1000) / 100) as int),
            digit_char(((milli % 100) / 10) as int),
            digit_char((milli % 10) as int),
        ],
        7,
    )
}

/// A value given in thousandths, with three decimals, followed by `unit`.
fn fixed3_of(milli: u128, unit: char) -> (r: Vec<char>)
    ensures
        r@ == fixed3(milli as nat).push(unit),
{
    let mut body = decimal_of(milli / 1000);
    body.push('.');
    body.push(digit_of((milli % 1000) / 100));
    body.push(digit_of((milli % 100) / 10));
    body.push(digit_of(milli % 10));
    let mut r: Vec<char> = Vec::new();
    if body.len() < 7 {
        push_n(&mut r, ' ', 7 - body.len());
    }
    push_all(&mut r, &body);
    r.push(unit);
    assert(r@ =~= fixed3(milli as nat).push(unit));
    r
}

/// The cell of the difference of counts: `-` where there is none, else the difference with
/// its sign, red for an increase and green for a decrease.
pub open spec fn diff_cell(ir: u64, reference_ir: u64, irw: nat) -> Seq<char> {
    let d = abs_diff(ir, reference_ir);
    if d == 0 {
        right(seq!['-'], irw + 1)
    } else if ir > reference_ir {
        red() + seq!['+'] + right(decimal(d as nat), irw) + reset()
    } else {
        green() + seq!['-'] + right(decimal(d as nat), irw) + reset()
    }
}

/// The cell of the percentage of change: `-` where there is none, a green percentage for a
/// decrease, a red one for an increase under 1000% (exactly: a change under ten times the
/// reference; a change from 0 counts as 100%), and a bold red ratio from there on.
pub open spec fn percent_cell(ir: u64, reference_ir: u64) -> Seq<char> {
    let p = percent_milli(ir, reference_ir);
    if abs_diff(ir, reference_ir) == 0 {
        right(seq!['-', ' '], 9)
    } else if reference_ir > ir {
        green() + seq!['-'] + right(fixed3(p as nat).push('%'), 8) + reset()
    } else if reference_ir == 0 || abs_diff(ir, reference_ir) < 10 * reference_ir {
        red() + seq!['+'] + right(fixed3(p as nat).push('%'), 8) + reset()
    } else {
        bold_red() + right(fixed3(ratio_milli(ir, reference_ir) as nat).push('x'), 9) + reset()
    }
}

/// Append the cell of the difference of counts.
fn show_symbol_irdff(out: &mut Vec<char>, ir: u64, reference_ir: u64, irw: usize)
    requires
        irw < usize::MAX,
    ensures
        final(out)@ == old(out)@ + diff_cell(ir, reference_ir, irw as nat),
{
    let diff = ir_diff(ir, reference_ir);
    if diff == 0 {
        let mut dash: Vec<char> = Vec::new();
        dash.push('-');
        assert(dash@ =~= seq!['-']);
        push_right(out, &dash, irw + 1);
    } else {
        let ghost o = out@;
        let digits = decimal_of(diff as u128);
        if ir > reference_ir {
            push_color(out, Color::Red);
            out.push('+');
        } else {
            push_color(out, Color::Green);
            out.push('-');
        }
        push_right(out, &digits, irw);
        push_color(out, Color::Reset);
        assert(out@ =~= o + diff_cell(ir, reference_ir, irw as nat));
    }
}

/// Append the cell of the percentage of change.
fn show_symbol_percentdff(out: &mut Vec<char>, ir: u64, reference_ir: u64)
    ensures
        final(out)@ == old(out)@ + percent_cell(ir, reference_ir),
{
    let ghost o = out@;
    let diff = ir_diff(ir, reference_ir);
    let percent = percent_diff_milli(ir, reference_ir);
    if diff == 0 {
        let mut dash: Vec<char> = Vec::new();
        dash.push('-');
        dash.push(' ');
        assert(dash@ =~= seq!['-', ' ']);
        push_right(out, &dash, PERCENTDIFF_WIDTH);
    } else if reference_ir > ir {
        push_color(out, Color::Green);
        out.push('-');
        let s = fixed3_of(percent, '%');
        push_right(out, &s, PERCENTDIFF_WIDTH - 1);
        push_color(out, Color::Reset);
    } else if reference_ir == 0 || (diff as u128) < 10 * (reference_ir as u128) {
        push_color(out, Color::Red);
        out.push('+');
        let s = fixed3_of(percent, '%');
        push_right(out, &s, PERCENTDIFF_WIDTH - 1);
        push_color(out, Color::Reset);
    } else {
        push_color(out, Color::BoldRed);
        let s = fixed3_of(ratio_diff_milli(ir, reference_ir), 'x');
        push_right(out, &s, PERCENTDIFF_WIDTH);
        push_color(out, Color::Reset);
    }
    assert(out@ =~= o + percent_cell(ir, reference_ir));
}

/// The text of one field of a cell.
pub open spec fn field_text(f: Show, irw: nat, ir: u64, reference_ir: u64) -> Seq<char> {
    match f {
        Show::IRCount => right(decimal(ir as nat), irw),
        Show::PercentageDiff => percent_cell(ir, reference_ir),
        Show::IRCountDiff => diff_cell(ir, reference_ir, irw),
        Show::All => Seq::empty(),
    }
}

/// The fields of a compared cell, in the order of `show`, one space between two.
pub open spec fn details(show: Seq<Show>, irw: nat, ir: u64, reference_ir: u64) -> Seq<char>
    decreases show.len(),
{
    if show.len() == 0 {
        Seq::empty()
    } else if show.len() == 1 {
        field_text(show[0], irw, ir, reference_ir)
    } else {
        details(show.drop_last(), irw, ir, reference_ir) + seq![' '] + field_text(
            show.last(),
            irw,
            ir,
            reference_ir,
        )
    }
}

/// Append the fields of a compared cell.
fn show_run_details(out: &mut Vec<char>, show: &Vec<Show>, irw: usize, ir: u64, reference_ir: u64)
    requires
        irw < usize::MAX,
    ensures
        final(out)@ == old(out)@ + details(show@, irw as nat, ir, reference_ir),
{
    let ghost o = out@;
    let mut i: usize = 0;
    while i < show.len()
        invariant
            i <= show.len(),
            irw < usize::MAX,
            out@ == o + details(show@.take(i as int), irw as nat, ir, reference_ir),
        decreases show.len() - i,
    {
        if i != 0 {
            out.push(' ');
        }
        match show[i] {
            Show::IRCount => {
                let s = decimal_of(ir as u128);
                push_right(out, &s, irw);
            },
            Show::PercentageDiff => show_symbol_percentdff(out, ir, reference_ir),
            Show::IRCountDiff => show_symbol_irdff(out, ir, reference_ir, irw),
            Show::All => {},
        }
        proof {
            let t = show@.take(i as int + 1);
            assert(t.drop_last() =~= show@.take(i as int));
            assert(out@ =~= o + details(t, irw as nat, ir, reference_ir));
        }
        i = i + 1;
    }
    assert(show@.take(show.len() as int) =~= show@);
}

/// Column references stay among the `n` runs.
pub open spec fn reference_ok(r: Reference, n: nat) -> bool {
    match r {
        Reference::Fixed(c) => c < n,
        Reference::Previous => true,
    }
}

/// The cell of column `i` of a row of counts.
pub open spec fn cell(r: Reference, show: Seq<Show>, irw: nat, vals: Seq<u64>, i: int) -> Seq<char> {
    if is_ref_spec(r, i) {
        right(decimal(vals[i] as nat), irw)
    } else {
        details(show, irw, vals[i], vals[ref_index_spec(r, i)])
    }
}

/// The cells of the first `k` columns of a row of counts, each after ` | `.
pub open spec fn cells(r: Reference, show: Seq<Show>, irw: nat, vals: Seq<u64>, k: nat) -> Seq<char>
    decreases k,
{
    if k == 0 {
        Seq::empty()
    } else {
        cells(r, show, irw, vals, (k - 1) as nat) + seq![' ', '|', ' '] + cell(
            r,
            show,
            irw,
            vals,
            k - 1,
        )
    }
}

/// The widths and the reference column of a table.
#[derive(Clone, Copy)]
pub struct Displayer {
    /// The length of the longest symbol shown, and at least that of the totals label.
    pub max_symbol_width: usize,
    /// The length (in digits) of the highest total IR.
    pub max_total_ir_width: usize,
    /// The width that a compared column takes in-between the ` | `.
    pub run_width: usize,
    /// The reference column.
    pub reference: Reference,
}

pub open spec fn all_same(s: Seq<u64>) -> bool {
    forall|i: int, j: int| 0 <= i < s.len() && 0 <= j < s.len() ==> s[i] == s[j]
}

/// A row is shown when all rows are asked for, or when its counts differ.
pub open spec fn shown(all: bool, r: RecordsSymbol) -> bool {
    all || !all_same(r.irs@)
}

/// The length of the longest name among the rows shown; 0 where none is.
pub open spec fn max_name_len(rows: Seq<RecordsSymbol>, all: bool) -> nat
    decreases rows.len(),
{
    if rows.len() == 0 {
        0
    } else {
        let m = max_name_len(rows.drop_last(), all);
        if shown(all, rows.last()) && rows.last().name@.len() > m {
            rows.last().name@.len()
        } else {
            m
        }
    }
}

/// The width of the column of names: the longest name shown, and at least the totals label.
pub open spec fn symbol_width(rows: Seq<RecordsSymbol>, all: bool) -> nat {
    let m = max_name_len(rows, all);
    if m > 8 {
        m
    } else {
        8
    }
}

pub open spec fn total_label() -> Seq<char> {
    seq!['T', 'o', 't', 'a', 'l', ' ', 'I', 'R']
}

pub open spec fn symbol_label() -> Seq<char> {
    seq!['S', 'y', 'm', 'b', 'o', 'l']
}

/// The largest of `s`; 0 for none.
pub open spec fn max_of(s: Seq<u64>) -> nat
    decreases s.len(),
{
    if s.len() == 0 {
        0
    } else if s.last() > max_of(s.drop_last()) {
        s.last() as nat
    } else {
        max_of(s.drop_last())
    }
}

/// The widths and reference of the table of `records`, displayed as `config` asks.
pub open spec fn layout(config: Args, records: Records) -> Displayer {
    let irw = decimal(max_of(records.runs_total_irs@)).len();
    let show = config.show@;
    Displayer {
        max_symbol_width: symbol_width(records.symbols@, config.all) as usize,
        max_total_ir_width: irw as usize,
        run_width: ((if show.contains(Show::IRCount) { irw } else { 0 }) + (if show.contains(
            Show::IRCountDiff,
        ) {
            irw + 1
        } else {
            0
        }) + (if show.contains(Show::PercentageDiff) { 9nat } else { 0 }) + (show.len() - 1)) as usize,
        reference: reference_spec(config.relative_to, records.run_names.len() as nat),
    }
}

pub open spec fn width_of(d: Displayer, i: int) -> nat {
    if is_ref_spec(d.reference, i) {
        d.max_total_ir_width as nat
    } else {
        d.run_width as nat
    }
}

pub open spec fn header_cells(d: Displayer, names: Seq<String>, k: nat) -> Seq<char>
    decreases k,
{
    if k == 0 {
        Seq::empty()
    } else {
        header_cells(d, names, (k - 1) as nat) + seq![' ', '|', ' '] + centered(
            names[k - 1]@,
            width_of(d, k - 1),
        )
    }
}

pub open spec fn dashes(n: nat) -> Seq<char> {
    Seq::new(n, |_i: int| '-')
}

pub open spec fn rule_cells(d: Displayer, k: nat) -> Seq<char>
    decreases k,
{
    if k == 0 {
        Seq::empty()
    } else {
        rule_cells(d, (k - 1) as nat) + seq!['-', '+', '-'] + dashes(width_of(d, k - 1))
    }
}

/// The line of a symbol: its name, then its cells.
pub open spec fn row_line(d: Displayer, show: Seq<Show>, r: RecordsSymbol) -> Seq<char> {
    left(r.name@, d.max_symbol_width as nat) + cells(
        d.reference,
        show,
        d.max_total_ir_width as nat,
        r.irs@,
        r.irs.len() as nat,
    ) + seq!['\n']
}

/// The lines of the rows shown, among the first `k`.
pub open spec fn body(d: Displayer, show: Seq<Show>, all: bool, rows: Seq<RecordsSymbol>, k: nat) -> Seq<char>
    decreases k,
{
    if k == 0 {
        Seq::empty()
    } else {
        body(d, show, all, rows, (k - 1) as nat) + if shown(all, rows[k - 1]) {
            row_line(d, show, rows[k - 1])
        } else {
            Seq::empty()
        }
    }
}

/// The whole table: header, rule, totals, rule, then one line per row shown.
pub open spec fn table_text(config: Args, records: Records) -> Seq<char> {
    let d = layout(config, records);
    let n = records.run_names.len() as nat;
    let rule = dashes(d.max_symbol_width as nat) + rule_cells(d, n) + seq!['\n'];
    symbol_label() + spaces((d.max_symbol_width - 6) as nat) + header_cells(d, records.run_names@, n)
        + seq!['\n'] + rule + left(total_label(), d.max_symbol_width as nat) + cells(
        d.reference,
        config.show@,
        d.max_total_ir_width as nat,
        records.runs_total_irs@,
        n,
    ) + seq!['\n'] + rule + body(d, config.show@, config.all, records.symbols@, records.symbols.len() as nat)
}

/// Relies on `Itertools::all_equal`: true where no two items differ.
#[verifier::external_body]
fn all_equal(v: &Vec<u64>) -> (r: bool)
    ensures
        r == all_same(v@),
{
    v.iter().all_equal()
}

pub open spec fn pow10(k: nat) -> nat
    decreases k,
{
    if k == 0 {
        1
    } else {
        10 * pow10((k - 1) as nat)
    }
}

/// A number under `10^k` has at most `k` digits.
proof fn lemma_decimal_len(n: nat, k: nat)
    requires
        k >= 1,
        n < pow10(k),
    ensures
        decimal(n).len() <= k,
    decreases k,
{
    if n >= 10 {
        let p = pow10((k - 1) as nat);
        if k == 1 {
            assert(pow10(1) == 10) by {
                reveal_with_fuel(pow10, 2);
            }
        } else {
            assert(n / 10 < p) by (nonlinear_arith)
                requires
                    n < 10 * p,
            ;
            lemma_decimal_len(n / 10, (k - 1) as nat);
        }
    }
}

proof fn lemma_u64_digits(n: u64)
    ensures
        decimal(n as nat).len() <= 20,
{
    assert(pow10(20) == 100_000_000_000_000_000_000) by {
        reveal_with_fuel(pow10, 21);
    }
    lemma_decimal_len(n as nat, 20);
}

/// Get the length of the longest symbol among the rows shown, and at least that of the
/// totals label.
pub fn get_max_symbol_length(records: &Records, display_all: bool) -> (r: usize)
    ensures
        r == symbol_width(records.symbols@, display_all),
        r >= 8,
{
    let mut m: usize = 0;
    let mut i: usize = 0;
    while i < records.symbols.len()
        invariant
            i <= records.symbols.len(),
            m == max_name_len(records.symbols@.take(i as int), display_all),
        decreases records.symbols.len() - i,
    {
        let row = &records.symbols[i];
        let ghost t = records.symbols@.take(i as int + 1);
        assert(t.drop_last() =~= records.symbols@.take(i as int));
        if display_all || !all_equal(&row.irs) {
            let len = chars_of(row.name.as_str()).len();
            if len > m {
                m = len;
            }
        }
        i = i + 1;
    }
    assert(records.symbols@.take(records.symbols.len() as int) =~= records.symbols@);
    if m > 8 {
        m
    } else {
        8
    }
}

/// Get the length in digits of the highest total IR; 1 where there is none.
pub fn get_highest_total_ir_length(records: &Records) -> (r: usize)
    ensures
        r == decimal(max_of(records.runs_total_irs@)).len(),
        1 <= r <= 20,
{
    let mut m: u64 = 0;
    let mut i: usize = 0;
    while i < records.runs_total_irs.len()
        invariant
            i <= records.runs_total_irs.len(),
            m == max_of(records.runs_total_irs@.take(i as int)),
        decreases records.runs_total_irs.len() - i,
    {
        let ghost t = records.runs_total_irs@.take(i as int + 1);
        assert(t.drop_last() =~= records.runs_total_irs@.take(i as int));
        if records.runs_total_irs[i] > m {
            m = records.runs_total_irs[i];
        }
        i = i + 1;
    }
    assert(records.runs_total_irs@.take(records.runs_total_irs.len() as int) =~= records.runs_total_irs@);
    proof {
        lemma_u64_digits(m);
    }
    decimal_of(m as u128).len()
}

/// The fields of `show` fit a display, and the widths fit in memory.
pub open spec fn displayable(config: Args, records: Records) -> bool {
    &&& records.wf()
    &&& records.run_names.len() > 0
    &&& show_ok(config.show@)
    &&& (config.relative_to matches RelativeTo::Column(x) ==> x < records.run_names.len())
}

impl Displayer {
    /// Create the layout of the table of `records`.
    pub fn new(config: &Args, records: &Records) -> (r: Self)
        requires
            displayable(*config, *records),
        ensures
            r == layout(*config, *records),
            r.max_total_ir_width <= 20,
            r.max_symbol_width >= 8,
            reference_ok(r.reference, records.run_names.len() as nat),
    {
        let irw = get_highest_total_ir_length(records);
        let mut ret = Displayer {
            max_symbol_width: get_max_symbol_length(records, config.all),
            max_total_ir_width: irw,
            run_width: 0,
            reference: resolve_reference(config.relative_to, records.n_runs()),
        };
        ret.compute_widths(config);
        ret
    }

    /// Compute the width of a compared column from the fields shown:
    /// `<ir> <ir-diff> <%>`, each only where asked for.
    fn compute_widths(&mut self, config: &Args)
        requires
            show_ok(config.show@),
            old(self).max_total_ir_width <= 20,
        ensures
            final(self).max_symbol_width == old(self).max_symbol_width,
            final(self).max_total_ir_width == old(self).max_total_ir_width,
            final(self).reference == old(self).reference,
            final(self).run_width == (if config.show@.contains(Show::IRCount) {
                old(self).max_total_ir_width as nat
            } else {
                0
            }) + (if config.show@.contains(Show::IRCountDiff) {
                old(self).max_total_ir_width + 1
            } else {
                0
            }) + (if config.show@.contains(Show::PercentageDiff) {
                9nat
            } else {
                0
            }) + (config.show@.len() - 1),
    {
        let ir_len = self.max_total_ir_width;
        let ir = if contains_show(&config.show, Show::IRCount) {
            ir_len
        } else {
            0
        };
        let ir_diff = if contains_show(&config.show, Show::IRCountDiff) {
            ir_len + 1
        } else {
            0
        };
        let percent_diff = if contains_show(&config.show, Show::PercentageDiff) {
            PERCENTDIFF_WIDTH
        } else {
            0
        };
        self.run_width = ir + ir_diff + percent_diff + (config.show.len() - 1);
    }

    /// Append ` | ` and the cell of each column of a row of counts.
    fn show_cells(&self, out: &mut Vec<char>, show: &Vec<Show>, vals: &Vec<u64>)
        requires
            reference_ok(self.reference, vals.len() as nat),
            self.max_total_ir_width <= 20,
        ensures
            final(out)@ == old(out)@ + cells(
                self.reference,
                show@,
                self.max_total_ir_width as nat,
                vals@,
                vals.len() as nat,
            ),
    {
        let ghost o = out@;
        let irw = self.max_total_ir_width;
        let mut i: usize = 0;
        while i < vals.len()
            invariant
                i <= vals.len(),
                irw == self.max_total_ir_width,
                irw <= 20,
                reference_ok(self.reference, vals.len() as nat),
                out@ == o + cells(self.reference, show@, irw as nat, vals@, i as nat),
            decreases vals.len() - i,
        {
            out.push(' ');
            out.push('|');
            out.push(' ');
            if is_ref_column(self.reference, i) {
                self.show_symbol_ir(out, vals[i]);
            } else {
                let reference_ir = self.get_reference_ir_for(i, vals);
                show_run_details(out, show, irw, vals[i], reference_ir);
            }
            assert(out@ =~= o + cells(self.reference, show@, irw as nat, vals@, (i + 1) as nat));
            i = i + 1;
        }
    }

    /// The total that the total of run `i` is compared to.
    pub fn get_reference_total_ir_for(&self, i: usize, records: &Records) -> (r: u64)
        requires
            i < records.runs_total_irs.len(),
            !is_ref_spec(self.reference, i as int),
            reference_ok(self.reference, records.runs_total_irs.len() as nat),
        ensures
            r == records.runs_total_irs@[ref_index_spec(self.reference, i as int)],
            self.reference == Reference::Previous ==> r == records.runs_total_irs@[i - 1],
            self.reference matches Reference::Fixed(c) ==> r == records.runs_total_irs@[c as int],
    {
        self.get_reference_ir_for(i, &records.runs_total_irs)
    }

    /// Append an IR count, aligned to the right.
    fn show_symbol_ir(&self, out: &mut Vec<char>, ir: u64)
        ensures
            final(out)@ == old(out)@ + right(decimal(ir as nat), self.max_total_ir_width as nat),
    {
        let s = decimal_of(ir as u128);
        push_right(out, &s, self.max_total_ir_width);
    }

    /// The count that column `i` of a row is compared to: the one before it where each column
    /// is compared to the previous one, else the one of the reference column.
    pub fn get_reference_ir_for(&self, i: usize, vals: &Vec<u64>) -> (r: u64)
        requires
            i < vals.len(),
            !is_ref_spec(self.reference, i as int),
            reference_ok(self.reference, vals.len() as nat),
        ensures
            r == vals@[ref_index_spec(self.reference, i as int)],
            self.reference == Reference::Previous ==> r == vals@[i - 1],
            self.reference matches Reference::Fixed(c) ==> r == vals@[c as int],
    {
        match self.reference {
            Reference::Fixed(c) => vals[c],
            Reference::Previous => vals[i - 1],
        }
    }

    /// Append the header line.
    fn show_header(&self, out: &mut Vec<char>, names: &Vec<String>)
        requires
            self.max_symbol_width >= 6,
        ensures
            final(out)@ == old(out)@ + symbol_label() + spaces((self.max_symbol_width - 6) as nat)
                + header_cells(*self, names@, names.len() as nat) + seq!['\n'],
    {
        let ghost o = out@;
        out.push('S');
        out.push('y');
        out.push('m');
        out.push('b');
        out.push('o');
        out.push('l');
        let pad = if self.max_symbol_width > 6 {
            self.max_symbol_width - 6
        } else {
            0
        };
        push_n(out, ' ', pad);
        let ghost start = out@;
        assert(start =~= o + symbol_label() + spaces((self.max_symbol_width - 6) as nat));
        let mut i: usize = 0;
        while i < names.len()
            invariant
                i <= names.len(),
                out@ == start + header_cells(*self, names@, i as nat),
            decreases names.len() - i,
        {
            out.push(' ');
            out.push('|');
            out.push(' ');
            let name = chars_of(names[i].as_str());
            let w = if is_ref_column(self.reference, i) {
                self.max_total_ir_width
            } else {
                self.run_width
            };
            push_centered(out, &name, w);
            assert(out@ =~= start + header_cells(*self, names@, (i + 1) as nat));
            i = i + 1;
        }
        out.push('\n');
        assert(out@ =~= o + symbol_label() + spaces((self.max_symbol_width - 6) as nat)
            + header_cells(*self, names@, names.len() as nat) + seq!['\n']);
    }

    /// Append a `---+----+---` line as a horizontal separation.
    fn show_delimitation_line(&self, out: &mut Vec<char>, n: usize)
        ensures
            final(out)@ == old(out)@ + dashes(self.max_symbol_width as nat) + rule_cells(*self, n as nat)
                + seq!['\n'],
    {
        let ghost o = out@;
        push_n(out, '-', self.max_symbol_width);
        let ghost start = out@;
        let mut i: usize = 0;
        while i < n
            invariant
                i <= n,
                out@ == start + rule_cells(*self, i as nat),
            decreases n - i,
        {
            out.push('-');
            out.push('+');
            out.push('-');
            let w = if is_ref_column(self.reference, i) {
                self.max_total_ir_width
            } else {
                self.run_width
            };
            push_n(out, '-', w);
            assert(out@ =~= start + rule_cells(*self, (i + 1) as nat));
            i = i + 1;
        }
        out.push('\n');
        assert(out@ =~= o + dashes(self.max_symbol_width as nat) + rule_cells(*self, n as nat)
            + seq!['\n']);
    }

    /// Append the line of the totals of the runs.
    fn show_total_ir_line(&self, out: &mut Vec<char>, show: &Vec<Show>, totals: &Vec<u64>)
        requires
            reference_ok(self.reference, totals.len() as nat),
            self.max_total_ir_width <= 20,
        ensures
            final(out)@ == old(out)@ + left(total_label(), self.max_symbol_width as nat) + cells(
                self.reference,
                show@,
                self.max_total_ir_width as nat,
                totals@,
                totals.len() as nat,
            ) + seq!['\n'],
    {
        let ghost o = out@;
        let mut label: Vec<char> = Vec::new();
        label.push('T');
        label.push('o');
        label.push('t');
        label.push('a');
        label.push('l');
        label.push(' ');
        label.push('I');
        label.push('R');
        assert(label@ =~= total_label());
        push_left(out, &label, self.max_symbol_width);
        self.show_cells(out, show, totals);
        out.push('\n');
        assert(out@ =~= o + left(total_label(), self.max_symbol_width as nat) + cells(
            self.reference,
            show@,
            self.max_total_ir_width as nat,
            totals@,
            totals.len() as nat,
        ) + seq!['\n']);
    }

    /// Append the line of a symbol.
    fn show_symbol_row(&self, out: &mut Vec<char>, show: &Vec<Show>, symbol: &RecordsSymbol)
        requires
            reference_ok(self.reference, symbol.irs.len() as nat),
            self.max_total_ir_width <= 20,
        ensures
            final(out)@ == old(out)@ + row_line(*self, show@, *symbol),
    {
        let ghost o = out@;
        let name = chars_of(symbol.name.as_str());
        push_left(out, &name, self.max_symbol_width);
        self.show_cells(out, show, &symbol.irs);
        out.push('\n');
        assert(out@ =~= o + row_line(*self, show@, *symbol));
    }

    /// The table of `records`.
    pub fn display(&self, config: &Args, records: &Records) -> (r: Vec<char>)
        requires
            displayable(*config, *records),
            *self == layout(*config, *records),
            self.max_total_ir_width <= 20,
            self.max_symbol_width >= 8,
            reference_ok(self.reference, records.run_names.len() as nat),
        ensures
            r@ == table_text(*config, *records),
    {
        let n = records.n_runs();
        let mut out: Vec<char> = Vec::new();
        self.show_header(&mut out, &records.run_names);
        self.show_delimitation_line(&mut out, n);
        self.show_total_ir_line(&mut out, &config.show, &records.runs_total_irs);
        self.show_delimitation_line(&mut out, n);
        let ghost start = out@;
        let mut i: usize = 0;
        while i < records.symbols.len()
            invariant
                i <= records.symbols.len(),
                records.wf(),
                n == records.run_names.len(),
                self.max_total_ir_width <= 20,
                reference_ok(self.reference, n as nat),
                out@ == start + body(*self, config.show@, config.all, records.symbols@, i as nat),
            decreases records.symbols.len() - i,
        {
            let symbol = &records.symbols[i];
            assert(symbol.irs.len() == n);
            if config.all || !all_equal(&symbol.irs) {
                self.show_symbol_row(&mut out, &config.show, symbol);
            }
            assert(out@ =~= start + body(*self, config.show@, config.all, records.symbols@, (i + 1) as nat));
            i = i + 1;
        }
        assert(out@ =~= table_text(*config, *records));
        out
    }
}

/// Whether `show` holds `f`.
fn contains_show(show: &Vec<Show>, f: Show) -> (r: bool)
    ensures
        r == show@.contains(f),
{
    let mut i: usize = 0;
    while i < show.len()
        invariant
            i <= show.len(),
            forall|q: int| 0 <= q < i ==> show@[q] != f,
        decreases show.len() - i,
    {
        if show[i] == f {
            return true;
        }
        i = i + 1;
    }
    false
}

/// Render the table of `records` as `config` asks: one line of run names, the totals, and a
/// line per symbol shown, each compared column against its reference.
pub fn display(config: &Args, records: &Records) -> (r: String)
    requires
        displayable(*config, *records),
    ensures
        r@ == table_text(*config, *records),
{
    let d = Displayer::new(config, records);
    let out = d.display(config, records);
    string_of(&out)
}

} // verus!
