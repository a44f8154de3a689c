use vstd::prelude::*;

use crate::runs::Run;
use crate::text::{chars_of, digits_value, is_blank, is_digit, join_with_spaces, joined, read_digits, string_of, u64_modulus, views_of};

verus! {

/// The words of `s`: the maximal runs of characters that are not blanks.
pub open spec fn tokens(s: Seq<char>) -> Seq<Seq<char>>
    decreases s.len(),
{
    if s.len() == 0 {
        Seq::empty()
    } else if is_blank(s.last()) {
        tokens(s.drop_last())
    } else if s.len() >= 2 && !is_blank(s[s.len() - 2]) {
        let ts = tokens(s.drop_last());
        ts.update(ts.len() - 1, ts.last().push(s.last()))
    } else {
        tokens(s.drop_last()).push(seq![s.last()])
    }
}

pub open spec fn ends_with_paren(w: Seq<char>) -> bool {
    w.len() > 0 && w.last() == ')'
}

pub open spec fn starts_with_bracket(w: Seq<char>) -> bool {
    w.len() > 0 && w[0] == '['
}

/// A line begins the header of a block of counts.
pub open spec fn starts_with_ir(l: Seq<char>) -> bool {
    l.len() >= 2 && l[0] == 'I' && l[1] == 'r'
}

/// The first character of a line that is not a blank is a digit.
pub open spec fn digit_led(l: Seq<char>) -> bool {
    exists|k: int| 0 <= k < l.len() && is_digit(l[k]) && forall|q: int| 0 <= q < k ==> is_blank(l[q])
}

/// The tests by which a word or a line is looked for.
#[derive(Clone, Copy, PartialEq, Eq, Structural)]
pub enum Probe {
    ClosesParen,
    OpensBracket,
    IrHeader,
    NotDigitLed,
}

pub open spec fn probe(p: Probe, w: Seq<char>) -> bool {
    match p {
        Probe::ClosesParen => ends_with_paren(w),
        Probe::OpensBracket => starts_with_bracket(w),
        Probe::IrHeader => starts_with_ir(w),
        Probe::NotDigitLed => !digit_led(w),
    }
}

/// `k` is the first index at or after `from` whose item passes `p`, or the length of `ws`
/// where none does.
pub open spec fn is_first(ws: Seq<Seq<char>>, from: int, k: int, p: Probe) -> bool {
    &&& from <= k <= ws.len()
    &&& forall|q: int| from <= q < k ==> !probe(p, #[trigger] ws[q])
    &&& k < ws.len() ==> probe(p, ws[k])
}

pub open spec fn first_from(ws: Seq<Seq<char>>, from: int, p: Probe) -> int {
    choose|k: int| is_first(ws, from, k, p)
}

proof fn lemma_first_from(ws: Seq<Seq<char>>, from: int, k: int, p: Probe)
    requires
        is_first(ws, from, k, p),
    ensures
        first_from(ws, from, p) == k,
{
    let c = first_from(ws, from, p);
    if c < k {
        assert(!probe(p, ws[c]));
    } else if c > k {
        assert(!probe(p, ws[k]));
    }
}

/// The count written at the start of a line: the digits of its first word.
#[verifier::opaque]
pub open spec fn count_of_line(l: Seq<char>) -> u64 {
    if tokens(l).len() > 0 {
        digits_value(tokens(l)[0]) as u64
    } else {
        0
    }
}

/// What follows the first `:` of `s`; nothing where `s` has none.
pub open spec fn after_colon(s: Seq<char>) -> Seq<char> {
    if exists|k: int| 0 <= k < s.len() && s[k] == ':' {
        let k = choose|k: int| 0 <= k < s.len() && s[k] == ':' && forall|q: int| 0 <= q < k ==> s[q] != ':';
        s.skip(k + 1)
    } else {
        Seq::empty()
    }
}

/// The words that name the location and symbol: after the word that closes the percentage,
/// up to the word that opens the file name.
pub open spec fn location_words(ts: Seq<Seq<char>>) -> Seq<Seq<char>> {
    let from = if ts.len() == 0 { 0int } else { 1int };
    let c = first_from(ts, from, Probe::ClosesParen);
    let start = if c < ts.len() { c + 1 } else { c };
    let end = first_from(ts, start, Probe::OpensBracket);
    ts.subrange(start, end)
}

/// The symbol named on a line `<count> (<percent>) <location>:<symbol> [<file>]`.
#[verifier::opaque]
pub open spec fn symbol_of_line(l: Seq<char>) -> Seq<char> {
    after_colon(joined(location_words(tokens(l))))
}

proof fn lemma_tokens_nonempty(s: Seq<char>)
    requires
        s.len() > 0,
        !is_blank(s.last()),
    ensures
        tokens(s).len() > 0,
    decreases s.len(),
{
    if s.len() >= 2 && !is_blank(s[s.len() - 2]) {
        lemma_tokens_nonempty(s.drop_last());
    }
}

/// The words of a line, blanks dropped.
fn split_words(line: &Vec<char>) -> (r: Vec<Vec<char>>)
    ensures
        r@.map_values(|w: Vec<char>| w@) == tokens(line@),
{
    let mut words: Vec<Vec<char>> = Vec::new();
    let mut i: usize = 0;
    while i < line.len()
        invariant
            i <= line.len(),
            words@.map_values(|w: Vec<char>| w@) == tokens(line@.take(i as int)),
        decreases line.len() - i,
    {
        let c = line[i];
        let ghost prefix = line@.take(i as int + 1);
        assert(prefix.drop_last() =~= line@.take(i as int));
        if c == ' ' || c == '\t' || c == '\n' || c == '\r' || c == '\x0c' {
        } else if i > 0 && !(line[i - 1] == ' ' || line[i - 1] == '\t' || line[i - 1] == '\n'
            || line[i - 1] == '\r' || line[i - 1] == '\x0c') {
            proof {
                assert(prefix[prefix.len() - 2] == line@[i - 1]);
                lemma_tokens_nonempty(line@.take(i as int));
            }
            let last = words.len() - 1;
            words[last].push(c);
            assert(words@.map_values(|w: Vec<char>| w@) =~= tokens(prefix));
        } else {
            let mut w: Vec<char> = Vec::new();
            w.push(c);
            words.push(w);
            assert(words@.map_values(|w: Vec<char>| w@) =~= tokens(prefix));
        }
        i = i + 1;
    }
    assert(line@.take(line.len() as int) =~= line@);
    words
}

/// Index of the first line of the block of symbol counts.
pub open spec fn total_line_index(ls: Seq<Seq<char>>) -> int {
    first_from(ls, 0, Probe::IrHeader) + 2
}

/// The total count of a report: the count on the line after the first header and its rule.
pub open spec fn report_total(ls: Seq<Seq<char>>) -> u64 {
    let t = total_line_index(ls);
    if t < ls.len() {
        count_of_line(ls[t])
    } else {
        0
    }
}

/// The lines of a report that give the count of a symbol: those that start with a digit,
/// after the second header and its rule.
pub open spec fn symbol_lines(ls: Seq<Seq<char>>) -> Seq<Seq<char>> {
    let t = total_line_index(ls);
    if t >= ls.len() {
        Seq::empty()
    } else {
        let s = first_from(ls, t + 1, Probe::IrHeader) + 2;
        if s >= ls.len() {
            Seq::empty()
        } else {
            ls.subrange(s, first_from(ls, s, Probe::NotDigitLed))
        }
    }
}

/// The sum (wrapping at `u64::MAX`) of the counts of the lines that name symbol `n`.
pub open spec fn count_for(ls: Seq<Seq<char>>, n: Seq<char>) -> int
    decreases ls.len(),
{
    if ls.len() == 0 {
        0
    } else {
        (count_for(ls.drop_last(), n) + if symbol_of_line(ls.last()) == n {
            count_of_line(ls.last()) as int
        } else {
            0
        }) % u64_modulus()
    }
}

/// `names` are in the order in which lines first name them: for two names, some line names
/// the earlier one before any line names the later one.
pub open spec fn first_seen(names: Seq<Seq<char>>, ls: Seq<Seq<char>>) -> bool {
    forall|i: int, j: int, k: int|
        #![trigger names[i], names[j], symbol_of_line(ls[k])]
        0 <= i < j < names.len() && 0 <= k < ls.len() && symbol_of_line(ls[k]) == names[j]
            ==> names_symbol(ls.take(k), names[i])
}

/// Some line names symbol `n`.
pub open spec fn names_symbol(ls: Seq<Seq<char>>, n: Seq<char>) -> bool {
    exists|k: int| 0 <= k < ls.len() && symbol_of_line(ls[k]) == n
}

/// Whether a word passes `p`.
fn word_passes(w: &Vec<char>, p: Probe) -> (r: bool)
    requires
        p is ClosesParen || p is OpensBracket,
    ensures
        r == probe(p, w@),
{
    match p {
        Probe::ClosesParen => w.len() > 0 && w[w.len() - 1] == ')',
        _ => w.len() > 0 && w[0] == '[',
    }
}

/// Whether a line passes `p`.
fn line_passes(l: &String, p: Probe) -> (r: bool)
    requires
        p is IrHeader || p is NotDigitLed,
    ensures
        r == probe(p, l@),
{
    match p {
        Probe::IrHeader => is_ir_header(l),
        _ => !is_digit_led(l),
    }
}

/// One more symbol line keeps the names in the order in which lines first name them.
proof fn lemma_first_seen_step(
    before: Seq<Seq<char>>,
    after: Seq<Seq<char>>,
    na: Seq<Seq<char>>,
    nb: Seq<Seq<char>>,
    sym: Seq<char>,
)
    requires
        after.len() > 0,
        after.drop_last() == before,
        symbol_of_line(after.last()) == sym,
        first_seen(na, before),
        forall|i: int| 0 <= i < na.len() ==> names_symbol(before, #[trigger] na[i]),
        names_symbol(before, sym) ==> nb == na,
        !names_symbol(before, sym) ==> nb == na.push(sym),
    ensures
        first_seen(nb, after),
{
    assert forall|i: int, j: int, k: int|
        #![trigger nb[i], nb[j], symbol_of_line(after[k])]
        0 <= i < j < nb.len() && 0 <= k < after.len() && symbol_of_line(after[k]) == nb[j]
            implies names_symbol(after.take(k), nb[i]) by {
        assert(i < na.len());
        assert(nb[i] == na[i]);
        if k < before.len() {
            assert(after[k] == before[k]);
            if j < na.len() {
                assert(nb[j] == na[j]);
                assert(symbol_of_line(before[k]) == na[j]);
                assert(names_symbol(before.take(k), na[i]));
                let q = choose|q: int| 0 <= q < k && symbol_of_line(before.take(k)[q]) == na[i];
                assert(after.take(k)[q] == before.take(k)[q]);
            } else {
                assert(nb[j] == sym);
                assert(names_symbol(before, sym));
            }
        } else {
            assert(names_symbol(before, na[i]));
            let q = choose|q: int| 0 <= q < before.len() && symbol_of_line(before[q]) == na[i];
            assert(after.take(k)[q] == before[q]);
        }
    }
}

/// One more symbol line, added to the run, keeps the run in step with the lines read.
proof fn lemma_count_step(
    before: Seq<Seq<char>>,
    after: Seq<Seq<char>>,
    a: Run,
    b: Run,
    sym: Seq<char>,
    ir: u64,
)
    requires
        after.len() > 0,
        after.drop_last() == before,
        symbol_of_line(after.last()) == sym,
        count_of_line(after.last()) == ir,
        forall|n: Seq<char>| #[trigger] a.has_symbol(n) == names_symbol(before, n),
        forall|n: Seq<char>| #[trigger] a.ir_of(n) == count_for(before, n),
        forall|n: Seq<char>| #[trigger] b.has_symbol(n) == (a.has_symbol(n) || n == sym),
        forall|n: Seq<char>| n != sym ==> #[trigger] b.ir_of(n) == a.ir_of(n),
        b.ir_of(sym) == (a.ir_of(sym) + ir) % u64_modulus(),
    ensures
        forall|n: Seq<char>| #[trigger] b.has_symbol(n) == names_symbol(after, n),
        forall|n: Seq<char>| #[trigger] b.ir_of(n) == count_for(after, n),
{
    lemma_names_step(before, after, a, b, sym);
    assert forall|n: Seq<char>| #[trigger] b.ir_of(n) == count_for(after, n) by {
        assert(a.ir_of(n) == count_for(before, n));
        if n != sym {
            assert(count_for(before, n) < u64_modulus());
        }
    }
}

proof fn lemma_names_step(before: Seq<Seq<char>>, after: Seq<Seq<char>>, a: Run, b: Run, sym: Seq<char>)
    requires
        after.len() > 0,
        after.drop_last() == before,
        symbol_of_line(after.last()) == sym,
        forall|n: Seq<char>| #[trigger] a.has_symbol(n) == names_symbol(before, n),
        forall|n: Seq<char>| #[trigger] b.has_symbol(n) == (a.has_symbol(n) || n == sym),
    ensures
        forall|n: Seq<char>| #[trigger] b.has_symbol(n) == names_symbol(after, n),
{
    assert forall|n: Seq<char>| #[trigger] b.has_symbol(n) == names_symbol(after, n) by {
        if names_symbol(after, n) {
            let q = choose|q: int| 0 <= q < after.len() && symbol_of_line(after[q]) == n;
            if q < before.len() {
                assert(before[q] == after[q]);
                assert(names_symbol(before, n));
            }
        }
        if names_symbol(before, n) {
            let q = choose|q: int| 0 <= q < before.len() && symbol_of_line(before[q]) == n;
            assert(before[q] == after[q]);
        }
        if n == sym {
            assert(symbol_of_line(after[after.len() - 1]) == n);
        }
    }
}

/// The index of the first word at or after `from` that passes `p`.
fn find_word(words: &Vec<Vec<char>>, from: usize, p: Probe) -> (r: usize)
    requires
        from <= words.len(),
        p is ClosesParen || p is OpensBracket,
    ensures
        is_first(words@.map_values(|w: Vec<char>| w@), from as int, r as int, p),
{
    let ghost ws = words@.map_values(|w: Vec<char>| w@);
    let mut k = from;
    while k < words.len() && !word_passes(&words[k], p)
        invariant
            from <= k <= words.len(),
            ws == words@.map_values(|w: Vec<char>| w@),
            p is ClosesParen || p is OpensBracket,
            forall|q: int| from <= q < k ==> !probe(p, #[trigger] ws[q]),
        decreases words.len() - k,
    {
        assert(ws[k as int] == words@[k as int]@);
        k = k + 1;
    }
    proof {
        if k < words.len() {
            assert(ws[k as int] == words@[k as int]@);
        }
    }
    k
}

/// Whether the line begins the header of a block of counts.
fn is_ir_header(line: &String) -> (r: bool)
    ensures
        r == starts_with_ir(line@),
{
    let c = chars_of(line.as_str());
    c.len() >= 2 && c[0] == 'I' && c[1] == 'r'
}

/// Whether the first character of the line that is not a blank is a digit.
fn is_digit_led(line: &String) -> (r: bool)
    ensures
        r == digit_led(line@),
{
    let c = chars_of(line.as_str());
    let mut k: usize = 0;
    while k < c.len() && (c[k] == ' ' || c[k] == '\t' || c[k] == '\n' || c[k] == '\r' || c[k] == '\x0c')
        invariant
            k <= c.len(),
            forall|q: int| 0 <= q < k ==> is_blank(c@[q]),
        decreases c.len() - k,
    {
        k = k + 1;
    }
    let r = k < c.len() && '0' <= c[k] && c[k] <= '9';
    proof {
        if digit_led(line@) && !r {
            let w = choose|w: int| 0 <= w < c@.len() && is_digit(c@[w]) && forall|q: int| 0 <= q < w ==> is_blank(c@[q]);
            if w < k {
                assert(is_blank(c@[w]));
            } else if w > k {
                assert(is_blank(c@[k as int]));
            }
        }
    }
    r
}

/// The index of the first line at or after `from` that passes `p`.
fn find_line(lines: &Vec<String>, from: usize, p: Probe) -> (r: usize)
    requires
        from <= lines.len(),
        p is IrHeader || p is NotDigitLed,
    ensures
        is_first(views_of(lines@), from as int, r as int, p),
{
    let ghost ls = views_of(lines@);
    let mut k = from;
    while k < lines.len() && !line_passes(&lines[k], p)
        invariant
            from <= k <= lines.len(),
            ls == views_of(lines@),
            p is IrHeader || p is NotDigitLed,
            forall|q: int| from <= q < k ==> !probe(p, #[trigger] ls[q]),
        decreases lines.len() - k,
    {
        assert(ls[k as int] == lines@[k as int]@);
        k = k + 1;
    }
    proof {
        if k < lines.len() {
            assert(ls[k as int] == lines@[k as int]@);
        }
    }
    k
}

/// Parse the total IR line: the digits of its first word, separators ignored.
pub fn parse_total_ir_line(line: &str) -> (r: u64)
    ensures
        r == count_of_line(line@),
{
    reveal(count_of_line);
    let chars = chars_of(line);
    let words = split_words(&chars);
    if words.len() > 0 {
        assert(words@[0]@ == tokens(line@)[0]);
        read_digits(&words[0])
    } else {
        0
    }
}

/// Parse an IR line for a particular symbol, of the form
/// `<ir> (xx.xx%) <loc>:<sym> [<file>]`, where `<loc>` and `<sym>` may hold spaces.
pub fn parse_fn_ir_line(line: &str) -> (r: (String, u64))
    ensures
        r.0@ == symbol_of_line(line@),
        r.1 == count_of_line(line@),
{
    reveal(count_of_line);
    reveal(symbol_of_line);
    let chars = chars_of(line);
    let words = split_words(&chars);
    let ghost ts = tokens(line@);
    let count = if words.len() > 0 {
        assert(words@[0]@ == ts[0]);
        read_digits(&words[0])
    } else {
        0
    };
    let from: usize = if words.len() == 0 {
        0
    } else {
        1
    };
    let c = find_word(&words, from, Probe::ClosesParen);
    proof {
        lemma_first_from(ts, from as int, c as int, Probe::ClosesParen);
    }
    let start = if c < words.len() {
        c + 1
    } else {
        c
    };
    let end = find_word(&words, start, Probe::OpensBracket);
    proof {
        lemma_first_from(ts, start as int, end as int, Probe::OpensBracket);
    }
    let mut loc_words: Vec<String> = Vec::new();
    let mut k = start;
    while k < end
        invariant
            start <= k <= end <= words.len(),
            ts == words@.map_values(|w: Vec<char>| w@),
            views_of(loc_words@) == ts.subrange(start as int, k as int),
        decreases end - k,
    {
        assert(ts[k as int] == words@[k as int]@);
        let ghost prev = loc_words@;
        let w = string_of(&words[k]);
        assert(w@ == ts[k as int]);
        loc_words.push(w);
        assert(loc_words@ == prev.push(w));
        assert(views_of(loc_words@) =~= views_of(prev).push(w@));
        assert(views_of(loc_words@) =~= ts.subrange(start as int, k + 1));
        k = k + 1;
    }
    let loc = join_with_spaces(&loc_words);
    let loc_chars = chars_of(loc.as_str());
    let ghost j = loc_chars@;
    let mut colon: usize = 0;
    while colon < loc_chars.len() && loc_chars[colon] != ':'
        invariant
            colon <= loc_chars.len(),
            forall|q: int| 0 <= q < colon ==> j[q] != ':',
            j == loc_chars@,
        decreases loc_chars.len() - colon,
    {
        colon = colon + 1;
    }
    let mut sym: Vec<char> = Vec::new();
    if colon < loc_chars.len() {
        let mut q = colon + 1;
        while q < loc_chars.len()
            invariant
                colon < q <= loc_chars.len(),
                j == loc_chars@,
                sym@ == j.subrange(colon + 1, q as int),
            decreases loc_chars.len() - q,
        {
            sym.push(loc_chars[q]);
            assert(sym@ =~= j.subrange(colon + 1, q + 1));
            q = q + 1;
        }
        proof {
            assert(sym@ =~= j.skip(colon + 1));
            let kc = choose|k: int| 0 <= k < j.len() && j[k] == ':' && forall|q: int| 0 <= q < k ==> j[q] != ':';
            assert(j[colon as int] == ':');
            if kc < colon {
                assert(j[kc] != ':');
            } else if kc > colon {
                assert(j[colon as int] != ':');
            }
        }
    } else {
        assert(!(exists|k: int| 0 <= k < j.len() && j[k] == ':'));
    }
    (string_of(&sym), count)
}

/// Parse the lines of a `callgrind_annotate` report into a run.
///
/// The report is read permissively: where a header is missing, the total is 0 and the run has
/// no symbol.
pub fn parse(lines: &Vec<String>) -> (r: Run)
    ensures
        r.wf(),
        r.name@.len() == 0,
        r.total_ir == report_total(views_of(lines@)),
        forall|n: Seq<char>|
            #[trigger] r.has_symbol(n) == names_symbol(symbol_lines(views_of(lines@)), n),
        forall|n: Seq<char>|
            #[trigger] r.ir_of(n) == count_for(symbol_lines(views_of(lines@)), n),
        first_seen(r.names(), symbol_lines(views_of(lines@))),
{
    let ghost ls = views_of(lines@);
    let mut run = Run::new();
    let m = find_line(lines, 0, Probe::IrHeader);
    proof {
        lemma_first_from(ls, 0, m as int, Probe::IrHeader);
    }
    if m >= lines.len() || lines.len() - m <= 2 {
        proof {
            assert forall|n: Seq<char>| #[trigger] run.has_symbol(n) == names_symbol(symbol_lines(ls), n) by {}
            assert forall|n: Seq<char>| #[trigger] run.ir_of(n) == count_for(symbol_lines(ls), n) by {
                assert(symbol_lines(ls) =~= Seq::<Seq<char>>::empty());
            }
        }
        return run;
    }
    let t = m + 2;
    assert(ls[t as int] == lines@[t as int]@);
    run.total_ir = parse_total_ir_line(lines[t].as_str());
    let m2 = find_line(lines, t + 1, Probe::IrHeader);
    proof {
        lemma_first_from(ls, t + 1, m2 as int, Probe::IrHeader);
    }
    if m2 >= lines.len() || lines.len() - m2 <= 2 {
        proof {
            assert(symbol_lines(ls) =~= Seq::<Seq<char>>::empty());
            assert forall|n: Seq<char>| #[trigger] run.has_symbol(n) == names_symbol(symbol_lines(ls), n) by {}
            assert forall|n: Seq<char>| #[trigger] run.ir_of(n) == count_for(symbol_lines(ls), n) by {}
        }
        return run;
    }
    let s = m2 + 2;
    let e = find_line(lines, s, Probe::NotDigitLed);
    proof {
        lemma_first_from(ls, s as int, e as int, Probe::NotDigitLed);
        assert(symbol_lines(ls) == ls.subrange(s as int, e as int));
    }
    let mut k = s;
    while k < e
        invariant
            s <= k <= e <= lines.len(),
            ls == views_of(lines@),
            symbol_lines(ls) == ls.subrange(s as int, e as int),
            run.wf(),
            run.name@.len() == 0,
            run.total_ir == report_total(ls),
            forall|n: Seq<char>|
                #[trigger] run.has_symbol(n) == names_symbol(ls.subrange(s as int, k as int), n),
            forall|n: Seq<char>|
                #[trigger] run.ir_of(n) == count_for(ls.subrange(s as int, k as int), n),
            first_seen(run.names(), ls.subrange(s as int, k as int)),
        decreases e - k,
    {
        let ghost before = ls.subrange(s as int, k as int);
        let ghost after = ls.subrange(s as int, k + 1);
        assert(ls[k as int] == lines@[k as int]@);
        let (sym, ir) = parse_fn_ir_line(lines[k].as_str());
        let ghost run_before = run;
        run.add_ir(sym.as_str(), ir);
        proof {
            assert(after.drop_last() =~= before);
            assert(after.last() == ls[k as int]);
            lemma_count_step(before, after, run_before, run, sym@, ir);
            assert forall|i: int| 0 <= i < run_before.names().len() implies names_symbol(
                before,
                #[trigger] run_before.names()[i],
            ) by {
                assert(run_before.names()[i] == run_before.symbols[i].name@);
                assert(run_before.has_symbol(run_before.symbols[i].name@));
            }
            assert(run_before.has_symbol(sym@) == names_symbol(before, sym@));
            lemma_first_seen_step(before, after, run_before.names(), run.names(), sym@);
        }
        k = k + 1;
    }
    run
}

} // verus!
