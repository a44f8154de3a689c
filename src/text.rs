use vstd::prelude::*;
use itertools::Itertools;

verus! {

/// One past the largest `u64`: accumulated counts wrap around modulo this value.
pub open spec fn u64_modulus() -> int {
    0x1_0000_0000_0000_0000
}

pub open spec fn is_digit(c: char) -> bool {
    '0' <= c && c <= '9'
}

pub open spec fn digit_value(c: char) -> int {
    c as int - '0' as int
}

/// The number read from the decimal digits of `s`, left to right, ignoring every other
/// character (thousands separators), as a `u64` accumulator computes it.
pub open spec fn digits_value(s: Seq<char>) -> int
    decreases s.len(),
{
    if s.len() == 0 {
        0
    } else if is_digit(s.last()) {
        (digits_value(s.drop_last()) * 10 + digit_value(s.last())) % u64_modulus()
    } else {
        digits_value(s.drop_last())
    }
}

pub open spec fn is_blank(c: char) -> bool {
    c == ' ' || c == '\t' || c == '\n' || c == '\r' || c == '\x0c'
}

/// `a` and `b` agree on their first `k` characters.
pub open spec fn agree_until(a: Seq<char>, b: Seq<char>, k: int) -> bool {
    &&& 0 <= k <= a.len()
    &&& k <= b.len()
    &&& forall|j: int| 0 <= j < k ==> a[j] == b[j]
}

/// Strict lexicographic order on character sequences, by code point.
pub open spec fn seq_lt(a: Seq<char>, b: Seq<char>) -> bool {
    exists|k: int|
        agree_until(a, b, k) && ((k == a.len() && k < b.len()) || (k < a.len() && k < b.len()
            && a[k] < b[k]))
}

/// Words joined with one space between each two.
pub open spec fn joined(ws: Seq<Seq<char>>) -> Seq<char>
    decreases ws.len(),
{
    if ws.len() == 0 {
        Seq::empty()
    } else if ws.len() == 1 {
        ws[0]
    } else {
        joined(ws.drop_last()) + seq![' '] + ws.last()
    }
}

pub open spec fn views_of(ws: Seq<String>) -> Seq<Seq<char>> {
    ws.map_values(|w: String| w@)
}

pub proof fn lemma_seq_lt_trans(a: Seq<char>, b: Seq<char>, c: Seq<char>)
    requires
        seq_lt(a, b),
        seq_lt(b, c),
    ensures
        seq_lt(a, c),
{
    let k1 = choose|k: int|
        agree_until(a, b, k) && ((k == a.len() && k < b.len()) || (k < a.len() && k < b.len()
            && a[k] < b[k]));
    let k2 = choose|k: int|
        agree_until(b, c, k) && ((k == b.len() && k < c.len()) || (k < b.len() && k < c.len()
            && b[k] < c[k]));
    let k = if k1 < k2 { k1 } else { k2 };
    assert(agree_until(a, c, k));
}

pub proof fn lemma_seq_lt_total(a: Seq<char>, b: Seq<char>)
    requires
        a != b,
    ensures
        seq_lt(a, b) || seq_lt(b, a),
{
    if forall|j: int| 0 <= j < a.len() && j < b.len() ==> a[j] == b[j] {
        if a.len() < b.len() {
            assert(agree_until(a, b, a.len() as int));
        } else if b.len() < a.len() {
            assert(agree_until(b, a, b.len() as int));
        } else {
            assert(a =~= b);
        }
    } else {
        let m = choose|j: int| 0 <= j < a.len() && j < b.len() && a[j] != b[j];
        let k = first_mismatch(a, b, m);
        assert(agree_until(a, b, k));
        assert(agree_until(b, a, k));
        assert(a[k] != b[k]);
    }
}

proof fn first_mismatch(a: Seq<char>, b: Seq<char>, m: int) -> (k: int)
    requires
        0 <= m < a.len(),
        m < b.len(),
        a[m] != b[m],
    ensures
        0 <= k <= m,
        a[k] != b[k],
        forall|j: int| 0 <= j < k ==> a[j] == b[j],
    decreases m,
{
    if forall|j: int| 0 <= j < m ==> a[j] == b[j] {
        m
    } else {
        let j = choose|j: int| 0 <= j < m && a[j] != b[j];
        first_mismatch(a, b, j)
    }
}

pub proof fn lemma_seq_lt_irreflexive(a: Seq<char>, b: Seq<char>)
    requires
        seq_lt(a, b),
    ensures
        !seq_lt(b, a),
        a != b,
{
    if seq_lt(b, a) {
        lemma_seq_lt_trans(a, b, a);
    }
    if seq_lt(a, a) {
        let k = choose|k: int|
            agree_until(a, a, k) && ((k == a.len() && k < a.len()) || (k < a.len() && k < a.len()
                && a[k] < a[k]));
    }
}

/// Relies on `str::chars`: the characters of the string, in order.
#[verifier::external_body]
pub fn chars_of(s: &str) -> (r: Vec<char>)
    ensures
        r@ == s@,
{
    s.chars().collect()
}

/// Relies on `FromIterator<char>` for `String`: the string of these characters, in order.
#[verifier::external_body]
pub fn string_of(v: &Vec<char>) -> (r: String)
    ensures
        r@ == v@,
{
    v.iter().collect()
}

/// Relies on `Itertools::join`: each word written in turn, with the separator between two.
#[verifier::external_body]
pub fn join_with_spaces(words: &Vec<String>) -> (r: String)
    ensures
        r@ == joined(views_of(words@)),
{
    words.iter().join(" ")
}

/// Reads the digits of `s`, ignoring any other character.
pub fn read_digits(s: &Vec<char>) -> (r: u64)
    ensures
        r == digits_value(s@),
{
    let mut acc: u64 = 0;
    let mut i: usize = 0;
    while i < s.len()
        invariant
            i <= s.len(),
            acc == digits_value(s@.take(i as int)),
        decreases s.len() - i,
    {
        let c = s[i];
        assert(s@.take(i as int + 1).drop_last() =~= s@.take(i as int));
        if '0' <= c && c <= '9' {
            let d = (c as u32 - '0' as u32) as u128;
            acc = ((acc as u128 * 10 + d) % 0x1_0000_0000_0000_0000u128) as u64;
        }
        i = i + 1;
    }
    assert(s@.take(s.len() as int) =~= s@);
    acc
}

/// Whether `a` comes strictly before `b` in lexicographic order.
pub fn chars_lt(a: &Vec<char>, b: &Vec<char>) -> (r: bool)
    ensures
        r == seq_lt(a@, b@),
{
    let mut i: usize = 0;
    while i < a.len() && i < b.len() && a[i] == b[i]
        invariant
            agree_until(a@, b@, i as int),
        decreases a.len() - i,
    {
        i = i + 1;
    }
    let r = if i == a.len() {
        i < b.len()
    } else if i == b.len() {
        false
    } else {
        a[i] < b[i]
    };
    proof {
        if r {
            assert(agree_until(a@, b@, i as int));
        } else if seq_lt(a@, b@) {
            let k = choose|k: int|
                agree_until(a@, b@, k) && ((k == a@.len() && k < b@.len()) || (k < a@.len() && k
                    < b@.len() && a@[k] < b@[k]));
            if k < i {
                assert(a@[k] == b@[k]);
            }
            if k > i {
                assert(a@[i as int] == b@[i as int]);
            }
        }
    }
    r
}

} // verus!
