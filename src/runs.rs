use vstd::prelude::*;

use crate::args::{SortBy, SortByField, SortByOrder};
use crate::text::{chars_lt, chars_of, lemma_seq_lt_irreflexive, lemma_seq_lt_total, lemma_seq_lt_trans, seq_lt, u64_modulus};

verus! {

/// A symbol in the file and its IR count for a single run.
pub struct AnnotatedSymbol {
    /// The name of the symbol.
    pub name: String,
    /// The instruction count for that run.
    pub ir: u64,
}

/// Annotations of a run of a binary.
pub struct Run {
    /// The name of the run, if any. This is purely for human readability purposes.
    pub name: String,
    /// The symbols that were hit and their instruction count.
    pub symbols: Vec<AnnotatedSymbol>,
    /// The total number of IR for this run.
    pub total_ir: u64,
}

/// A symbol in the file and its IR counts for multiple runs.
pub struct RecordsSymbol {
    /// The name of the symbol.
    pub name: String,
    /// The instruction counts for different runs, one per run, in the order of the runs.
    pub irs: Vec<u64>,
}

/// The annotation records of multiple runs.
///
/// The annotations do make sense only if they all refer to the same binary (though it may be at
/// different stages of development).
pub struct Records {
    /// The names of the runs, if any. This is purely for human readability purposes.
    pub run_names: Vec<String>,
    /// The total IR of each run.
    pub runs_total_irs: Vec<u64>,
    /// The symbols and their IR count for each run.
    pub symbols: Vec<RecordsSymbol>,
}

impl Run {
    /// No two symbols of the run have the same name.
    pub open spec fn wf(&self) -> bool {
        forall|i: int, j: int|
            0 <= i < self.symbols.len() && 0 <= j < self.symbols.len() && i != j
                ==> #[trigger] self.symbols[i].name@ != #[trigger] self.symbols[j].name@
    }

    pub open spec fn has_symbol(&self, n: Seq<char>) -> bool {
        exists|p: int| 0 <= p < self.symbols.len() && self.symbols[p].name@ == n
    }

    /// The names of the symbols, in order.
    pub open spec fn names(&self) -> Seq<Seq<char>> {
        self.symbols@.map_values(|a: AnnotatedSymbol| a.name@)
    }

    /// Where the symbol named `n` stands in the run (meaningful when the run has it).
    pub open spec fn position_of(&self, n: Seq<char>) -> int {
        choose|p: int| 0 <= p < self.symbols.len() && self.symbols[p].name@ == n
    }

    /// The count of the symbol named `n` in this run; 0 where the run does not have it.
    pub open spec fn ir_of(&self, n: Seq<char>) -> u64 {
        if self.has_symbol(n) {
            self.symbols[self.position_of(n)].ir
        } else {
            0
        }
    }

    /// The symbol at position `p` is found at `p`, with its own count.
    pub proof fn lemma_position(&self, p: int)
        requires
            self.wf(),
            0 <= p < self.symbols.len(),
        ensures
            self.has_symbol(self.symbols[p].name@),
            self.position_of(self.symbols[p].name@) == p,
            self.ir_of(self.symbols[p].name@) == self.symbols[p].ir,
    {
        let n = self.symbols[p].name@;
        assert(self.has_symbol(n));
        let q = self.position_of(n);
        assert(self.symbols[q].name@ == self.symbols[p].name@);
    }

    /// Create a new run, with no name, no symbol and a total of 0.
    pub fn new() -> (r: Self)
        ensures
            r.name@.len() == 0,
            r.symbols.len() == 0,
            r.total_ir == 0,
            r.wf(),
    {
        Run { name: String::new(), symbols: Vec::new(), total_ir: 0 }
    }

    /// Create a new run with a name.
    pub fn new_named(name: String) -> (r: Self)
        ensures
            r.name == name,
            r.symbols.len() == 0,
            r.total_ir == 0,
            r.wf(),
    {
        Run { name, symbols: Vec::new(), total_ir: 0 }
    }

    /// Add an IR count for the given symbol in the run.
    ///
    /// This may be called multiple times with the same symbol: due to inlining, a symbol may end
    /// up in different files at different lines. The count is then added to the one already
    /// there (wrapping around at `u64::MAX`).
    pub fn add_ir(&mut self, symbol: &str, ir: u64)
        requires
            old(self).wf(),
        ensures
            final(self).wf(),
            final(self).name == old(self).name,
            final(self).total_ir == old(self).total_ir,
            final(self).has_symbol(symbol@),
            old(self).has_symbol(symbol@) ==> {
                let p = old(self).position_of(symbol@);
                &&& final(self).symbols.len() == old(self).symbols.len()
                &&& final(self).symbols[p].name@ == symbol@
                &&& final(self).symbols[p].ir == (old(self).symbols[p].ir + ir) % u64_modulus()
                &&& forall|q: int|
                    0 <= q < old(self).symbols.len() && q != p ==> final(self).symbols[q]
                        == old(self).symbols[q]
            },
            forall|n: Seq<char>|
                #[trigger] final(self).has_symbol(n) == (old(self).has_symbol(n) || n == symbol@),
            forall|n: Seq<char>| n != symbol@ ==> #[trigger] final(self).ir_of(n) == old(self).ir_of(n),
            final(self).ir_of(symbol@) == (old(self).ir_of(symbol@) + ir) % u64_modulus(),
            old(self).has_symbol(symbol@) ==> final(self).names() == old(self).names(),
            !old(self).has_symbol(symbol@) ==> final(self).names() == old(self).names().push(symbol@),
            !old(self).has_symbol(symbol@) ==> {
                &&& final(self).symbols.len() == old(self).symbols.len() + 1
                &&& final(self).symbols@.last().name@ == symbol@
                &&& final(self).symbols@.last().ir == ir
                &&& forall|q: int|
                    0 <= q < old(self).symbols.len() ==> final(self).symbols[q]
                        == old(self).symbols[q]
            },
    {
        let name = symbol.to_owned();
        let mut i: usize = 0;
        while i < self.symbols.len()
            invariant
                *self == *old(self),
                old(self).wf(),
                name@ == symbol@,
                i <= self.symbols.len(),
                forall|q: int| 0 <= q < i ==> self.symbols[q].name@ != symbol@,
            decreases self.symbols.len() - i,
        {
            if self.symbols[i].name == name {
                proof {
                    assert(old(self).symbols[i as int].name@ == symbol@);
                    assert(old(self).has_symbol(symbol@));
                    let p = old(self).position_of(symbol@);
                    assert(old(self).symbols[p].name@ == old(self).symbols[i as int].name@);
                    assert(p == i);
                }
                let sum = ((self.symbols[i].ir as u128 + ir as u128) % 0x1_0000_0000_0000_0000u128) as u64;
                self.symbols[i].ir = sum;
                proof {
                    assert(self.symbols[i as int].name@ == symbol@);
                    assert(forall|q: int|
                        0 <= q < self.symbols.len() ==> self.symbols[q].name@
                            == old(self).symbols[q].name@);
                    lemma_update_view(*old(self), *self, symbol@, ir, i as int);
                    assert(self.names() =~= old(self).names());
                }
                return;
            }
            i = i + 1;
        }
        self.symbols.push(AnnotatedSymbol { name, ir });
        proof {
            let n = self.symbols.len() - 1;
            assert(self.symbols[n].name@ == symbol@);
            lemma_push_view(*old(self), *self, symbol@, ir);
            assert(self.names() =~= old(self).names().push(symbol@));
        }
    }
}

/// Why rows could not be sorted.
#[derive(Debug, Clone, Copy, PartialEq, Eq, Structural)]
pub enum SortError {
    /// The column to sort by is not one of the runs.
    InvalidColumn { column: u32, n_columns: usize },
}

/// The count of a row in column `i`; 0 where the row has no such column.
pub open spec fn count_at(r: RecordsSymbol, i: int) -> u64 {
    if 0 <= i < r.irs.len() {
        r.irs[i]
    } else {
        0
    }
}

/// The column that `field` sorts by, among `n` runs.
pub open spec fn sort_column(field: SortByField, n: nat) -> int {
    match field {
        SortByField::Symbol => 0,
        SortByField::FirstIR => 0,
        SortByField::LastIR => n - 1,
        SortByField::ColumnIR(x) => x as int,
    }
}

/// Row `a` sorts strictly before row `b` by `field`.
pub open spec fn key_lt(a: RecordsSymbol, b: RecordsSymbol, field: SortByField, n: nat) -> bool {
    if field is Symbol {
        seq_lt(a.name@, b.name@)
    } else {
        count_at(a, sort_column(field, n)) < count_at(b, sort_column(field, n))
    }
}

/// Rows `a` and `b` tie on `field`.
pub open spec fn key_eq(a: RecordsSymbol, b: RecordsSymbol, field: SortByField, n: nat) -> bool {
    if field is Symbol {
        a.name@ == b.name@
    } else {
        count_at(a, sort_column(field, n)) == count_at(b, sort_column(field, n))
    }
}

/// `a`, first taken from position `pa`, may stand before `b`, taken from `pb`, in a stable sort.
pub open spec fn in_order(
    a: RecordsSymbol,
    b: RecordsSymbol,
    pa: int,
    pb: int,
    field: SortByField,
    n: nat,
) -> bool {
    key_lt(a, b, field, n) || (key_eq(a, b, field, n) && pa < pb)
}

/// `after` holds the rows of `before`, row `i` of it taken from position `p[i]` of `before`,
/// sorted by `field` with ties in their order in `before`.
pub open spec fn stable_order(
    before: Seq<RecordsSymbol>,
    after: Seq<RecordsSymbol>,
    p: Seq<int>,
    field: SortByField,
    n: nat,
) -> bool {
    &&& after.len() == before.len()
    &&& p.len() == before.len()
    &&& forall|i: int| 0 <= i < p.len() ==> 0 <= #[trigger] p[i] < p.len() && after[i] == before[p[i]]
    &&& forall|i: int, j: int| 0 <= i < p.len() && 0 <= j < p.len() && i != j ==> p[i] != p[j]
    &&& forall|i: int, j: int|
        0 <= i < j < p.len() ==> in_order(after[i], after[j], p[i], p[j], field, n)
}

/// `after` is a stable sort of `before` by `field`, ascending.
pub open spec fn stably_sorted(
    before: Seq<RecordsSymbol>,
    after: Seq<RecordsSymbol>,
    field: SortByField,
    n: nat,
) -> bool {
    exists|p: Seq<int>| stable_order(before, after, p, field, n)
}

/// The order on rows is a strict weak order: ties are an equivalence, and `key_lt` is
/// transitive across ties.
pub proof fn lemma_key_order(
    a: RecordsSymbol,
    b: RecordsSymbol,
    c: RecordsSymbol,
    field: SortByField,
    n: nat,
)
    ensures
        key_lt(a, b, field, n) ==> !key_lt(b, a, field, n) && !key_eq(a, b, field, n),
        key_lt(a, b, field, n) || key_lt(b, a, field, n) || key_eq(a, b, field, n),
        key_eq(a, b, field, n) ==> key_eq(b, a, field, n),
        key_eq(a, b, field, n) && key_eq(b, c, field, n) ==> key_eq(a, c, field, n),
        key_lt(a, b, field, n) && key_lt(b, c, field, n) ==> key_lt(a, c, field, n),
        key_lt(a, b, field, n) && key_eq(b, c, field, n) ==> key_lt(a, c, field, n),
        key_eq(a, b, field, n) && key_lt(b, c, field, n) ==> key_lt(a, c, field, n),
{
    if field is Symbol {
        if seq_lt(a.name@, b.name@) {
            lemma_seq_lt_irreflexive(a.name@, b.name@);
        }
        if a.name@ != b.name@ {
            lemma_seq_lt_total(a.name@, b.name@);
        }
        if seq_lt(a.name@, b.name@) && seq_lt(b.name@, c.name@) {
            lemma_seq_lt_trans(a.name@, b.name@, c.name@);
        }
    }
}

/// Whether row `a` sorts strictly before row `b` by `field`, among `n` runs.
fn row_lt(a: &RecordsSymbol, b: &RecordsSymbol, field: SortByField, n: usize) -> (r: bool)
    ensures
        r == key_lt(*a, *b, field, n as nat),
{
    let col: usize = match field {
        SortByField::Symbol => 0,
        SortByField::FirstIR => 0,
        SortByField::LastIR => if n == 0 {
            usize::MAX
        } else {
            n - 1
        },
        SortByField::ColumnIR(x) => x as usize,
    };
    match field {
        SortByField::Symbol => chars_lt(&chars_of(a.name.as_str()), &chars_of(b.name.as_str())),
        _ => {
            let ka: u64 = if col < a.irs.len() { a.irs[col] } else { 0 };
            let kb: u64 = if col < b.irs.len() { b.irs[col] } else { 0 };
            ka < kb
        },
    }
}

/// What `has_symbol` and `ir_of` say after the count of the symbol at `p` grew by `ir`.
proof fn lemma_update_view(a: Run, b: Run, sym: Seq<char>, ir: u64, p: int)
    requires
        a.wf(),
        b.wf(),
        0 <= p < a.symbols.len(),
        a.symbols[p].name@ == sym,
        b.symbols.len() == a.symbols.len(),
        b.symbols[p].name@ == sym,
        b.symbols[p].ir == (a.symbols[p].ir + ir) % u64_modulus(),
        forall|q: int| 0 <= q < a.symbols.len() && q != p ==> b.symbols[q] == a.symbols[q],
    ensures
        forall|n: Seq<char>| #[trigger] b.has_symbol(n) == (a.has_symbol(n) || n == sym),
        forall|n: Seq<char>| n != sym ==> #[trigger] b.ir_of(n) == a.ir_of(n),
        b.ir_of(sym) == (a.ir_of(sym) + ir) % u64_modulus(),
{
    a.lemma_position(p);
    b.lemma_position(p);
    assert forall|q: int| 0 <= q < a.symbols.len() implies #[trigger] b.symbols[q].name@
        == a.symbols[q].name@ by {
        if q != p {
            assert(b.symbols[q] == a.symbols[q]);
        }
    }
    assert forall|n: Seq<char>| #[trigger] b.has_symbol(n) == (a.has_symbol(n) || n == sym) by {
        if b.has_symbol(n) {
            let q = choose|q: int| 0 <= q < b.symbols.len() && b.symbols[q].name@ == n;
            assert(a.symbols[q].name@ == n);
        }
        if a.has_symbol(n) {
            let q = choose|q: int| 0 <= q < a.symbols.len() && a.symbols[q].name@ == n;
            assert(b.symbols[q].name@ == n);
        }
    }
    assert forall|n: Seq<char>| n != sym implies #[trigger] b.ir_of(n) == a.ir_of(n) by {
        if a.has_symbol(n) {
            let q = choose|q: int| 0 <= q < a.symbols.len() && a.symbols[q].name@ == n;
            a.lemma_position(q);
            assert(b.symbols[q] == a.symbols[q]);
            b.lemma_position(q);
        }
    }
}

/// What `has_symbol` and `ir_of` say after a symbol that was not there was pushed.
proof fn lemma_push_view(a: Run, b: Run, sym: Seq<char>, ir: u64)
    requires
        a.wf(),
        b.wf(),
        !a.has_symbol(sym),
        b.symbols@ == a.symbols@.push(AnnotatedSymbol { name: b.symbols@.last().name, ir }),
        b.symbols@.last().name@ == sym,
    ensures
        forall|n: Seq<char>| #[trigger] b.has_symbol(n) == (a.has_symbol(n) || n == sym),
        forall|n: Seq<char>| n != sym ==> #[trigger] b.ir_of(n) == a.ir_of(n),
        b.ir_of(sym) == (a.ir_of(sym) + ir) % u64_modulus(),
{
    let last = a.symbols.len() as int;
    b.lemma_position(last);
    assert forall|n: Seq<char>| #[trigger] b.has_symbol(n) == (a.has_symbol(n) || n == sym) by {
        if b.has_symbol(n) {
            let q = choose|q: int| 0 <= q < b.symbols.len() && b.symbols[q].name@ == n;
            if q < last {
                assert(a.symbols[q].name@ == n);
            }
        }
        if a.has_symbol(n) {
            let q = choose|q: int| 0 <= q < a.symbols.len() && a.symbols[q].name@ == n;
            assert(b.symbols[q].name@ == n);
        }
    }
    assert forall|n: Seq<char>| n != sym implies #[trigger] b.ir_of(n) == a.ir_of(n) by {
        if a.has_symbol(n) {
            let q = choose|q: int| 0 <= q < a.symbols.len() && a.symbols[q].name@ == n;
            a.lemma_position(q);
            assert(b.symbols[q] == a.symbols[q]);
            b.lemma_position(q);
        }
    }
}

/// `n` zeros.
fn zeros(n: usize) -> (r: Vec<u64>)
    ensures
        r@ == Seq::new(n as nat, |_i: int| 0u64),
{
    let mut r: Vec<u64> = Vec::new();
    while r.len() < n
        invariant
            r.len() <= n,
            r@ == Seq::new(r.len() as nat, |_i: int| 0u64),
        decreases n - r.len(),
    {
        r.push(0);
        assert(r@ =~= Seq::new(r.len() as nat, |_i: int| 0u64));
    }
    r
}

/// Some symbol among the first `k` of `run` is named `n`.
pub open spec fn named_before(run: Run, k: int, n: Seq<char>) -> bool {
    exists|p: int| 0 <= p < k && run.symbols[p].name@ == n
}

impl Records {
    /// Each row holds one count per run, and there are as many totals as runs.
    pub open spec fn lengths_match(&self) -> bool {
        &&& self.run_names.len() == self.runs_total_irs.len()
        &&& forall|i: int|
            0 <= i < self.symbols.len() ==> #[trigger] self.symbols[i].irs.len()
                == self.run_names.len()
    }

    /// The invariant of the records: lengths match, and no two rows have the same name.
    pub open spec fn wf(&self) -> bool {
        &&& self.lengths_match()
        &&& forall|i: int, j: int|
            0 <= i < self.symbols.len() && 0 <= j < self.symbols.len() && i != j
                ==> #[trigger] self.symbols[i].name@ != #[trigger] self.symbols[j].name@
    }

    pub open spec fn has_row(&self, n: Seq<char>) -> bool {
        exists|i: int| 0 <= i < self.symbols.len() && self.symbols[i].name@ == n
    }

    /// `after` is `before` with `run` added as one more column.
    ///
    /// Rows that were there keep their place and get the run's count for their symbol, or 0
    /// where the run does not have it. Symbols seen for the first time follow, in the order of
    /// the run, with 0 for every earlier run.
    pub open spec fn appended(before: Records, run: Run, after: Records) -> bool {
        let n = before.run_names.len() as nat;
        let old_len = before.symbols.len();
        &&& after.wf()
        &&& after.run_names@ == before.run_names@.push(run.name)
        &&& after.runs_total_irs@ == before.runs_total_irs@.push(run.total_ir)
        &&& after.symbols.len() >= old_len
        &&& forall|i: int|
            0 <= i < old_len ==> {
                &&& #[trigger] after.symbols[i].name@ == before.symbols[i].name@
                &&& after.symbols[i].irs@ == before.symbols[i].irs@.push(
                    run.ir_of(before.symbols[i].name@),
                )
            }
        &&& forall|i: int|
            old_len <= i < after.symbols.len() ==> {
                let nm = #[trigger] after.symbols[i].name@;
                &&& run.has_symbol(nm)
                &&& !before.has_row(nm)
                &&& after.symbols[i].irs@ == Seq::new(n, |_j: int| 0u64).push(run.ir_of(nm))
            }
        &&& forall|p: int| 0 <= p < run.symbols.len() ==> after.has_row(#[trigger] run.symbols[p].name@)
        &&& forall|i: int, j: int|
            old_len <= i < j < after.symbols.len() ==> run.position_of(
                #[trigger] after.symbols[i].name@,
            ) < run.position_of(#[trigger] after.symbols[j].name@)
    }

    /// Create a new records, ready to insert annotated runs.
    pub fn new() -> (r: Self)
        ensures
            r.wf(),
            r.run_names.len() == 0,
            r.runs_total_irs.len() == 0,
            r.symbols.len() == 0,
    {
        Records { run_names: Vec::new(), runs_total_irs: Vec::new(), symbols: Vec::new() }
    }

    /// Return the number of runs that have been stored.
    pub fn n_runs(&self) -> (r: usize)
        ensures
            r == self.run_names.len(),
    {
        self.run_names.len()
    }

    /// Check that the lengths of the structure agree; this holds of every well-formed value,
    /// and costs one pass over the rows.
    pub fn assert_invariants(&self)
        requires
            self.lengths_match(),
    {
        let n_runs = self.n_runs();
        assert(n_runs == self.runs_total_irs.len());
        let mut i: usize = 0;
        while i < self.symbols.len()
            invariant
                self.lengths_match(),
                n_runs == self.run_names.len(),
            decreases self.symbols.len() - i,
        {
            assert(self.symbols[i as int].irs.len() == n_runs);
            i = i + 1;
        }
    }

    /// Add annotations about a run to the records.
    pub fn add_run(&mut self, run: Run)
        requires
            old(self).wf(),
            run.wf(),
        ensures
            Records::appended(*old(self), run, *final(self)),
    {
        self.assert_invariants();
        let ghost o = old(self).symbols@;
        let n = self.n_runs();
        let ghost mut pos: Seq<int> = Seq::empty();
        let mut k: usize = 0;
        while k < run.symbols.len()
            invariant
                run.wf(),
                old(self).wf(),
                o == old(self).symbols@,
                n == old(self).run_names.len(),
                self.run_names@ == old(self).run_names@,
                self.runs_total_irs@ == old(self).runs_total_irs@,
                k <= run.symbols.len(),
                self.symbols.len() == o.len() + pos.len(),
                forall|i: int|
                    0 <= i < o.len() ==> {
                        &&& #[trigger] self.symbols[i].name@ == o[i].name@
                        &&& self.symbols[i].irs@ == if named_before(run, k as int, o[i].name@) {
                            o[i].irs@.push(run.ir_of(o[i].name@))
                        } else {
                            o[i].irs@
                        }
                    },
                forall|t: int|
                    0 <= t < pos.len() ==> {
                        let nm = self.symbols[o.len() + t].name@;
                        &&& 0 <= #[trigger] pos[t] < k
                        &&& 0 <= pos[t] < k
                        &&& nm == run.symbols[pos[t]].name@
                        &&& run.position_of(nm) == pos[t]
                        &&& run.has_symbol(nm)
                        &&& !old(self).has_row(nm)
                        &&& self.symbols[o.len() + t].irs@ == Seq::new(n as nat, |_j: int| 0u64).push(
                            run.ir_of(nm),
                        )
                    },
                forall|t1: int, t2: int| 0 <= t1 < t2 < pos.len() ==> pos[t1] < pos[t2],
                forall|p: int| 0 <= p < k ==> self.has_row(#[trigger] run.symbols[p].name@),
                forall|i: int, j: int|
                    0 <= i < self.symbols.len() && 0 <= j < self.symbols.len() && i != j
                        ==> #[trigger] self.symbols[i].name@ != #[trigger] self.symbols[j].name@,
            decreases run.symbols.len() - k,
        {
            let ghost nm = run.symbols[k as int].name@;
            proof {
                run.lemma_position(k as int);
            }
            let mut j: usize = 0;
            while j < self.symbols.len() && !(self.symbols[j].name == run.symbols[k].name)
                invariant
                    j <= self.symbols.len(),
                    k < run.symbols.len(),
                    nm == run.symbols[k as int].name@,
                    forall|q: int| 0 <= q < j ==> self.symbols[q].name@ != nm,
                decreases self.symbols.len() - j,
            {
                j = j + 1;
            }
            let ghost before = self.symbols@;
            if j < self.symbols.len() {
                proof {
                    if j >= o.len() {
                        let t = j - o.len();
                        assert(self.symbols[o.len() + t].name@ == nm);
                        assert(run.symbols[pos[t]].name@ == run.symbols[k as int].name@);
                    }
                    if named_before(run, k as int, nm) {
                        let p = choose|p: int| 0 <= p < k && run.symbols[p].name@ == nm;
                        assert(run.symbols[p].name@ == run.symbols[k as int].name@);
                    }
                }
                self.symbols[j].irs.push(run.symbols[k].ir);
                proof {
                    assert(named_before(run, k + 1, nm));
                    assert forall|t: int| 0 <= t < pos.len() implies #[trigger] self.symbols[o.len() + t]
                        == before[o.len() + t] by {}
                    assert forall|t: int| 0 <= t < pos.len() implies {
                        let nm = self.symbols[o.len() + t].name@;
                        &&& 0 <= #[trigger] pos[t] < k + 1
                        &&& nm == run.symbols[pos[t]].name@
                        &&& run.position_of(nm) == pos[t]
                        &&& run.has_symbol(nm)
                        &&& !old(self).has_row(nm)
                        &&& self.symbols[o.len() + t].irs@ == Seq::new(n as nat, |_j: int| 0u64).push(
                            run.ir_of(nm),
                        )
                    } by {
                        assert(self.symbols[o.len() + t] == before[o.len() + t]);
                    }
                    assert forall|i: int| 0 <= i < o.len() && i != j implies named_before(
                        run,
                        k + 1,
                        o[i].name@,
                    ) == named_before(run, k as int, o[i].name@) by {
                        assert(o[i].name@ != o[j as int].name@);
                        if named_before(run, k + 1, o[i].name@) {
                            let p = choose|p: int| 0 <= p < k + 1 && run.symbols[p].name@ == o[i].name@;
                            assert(p != k);
                        }
                    }
                    assert forall|p: int| 0 <= p < k + 1 implies self.has_row(
                        #[trigger] run.symbols[p].name@,
                    ) by {
                        if p < k {
                            old_has_row_kept(before, self.symbols@, run.symbols[p].name@);
                        } else {
                            assert(self.symbols[j as int].name@ == nm);
                        }
                    }
                }
            } else {
                proof {
                    assert forall|i: int| 0 <= i < o.len() implies named_before(
                        run,
                        k + 1,
                        o[i].name@,
                    ) == named_before(run, k as int, o[i].name@) by {
                        assert(self.symbols[i].name@ != nm);
                        if named_before(run, k + 1, o[i].name@) {
                            let p = choose|p: int| 0 <= p < k + 1 && run.symbols[p].name@ == o[i].name@;
                            assert(p != k);
                        }
                    }
                    if old(self).has_row(nm) {
                        let i = choose|i: int| 0 <= i < o.len() && o[i].name@ == nm;
                        assert(self.symbols[i].name@ == nm);
                    }
                }
                let mut irs = zeros(n);
                irs.push(run.symbols[k].ir);
                self.symbols.push(RecordsSymbol { name: run.symbols[k].name.clone(), irs });
                proof {
                    let ghost old_pos = pos;
                    pos = pos.push(k as int);
                    assert forall|t: int| 0 <= t < old_pos.len() implies #[trigger] self.symbols[o.len() + t]
                        == before[o.len() + t] by {}
                    assert forall|t1: int, t2: int| 0 <= t1 < t2 < pos.len() implies pos[t1] < pos[t2] by {
                        if t2 == pos.len() - 1 {
                            assert(pos[t1] == old_pos[t1]);
                            assert(old_pos[t1] < k);
                        } else {
                            assert(old_pos[t1] < old_pos[t2]);
                        }
                    }
                    let last = self.symbols.len() - 1;
                    assert(self.symbols[last].name@ == nm);
                    assert(self.symbols[last].irs@ =~= Seq::new(n as nat, |_j: int| 0u64).push(
                        run.ir_of(nm),
                    ));
                    assert forall|p: int| 0 <= p < k + 1 implies self.has_row(
                        #[trigger] run.symbols[p].name@,
                    ) by {
                        if p < k {
                            old_has_row_kept(before, self.symbols@, run.symbols[p].name@);
                        } else {
                            assert(self.symbols[last].name@ == nm);
                        }
                    }
                    assert forall|t: int| 0 <= t < pos.len() implies {
                        let nm = self.symbols[o.len() + t].name@;
                        &&& 0 <= #[trigger] pos[t] < k + 1
                        &&& nm == run.symbols[pos[t]].name@
                        &&& run.position_of(nm) == pos[t]
                        &&& run.has_symbol(nm)
                        &&& !old(self).has_row(nm)
                        &&& self.symbols[o.len() + t].irs@ == Seq::new(n as nat, |_j: int| 0u64).push(
                            run.ir_of(nm),
                        )
                    } by {
                        if t < old_pos.len() {
                            assert(pos[t] == old_pos[t]);
                            assert(self.symbols[o.len() + t] == before[o.len() + t]);
                        } else {
                            assert(o.len() + t == last);
                        }
                    }
                }
            }
            k = k + 1;
        }
        let ghost mid = self.symbols@;
        proof {
            assert forall|q: int| o.len() <= q < mid.len() implies {
                &&& #[trigger] mid[q].irs.len() == n + 1
                &&& run.has_symbol(mid[q].name@)
                &&& !old(self).has_row(mid[q].name@)
                &&& mid[q].irs@ == Seq::new(n as nat, |_j: int| 0u64).push(run.ir_of(mid[q].name@))
            } by {
                let t = q - o.len();
                assert(0 <= pos[t] < k);
                assert(self.symbols[o.len() + t].name@ == mid[q].name@);
            }
            assert forall|a: int, b: int|
                o.len() <= a < b < mid.len() implies run.position_of(#[trigger] mid[a].name@)
                < run.position_of(#[trigger] mid[b].name@) by {
                let ta = a - o.len();
                let tb = b - o.len();
                assert(0 <= pos[ta] < k);
                assert(0 <= pos[tb] < k);
                assert(pos[ta] < pos[tb]);
                assert(self.symbols[o.len() + ta].name@ == mid[a].name@);
                assert(self.symbols[o.len() + tb].name@ == mid[b].name@);
            }
            assert forall|q: int| 0 <= q < o.len() implies #[trigger] mid[q].irs@ == o[q].irs@.push(
                run.ir_of(o[q].name@),
            ) || (mid[q].irs@ == o[q].irs@ && run.ir_of(o[q].name@) == 0 && o[q].irs.len() == n) by {
                assert(old(self).symbols[q].irs.len() == n);
                assert(self.symbols[q].name@ == o[q].name@);
                if !named_before(run, run.symbols.len() as int, o[q].name@) {
                    assert(!run.has_symbol(o[q].name@));
                } else {
                    let p = choose|p: int|
                        0 <= p < run.symbols.len() && run.symbols[p].name@ == o[q].name@;
                    assert(run.has_symbol(o[q].name@));
                }
            }
        }
        self.run_names.push(run.name);
        self.runs_total_irs.push(run.total_ir);
        let n_runs = self.n_runs();
        let mut i: usize = 0;
        while i < self.symbols.len()
            invariant
                self.symbols.len() == mid.len(),
                n_runs == n + 1,
                self.run_names@ == old(self).run_names@.push(run.name),
                self.runs_total_irs@ == old(self).runs_total_irs@.push(run.total_ir),
                i <= self.symbols.len(),
                forall|q: int| 0 <= q < mid.len() ==> #[trigger] self.symbols[q].name@ == mid[q].name@,
                forall|q: int|
                    i <= q < mid.len() ==> #[trigger] self.symbols[q].irs@ == mid[q].irs@,
                forall|q: int|
                    0 <= q < i ==> #[trigger] self.symbols[q].irs@ == if mid[q].irs.len() == n_runs {
                        mid[q].irs@
                    } else {
                        mid[q].irs@.push(0u64)
                    },
            decreases self.symbols.len() - i,
        {
            if self.symbols[i].irs.len() != n_runs {
                self.symbols[i].irs.push(0);
            }
            i = i + 1;
        }
        proof {
            assert forall|q: int| 0 <= q < o.len() implies self.symbols[q].irs@ == o[q].irs@.push(
                run.ir_of(o[q].name@),
            ) by {
                assert(mid[q].irs@ == o[q].irs@.push(run.ir_of(o[q].name@)) || (mid[q].irs@
                    == o[q].irs@ && run.ir_of(o[q].name@) == 0 && o[q].irs.len() == n));
                assert(o[q] == old(self).symbols[q]);
                assert(old(self).symbols[q].irs.len() == n);
                let a = self.symbols[q].irs@;
                if mid[q].irs.len() == n_runs {
                    assert(a == mid[q].irs@);
                } else {
                    assert(a == mid[q].irs@.push(0u64));
                }
            }
            assert forall|q: int| o.len() <= q < self.symbols.len() implies self.symbols[q].irs@
                == mid[q].irs@ by {
                assert(mid[q].irs.len() == n + 1);
            }
            assert forall|q: int| 0 <= q < self.symbols.len() implies #[trigger] self.symbols[q].irs.len()
                == self.run_names.len() by {
                assert(self.run_names.len() == n + 1);
                let a = self.symbols[q].irs@;
                if q >= o.len() {
                    assert(mid[q].irs.len() == n + 1);
                    assert(a == mid[q].irs@);
                } else {
                    assert(o[q] == old(self).symbols[q]);
                    assert(old(self).symbols[q].irs.len() == n);
                    assert(mid[q].irs@ == o[q].irs@.push(run.ir_of(o[q].name@)) || (mid[q].irs@
                        == o[q].irs@ && run.ir_of(o[q].name@) == 0 && o[q].irs.len() == n));
                    if mid[q].irs.len() == n_runs {
                        assert(a == mid[q].irs@);
                    } else {
                        assert(a == mid[q].irs@.push(0u64));
                    }
                }
            }
            assert forall|a: int, b: int|
                o.len() <= a < b < self.symbols.len() implies run.position_of(
                #[trigger] self.symbols[a].name@,
            ) < run.position_of(#[trigger] self.symbols[b].name@) by {
                assert(mid[a].name@ == self.symbols[a].name@);
                assert(mid[b].name@ == self.symbols[b].name@);
            }
            assert forall|p: int| 0 <= p < run.symbols.len() implies self.has_row(
                #[trigger] run.symbols[p].name@,
            ) by {
                old_has_row_kept(mid, self.symbols@, run.symbols[p].name@);
            }
        }
    }
}

impl Records {
    /// Sort the rows by `by.field`, keeping tied rows in the order they had; in descending
    /// order, the result is that of the ascending sort, reversed.
    ///
    /// Fails, leaving the records as they were, where the column to sort by is not a run.
    pub fn sort(&mut self, by: SortBy) -> (r: Result<(), SortError>)
        requires
            old(self).wf(),
        ensures
            final(self).wf(),
            final(self).run_names@ == old(self).run_names@,
            final(self).runs_total_irs@ == old(self).runs_total_irs@,
            r is Err <==> (by.field matches SortByField::ColumnIR(x) && x >= old(self).run_names.len()),
            r matches Err(SortError::InvalidColumn { column, n_columns }) ==> by.field
                == SortByField::ColumnIR(column) && n_columns == old(self).run_names.len(),
            r is Err ==> final(self).symbols@ == old(self).symbols@,
            r is Ok && by.order == SortByOrder::Ascending ==> stably_sorted(
                old(self).symbols@,
                final(self).symbols@,
                by.field,
                old(self).run_names.len() as nat,
            ),
            r is Ok && by.order == SortByOrder::Descending ==> stably_sorted(
                old(self).symbols@,
                final(self).symbols@.reverse(),
                by.field,
                old(self).run_names.len() as nat,
            ),
    {
        let n = self.n_runs();
        if let SortByField::ColumnIR(x) = by.field {
            if x as usize >= n {
                return Err(SortError::InvalidColumn { column: x, n_columns: n });
            }
        }
        self.sort_ascending(by.field);
        let ghost asc = self.symbols@;
        if by.order == SortByOrder::Descending {
            self.reverse_rows();
            assert(self.symbols@.reverse() =~= asc);
        }
        Ok(())
    }

    /// Reverse the order of the rows.
    fn reverse_rows(&mut self)
        requires
            old(self).wf(),
        ensures
            final(self).wf(),
            final(self).run_names@ == old(self).run_names@,
            final(self).runs_total_irs@ == old(self).runs_total_irs@,
            final(self).symbols@ == old(self).symbols@.reverse(),
    {
        let mut out: Vec<RecordsSymbol> = Vec::new();
        let ghost o = old(self).symbols@;
        while self.symbols.len() > 0
            invariant
                self.run_names == old(self).run_names,
                self.runs_total_irs == old(self).runs_total_irs,
                self.symbols.len() + out.len() == o.len(),
                self.symbols@ == o.take(self.symbols.len() as int),
                out@ == o.reverse().take(out.len() as int),
            decreases self.symbols.len(),
        {
            match self.symbols.pop() {
                Some(x) => {
                    out.push(x);
                },
                None => {},
            }
            assert(self.symbols@ =~= o.take(self.symbols.len() as int));
            assert(out@ =~= o.reverse().take(out.len() as int));
        }
        assert(out@ =~= o.reverse());
        self.symbols = out;
        proof {
            assert forall|i: int| 0 <= i < self.symbols.len() implies #[trigger] self.symbols[i].irs.len()
                == self.run_names.len() by {
                assert(self.symbols[i] == o[o.len() - 1 - i]);
                assert(old(self).symbols[o.len() - 1 - i].irs.len() == self.run_names.len());
            }
            assert forall|i: int, j: int|
                0 <= i < self.symbols.len() && 0 <= j < self.symbols.len() && i != j
                    implies #[trigger] self.symbols[i].name@ != #[trigger] self.symbols[j].name@ by {
                assert(self.symbols[i] == o[o.len() - 1 - i]);
                assert(self.symbols[j] == o[o.len() - 1 - j]);
                assert(old(self).symbols[o.len() - 1 - i].name@ != old(self).symbols[o.len() - 1 - j].name@);
            }
        }
    }

    /// Stable insertion sort of the rows by `field`, ascending.
    fn sort_ascending(&mut self, field: SortByField)
        requires
            old(self).wf(),
        ensures
            final(self).wf(),
            final(self).run_names@ == old(self).run_names@,
            final(self).runs_total_irs@ == old(self).runs_total_irs@,
            stably_sorted(old(self).symbols@, final(self).symbols@, field, old(self).run_names.len() as nat),
    {
        let n = self.n_runs();
        let ghost nn = n as nat;
        let ghost o = old(self).symbols@;
        let len = self.symbols.len();
        let ghost mut p: Seq<int> = Seq::new(len as nat, |k: int| k);
        let mut i: usize = 0;
        while i < len
            invariant
                self.run_names == old(self).run_names,
                self.runs_total_irs == old(self).runs_total_irs,
                n == self.run_names.len(),
                nn == n as nat,
                o == old(self).symbols@,
                len == o.len(),
                i <= len,
                self.symbols.len() == len,
                p.len() == len,
                forall|k: int| 0 <= k < len ==> 0 <= #[trigger] p[k] < len && self.symbols[k] == o[p[k]],
                forall|k1: int, k2: int| 0 <= k1 < len && 0 <= k2 < len && k1 != k2 ==> p[k1] != p[k2],
                forall|k: int| i <= k < len ==> #[trigger] p[k] == k,
                forall|k: int| 0 <= k < i ==> #[trigger] p[k] < i,
                forall|a: int, b: int|
                    0 <= a < b < i ==> in_order(self.symbols[a], self.symbols[b], p[a], p[b], field, nn),
            decreases len - i,
        {
            let mut j: usize = i;
            while j > 0 && row_lt(&self.symbols[i], &self.symbols[j - 1], field, n)
                invariant
                    j <= i < len,
                    self.symbols.len() == len,
                    nn == n as nat,
                    forall|m: int| j <= m < i ==> key_lt(self.symbols[i as int], #[trigger] self.symbols[m], field, nn),
                decreases j,
            {
                j = j - 1;
            }
            let ghost s0 = self.symbols@;
            let ghost prev_tags = p;
            let x = self.symbols.remove(i);
            self.symbols.insert(j, x);
            proof {
                p = prev_tags.remove(i as int).insert(j as int, i as int);
                let s1 = self.symbols@;
                assert(s1 =~= s0.remove(i as int).insert(j as int, s0[i as int]));
                assert forall|k: int| 0 <= k < len implies #[trigger] s1[k] == s0[shifted(k, j as int, i as int)] && p[k] == prev_tags[shifted(k, j as int, i as int)] by {}
                assert forall|k: int| 0 <= k < len implies 0 <= #[trigger] p[k] < len && self.symbols[k] == o[p[k]] by {
                    let sk = shifted(k, j as int, i as int);
                    assert(0 <= prev_tags[sk] < len && s0[sk] == o[prev_tags[sk]]);
                }
                assert forall|k1: int, k2: int| 0 <= k1 < len && 0 <= k2 < len && k1 != k2 implies p[k1] != p[k2] by {
                    let a = shifted(k1, j as int, i as int);
                    let b = shifted(k2, j as int, i as int);
                    assert(prev_tags[a] != prev_tags[b]);
                }
                assert forall|k: int| i + 1 <= k < len implies #[trigger] p[k] == k by {
                    assert(prev_tags[k] == k);
                }
                assert forall|k: int| 0 <= k < i + 1 implies #[trigger] p[k] < i + 1 by {
                    let sk = shifted(k, j as int, i as int);
                    if sk < i {
                        assert(prev_tags[sk] < i);
                    } else {
                        assert(prev_tags[sk] == i);
                    }
                }
                let xv = s0[i as int];
                assert(prev_tags[i as int] == i);
                assert forall|a: int, b: int| 0 <= a < b < i + 1 implies in_order(
                    self.symbols[a], self.symbols[b], p[a], p[b], field, nn) by {
                    let sa = shifted(a, j as int, i as int);
                    let sb = shifted(b, j as int, i as int);
                    if a != j && b != j {
                        assert(sa < sb);
                        assert(in_order(s0[sa], s0[sb], prev_tags[sa], prev_tags[sb], field, nn));
                    } else if a == j {
                        // The moved row goes before rows that sort strictly after it.
                        assert(sb < i && sb >= j);
                        assert(key_lt(xv, s0[sb], field, nn));
                    } else {
                        // Rows before the moved one sort no later than it, and came earlier.
                        assert(sa < j);
                        assert(prev_tags[sa] < i);
                        let prev = s0[j - 1];
                        assert(!key_lt(xv, prev, field, nn));
                        lemma_key_order(xv, prev, xv, field, nn);
                        if sa < j - 1 {
                            assert(in_order(s0[sa], prev, prev_tags[sa], prev_tags[j - 1], field, nn));
                            lemma_key_order(s0[sa], prev, xv, field, nn);
                        }
                    }
                }
            }
            i = i + 1;
        }
        proof {
            assert(stable_order(o, self.symbols@, p, field, nn));
            assert forall|k: int| 0 <= k < self.symbols.len() implies #[trigger] self.symbols[k].irs.len()
                == self.run_names.len() by {
                assert(0 <= p[k] < len);
                assert(old(self).symbols[p[k]].irs.len() == n);
            }
            assert forall|a: int, b: int|
                0 <= a < self.symbols.len() && 0 <= b < self.symbols.len() && a != b
                    implies #[trigger] self.symbols[a].name@ != #[trigger] self.symbols[b].name@ by {
                assert(0 <= p[a] < len);
                assert(0 <= p[b] < len);
                assert(p[a] != p[b]);
                assert(old(self).symbols[p[a]].name@ != old(self).symbols[p[b]].name@);
            }
        }
    }
}

/// Some run of `runs` has symbol `n`.
pub open spec fn seen_in(runs: Seq<Run>, n: Seq<char>) -> bool {
    exists|i: int| 0 <= i < runs.len() && runs[i].has_symbol(n)
}

/// Symbol `n` occurs in `runs` before position `p` of run `i`: in an earlier run, or earlier
/// in run `i`.
pub open spec fn occurs_before(runs: Seq<Run>, n: Seq<char>, i: int, p: int) -> bool {
    exists|i2: int, p2: int|
        0 <= i2 < runs.len() && 0 <= p2 < runs[i2].symbols.len() && (i2 < i || (i2 == i && p2 < p))
            && runs[i2].symbols[p2].name@ == n
}

/// The rows are in the order in which the runs, taken in turn, first have their symbols.
pub open spec fn rows_first_seen(records: Records, runs: Seq<Run>) -> bool {
    forall|a: int, b: int, i: int, p: int|
        #![trigger records.symbols[a], records.symbols[b], runs[i].symbols[p]]
        0 <= a < b < records.symbols.len() && 0 <= i < runs.len() && 0 <= p < runs[i].symbols.len()
            && runs[i].symbols[p].name@ == records.symbols[b].name@ ==> occurs_before(
            runs,
            records.symbols[a].name@,
            i,
            p,
        )
}

/// `records` holds exactly `runs`, in order: their names and totals, one row per symbol seen
/// in any of them, and in each row the count of each run for that symbol, 0 where the run
/// does not have it.
pub open spec fn holds_runs(records: Records, runs: Seq<Run>) -> bool {
    &&& records.wf()
    &&& records.run_names.len() == runs.len()
    &&& forall|i: int| 0 <= i < runs.len() ==> #[trigger] records.run_names[i] == runs[i].name
    &&& forall|i: int| 0 <= i < runs.len() ==> #[trigger] records.runs_total_irs[i] == runs[i].total_ir
    &&& forall|r: int, i: int|
        0 <= r < records.symbols.len() && 0 <= i < runs.len() ==> #[trigger] records.symbols[r].irs[i]
            == #[trigger] runs[i].ir_of(records.symbols[r].name@)
    &&& forall|r: int|
        0 <= r < records.symbols.len() ==> #[trigger] seen_in(runs, records.symbols[r].name@)
    &&& forall|i: int, p: int|
        0 <= i < runs.len() && 0 <= p < runs[i].symbols.len() ==> records.has_row(
            #[trigger] runs[i].symbols[p].name@,
        )
    &&& rows_first_seen(records, runs)
}

/// Add the runs, in order, to new records.
pub fn parse_records(runs: Vec<Run>) -> (r: Records)
    requires
        forall|i: int| 0 <= i < runs.len() ==> #[trigger] runs[i].wf(),
    ensures
        holds_runs(r, runs@),
{
    let ghost rs = runs@;
    let mut rest = runs;
    let mut records = Records::new();
    let mut k: usize = 0;
    let n = rest.len();
    while rest.len() > 0
        invariant
            n == rs.len(),
            k + rest.len() == n,
            rest@ == rs.skip(k as int),
            forall|i: int| 0 <= i < rs.len() ==> #[trigger] rs[i].wf(),
            holds_runs(records, rs.take(k as int)),
        decreases rest.len(),
    {
        let run = rest.remove(0);
        assert(run == rs[k as int]);
        let ghost before = records;
        let ghost run_g = run;
        records.add_run(run);
        proof {
            lemma_holds_step(before, rs.take(k as int), run_g, records);
            assert(rs.take(k as int).push(run_g) =~= rs.take(k + 1));
            assert(rest@ =~= rs.skip(k + 1));
        }
        k = k + 1;
    }
    assert(rs.take(n as int) =~= rs);
    records
}

/// Adding one more run keeps the records holding exactly the runs added.
proof fn lemma_holds_step(before: Records, runs: Seq<Run>, run: Run, after: Records)
    requires
        holds_runs(before, runs),
        Records::appended(before, run, after),
        run.wf(),
    ensures
        holds_runs(after, runs.push(run)),
{
    lemma_order_step(before, runs, run, after);
    let all = runs.push(run);
    let k = runs.len() as int;
    let ol = before.symbols.len();
    assert forall|i: int| 0 <= i < all.len() implies #[trigger] after.run_names[i] == all[i].name by {
        assert(after.run_names@[i] == before.run_names@.push(run.name)[i]);
    }
    assert forall|i: int| 0 <= i < all.len() implies #[trigger] after.runs_total_irs[i] == all[i].total_ir by {
        assert(after.runs_total_irs@[i] == before.runs_total_irs@.push(run.total_ir)[i]);
    }
    assert forall|r: int, i: int|
        0 <= r < after.symbols.len() && 0 <= i < all.len() implies #[trigger] after.symbols[r].irs[i]
            == #[trigger] all[i].ir_of(after.symbols[r].name@) by {
        let nm = after.symbols[r].name@;
        assert(before.run_names.len() == k);
        if r < ol {
            assert(after.symbols[r].name@ == before.symbols[r].name@);
            assert(before.symbols[r].irs.len() == k);
            assert(after.symbols[r].irs@ == before.symbols[r].irs@.push(run.ir_of(nm)));
            if i < k {
                assert(all[i] == runs[i]);
                assert(after.symbols[r].irs@[i] == before.symbols[r].irs@[i]);
                assert(before.symbols[r].irs[i] == runs[i].ir_of(before.symbols[r].name@));
            } else {
                assert(all[i] == run);
            }
        } else {
            assert(!before.has_row(nm));
            assert(after.symbols[r].irs@ == Seq::new(k as nat, |_j: int| 0u64).push(run.ir_of(nm)));
            if i < k {
                assert(all[i] == runs[i]);
                if all[i].has_symbol(nm) {
                    let p = choose|p: int| 0 <= p < all[i].symbols.len() && all[i].symbols[p].name@ == nm;
                    assert(runs[i].symbols[p].name@ == nm);
                    assert(before.has_row(runs[i].symbols[p].name@));
                }
                assert(after.symbols[r].irs@[i] == 0);
            } else {
                assert(all[i] == run);
            }
        }
    }
    assert forall|r: int| 0 <= r < after.symbols.len() implies #[trigger] seen_in(all, after.symbols[r].name@) by {
        if r < ol {
            assert(after.symbols[r].name@ == before.symbols[r].name@);
            assert(seen_in(runs, before.symbols[r].name@));
            let i = choose|i: int| 0 <= i < runs.len() && runs[i].has_symbol(before.symbols[r].name@);
            assert(all[i] == runs[i]);
        } else {
            assert(all[k] == run);
            assert(all[k].has_symbol(after.symbols[r].name@));
        }
    }
    assert forall|i: int, p: int|
        0 <= i < all.len() && 0 <= p < all[i].symbols.len() implies after.has_row(
            #[trigger] all[i].symbols[p].name@,
        ) by {
        if i < k {
            assert(all[i] == runs[i]);
            assert(before.has_row(runs[i].symbols[p].name@));
            let r = choose|r: int| 0 <= r < before.symbols.len() && before.symbols[r].name@ == runs[i].symbols[p].name@;
            assert(after.symbols[r].name@ == before.symbols[r].name@);
        } else {
            assert(all[i] == run);
        }
    }
}

/// A symbol that no row of `before` has is in no run that `before` holds.
proof fn lemma_new_row_only_in_run(before: Records, runs: Seq<Run>, n: Seq<char>, i: int, p: int)
    requires
        holds_runs(before, runs),
        !before.has_row(n),
        0 <= i < runs.len(),
        0 <= p < runs[i].symbols.len(),
    ensures
        runs[i].symbols[p].name@ != n,
{
    assert(before.has_row(runs[i].symbols[p].name@));
}

/// A symbol of a row of `before` occurs before any position of a new run.
proof fn lemma_old_row_occurs(before: Records, runs: Seq<Run>, run: Run, a: int, p: int)
    requires
        holds_runs(before, runs),
        0 <= a < before.symbols.len(),
    ensures
        occurs_before(runs.push(run), before.symbols[a].name@, runs.len() as int, p),
{
    let all = runs.push(run);
    let n = before.symbols[a].name@;
    assert(seen_in(runs, n));
    let i2 = choose|i: int| 0 <= i < runs.len() && runs[i].has_symbol(n);
    let p2 = choose|q: int| 0 <= q < runs[i2].symbols.len() && runs[i2].symbols[q].name@ == n;
    assert(all[i2] == runs[i2]);
    assert(all[i2].symbols[p2].name@ == n);
}

/// Adding one more run keeps the rows in first-seen order.
proof fn lemma_order_step(before: Records, runs: Seq<Run>, run: Run, after: Records)
    requires
        holds_runs(before, runs),
        Records::appended(before, run, after),
        run.wf(),
    ensures
        rows_first_seen(after, runs.push(run)),
{
    let all = runs.push(run);
    let k = runs.len() as int;
    let ol = before.symbols.len() as int;
    assert forall|a: int, b: int, i: int, p: int|
        #![trigger after.symbols[a], after.symbols[b], all[i].symbols[p]]
        0 <= a < b < after.symbols.len() && 0 <= i < all.len() && 0 <= p < all[i].symbols.len()
            && all[i].symbols[p].name@ == after.symbols[b].name@ implies occurs_before(
        all,
        after.symbols[a].name@,
        i,
        p,
    ) by {
        let na = after.symbols[a].name@;
        let nb = after.symbols[b].name@;
        if b < ol {
            assert(after.symbols[a].name@ == before.symbols[a].name@);
            assert(after.symbols[b].name@ == before.symbols[b].name@);
            if i < k {
                assert(all[i] == runs[i]);
                assert(runs[i].symbols[p].name@ == before.symbols[b].name@);
                assert(occurs_before(runs, before.symbols[a].name@, i, p));
                let (i2, p2) = choose|i2: int, p2: int|
                    0 <= i2 < runs.len() && 0 <= p2 < runs[i2].symbols.len() && (i2 < i || (i2 == i
                        && p2 < p)) && runs[i2].symbols[p2].name@ == na;
                assert(all[i2] == runs[i2]);
            } else {
                lemma_old_row_occurs(before, runs, run, a, p);
            }
        } else {
            assert(!before.has_row(nb));
            if i < k {
                assert(all[i] == runs[i]);
                lemma_new_row_only_in_run(before, runs, nb, i, p);
            }
            assert(all[i] == run);
            run.lemma_position(p);
            if a < ol {
                assert(after.symbols[a].name@ == before.symbols[a].name@);
                lemma_old_row_occurs(before, runs, run, a, p);
            } else {
                assert(run.has_symbol(na));
                let pa = run.position_of(na);
                assert(run.position_of(na) < run.position_of(nb));
                assert(all[k].symbols[pa].name@ == na);
            }
        }
    }
}

/// A symbol that only one of two runs has is counted as 0 in the column of the other, once
/// both runs are added in turn to empty records.
pub proof fn lemma_missing_symbol_zero_fill(
    r0: Records,
    a: Run,
    r1: Records,
    b: Run,
    r2: Records,
    name: Seq<char>,
)
    requires
        r0.wf(),
        r0.run_names.len() == 0,
        r0.symbols.len() == 0,
        Records::appended(r0, a, r1),
        Records::appended(r1, b, r2),
        a.has_symbol(name) != b.has_symbol(name),
    ensures
        exists|i: int|
            0 <= i < r2.symbols.len() && #[trigger] r2.symbols[i].name@ == name && r2.symbols[i].irs@
                == if a.has_symbol(name) {
                seq![a.ir_of(name), 0u64]
            } else {
                seq![0u64, b.ir_of(name)]
            },
{
    if a.has_symbol(name) {
        let p = choose|p: int| 0 <= p < a.symbols.len() && a.symbols[p].name@ == name;
        assert(r1.has_row(a.symbols[p].name@));
        let i = choose|i: int| 0 <= i < r1.symbols.len() && r1.symbols[i].name@ == name;
        assert(r1.symbols[i].name@ == name);
        assert(r2.symbols[i].name@ == name);
        assert(r1.symbols[i].irs@ =~= seq![a.ir_of(name)]);
        assert(r2.symbols[i].irs@ =~= seq![a.ir_of(name), 0u64]);
    } else {
        let p = choose|p: int| 0 <= p < b.symbols.len() && b.symbols[p].name@ == name;
        assert(r2.has_row(b.symbols[p].name@));
        let i = choose|i: int| 0 <= i < r2.symbols.len() && r2.symbols[i].name@ == name;
        if i < r1.symbols.len() {
            assert(r2.symbols[i].name@ == r1.symbols[i].name@);
            assert(r1.symbols[i].name@ == name);
        }
        assert(r2.symbols[i].name@ == name);
        assert(r2.symbols[i].irs@ =~= seq![0u64, b.ir_of(name)]);
    }
}

/// Distinct positions, as many as there are rows, all among the rows, take every position.
proof fn lemma_tags_cover(p: Seq<int>, n: int)
    requires
        p.len() == n,
        forall|i: int| 0 <= i < p.len() ==> 0 <= #[trigger] p[i] < n,
        forall|i: int, j: int| 0 <= i < p.len() && 0 <= j < p.len() && i != j ==> p[i] != p[j],
    ensures
        forall|k: int| 0 <= k < n ==> #[trigger] p.contains(k),
{
    broadcast use vstd::seq_lib::seq_to_set_is_finite;

    assert(p.no_duplicates());
    p.unique_seq_to_set();
    vstd::set_lib::lemma_int_range(0, n);
    let r = vstd::set_lib::set_int_range(0, n);
    assert forall|x: int| p.to_set().contains(x) implies r.contains(x) by {
        let i = choose|i: int| 0 <= i < p.len() && p[i] == x;
    }
    vstd::set_lib::lemma_subset_equality(p.to_set(), r);
    assert forall|k: int| 0 <= k < n implies #[trigger] p.contains(k) by {
        assert(r.contains(k));
        assert(p.to_set().contains(k));
    }
}

/// Two sequences of distinct positions of `before`, holding the same positions, each in
/// stable sorted order, are the same.
proof fn lemma_sorted_tags_unique(
    before: Seq<RecordsSymbol>,
    q1: Seq<int>,
    q2: Seq<int>,
    field: SortByField,
    n: nat,
)
    requires
        q1.len() == q2.len(),
        forall|i: int| 0 <= i < q1.len() ==> 0 <= #[trigger] q1[i] < before.len(),
        forall|i: int| 0 <= i < q2.len() ==> 0 <= #[trigger] q2[i] < before.len(),
        forall|i: int, j: int| 0 <= i < q1.len() && 0 <= j < q1.len() && i != j ==> q1[i] != q1[j],
        forall|i: int, j: int| 0 <= i < q2.len() && 0 <= j < q2.len() && i != j ==> q2[i] != q2[j],
        forall|x: int| #[trigger] q1.contains(x) == q2.contains(x),
        forall|i: int, j: int|
            0 <= i < j < q1.len() ==> in_order(before[q1[i]], before[q1[j]], q1[i], q1[j], field, n),
        forall|i: int, j: int|
            0 <= i < j < q2.len() ==> in_order(before[q2[i]], before[q2[j]], q2[i], q2[j], field, n),
    ensures
        q1 == q2,
    decreases q1.len(),
{
    if q1.len() > 0 {
        let a = q1[0];
        let b = q2[0];
        if a != b {
            assert(q2.contains(b));
            assert(q1.contains(b));
            let j1 = choose|j: int| 0 <= j < q1.len() && q1[j] == b;
            assert(q1.contains(a));
            assert(q2.contains(a));
            let j2 = choose|j: int| 0 <= j < q2.len() && q2[j] == a;
            assert(j1 > 0 && j2 > 0);
            assert(in_order(before[a], before[b], a, b, field, n));
            assert(in_order(before[b], before[a], b, a, field, n));
            lemma_key_order(before[a], before[b], before[a], field, n);
            lemma_key_order(before[b], before[a], before[b], field, n);
            assert(false);
        }
        assert(q1[0] == q2[0]);
        let t1 = q1.drop_first();
        let t2 = q2.drop_first();
        assert forall|x: int| #[trigger] t1.contains(x) == t2.contains(x) by {
            if t1.contains(x) {
                let i = choose|i: int| 0 <= i < t1.len() && t1[i] == x;
                assert(q1[i + 1] == x);
                assert(q1[i + 1] != q1[0]);
                assert(q1.contains(x));
                let k = choose|k: int| 0 <= k < q2.len() && q2[k] == x;
                assert(k != 0);
                assert(t2[k - 1] == x);
            }
            if t2.contains(x) {
                let i = choose|i: int| 0 <= i < t2.len() && t2[i] == x;
                assert(q2[i + 1] == x);
                assert(q2[i + 1] != q2[0]);
                assert(q2.contains(x));
                assert(q1.contains(x));
                let k = choose|k: int| 0 <= k < q1.len() && q1[k] == x;
                assert(k != 0);
                assert(t1[k - 1] == x);
            }
        }
        assert forall|i: int, j: int| 0 <= i < j < t1.len() implies in_order(
            before[t1[i]],
            before[t1[j]],
            t1[i],
            t1[j],
            field,
            n,
        ) by {
            assert(t1[i] == q1[i + 1] && t1[j] == q1[j + 1]);
        }
        assert forall|i: int, j: int| 0 <= i < j < t2.len() implies in_order(
            before[t2[i]],
            before[t2[j]],
            t2[i],
            t2[j],
            field,
            n,
        ) by {
            assert(t2[i] == q2[i + 1] && t2[j] == q2[j + 1]);
        }
        assert forall|i: int, j: int| 0 <= i < t1.len() && 0 <= j < t1.len() && i != j implies t1[i] != t1[j] by {
            assert(q1[i + 1] != q1[j + 1]);
        }
        assert forall|i: int, j: int| 0 <= i < t2.len() && 0 <= j < t2.len() && i != j implies t2[i] != t2[j] by {
            assert(q2[i + 1] != q2[j + 1]);
        }
        lemma_sorted_tags_unique(before, t1, t2, field, n);
        assert forall|i: int| 0 <= i < q1.len() implies q1[i] == q2[i] by {
            if i > 0 {
                assert(q1[i] == t1[i - 1]);
                assert(q2[i] == t2[i - 1]);
            }
        }
        assert(q1 =~= q2);
    }
}

/// A stable sort has one result: two stable sorts of the same rows by the same field agree.
pub proof fn lemma_stable_sort_unique(
    before: Seq<RecordsSymbol>,
    a: Seq<RecordsSymbol>,
    b: Seq<RecordsSymbol>,
    field: SortByField,
    n: nat,
)
    requires
        stably_sorted(before, a, field, n),
        stably_sorted(before, b, field, n),
    ensures
        a == b,
{
    let pa = choose|p: Seq<int>| stable_order(before, a, p, field, n);
    let pb = choose|p: Seq<int>| stable_order(before, b, p, field, n);
    let len = before.len() as int;
    lemma_tags_cover(pa, len);
    lemma_tags_cover(pb, len);
    assert forall|x: int| #[trigger] pa.contains(x) == pb.contains(x) by {
        if pa.contains(x) {
            let i = choose|i: int| 0 <= i < pa.len() && pa[i] == x;
            assert(0 <= pa[i] < len);
        }
        if pb.contains(x) {
            let i = choose|i: int| 0 <= i < pb.len() && pb[i] == x;
            assert(0 <= pb[i] < len);
        }
    }
    assert forall|i: int, j: int| 0 <= i < j < pa.len() implies in_order(
        before[pa[i]],
        before[pa[j]],
        pa[i],
        pa[j],
        field,
        n,
    ) by {
        assert(0 <= pa[i] < len && a[i] == before[pa[i]]);
        assert(0 <= pa[j] < len && a[j] == before[pa[j]]);
    }
    assert forall|i: int, j: int| 0 <= i < j < pb.len() implies in_order(
        before[pb[i]],
        before[pb[j]],
        pb[i],
        pb[j],
        field,
        n,
    ) by {
        assert(0 <= pb[i] < len && b[i] == before[pb[i]]);
        assert(0 <= pb[j] < len && b[j] == before[pb[j]]);
    }
    lemma_sorted_tags_unique(before, pa, pb, field, n);
    assert forall|i: int| 0 <= i < a.len() implies a[i] == b[i] by {
        assert(0 <= pa[i] < len && a[i] == before[pa[i]]);
        assert(0 <= pb[i] < len && b[i] == before[pb[i]]);
    }
    assert(a =~= b);
}

/// Sorting in descending order gives the rows of the ascending sort, in reverse: ties too
/// come out in reverse order.
pub proof fn lemma_descending_is_reversed_ascending(
    before: Seq<RecordsSymbol>,
    ascending: Seq<RecordsSymbol>,
    descending: Seq<RecordsSymbol>,
    field: SortByField,
    n: nat,
)
    requires
        stably_sorted(before, ascending, field, n),
        stably_sorted(before, descending.reverse(), field, n),
    ensures
        descending == ascending.reverse(),
{
    lemma_stable_sort_unique(before, ascending, descending.reverse(), field, n);
    assert(descending =~= descending.reverse().reverse());
}

/// Where position `k` of a sequence came from, after the item at `i` moved to `j <= i`.
pub open spec fn shifted(k: int, j: int, i: int) -> int {
    if k < j {
        k
    } else if k == j {
        i
    } else if k <= i {
        k - 1
    } else {
        k
    }
}

/// A name found among rows `a` is found at the same place among rows `b`, where the names of
/// `b` start with those of `a`.
proof fn old_has_row_kept(a: Seq<RecordsSymbol>, b: Seq<RecordsSymbol>, n: Seq<char>)
    requires
        a.len() <= b.len(),
        forall|q: int| 0 <= q < a.len() ==> #[trigger] b[q].name@ == a[q].name@,
        exists|i: int| 0 <= i < a.len() && a[i].name@ == n,
    ensures
        exists|i: int| 0 <= i < b.len() && b[i].name@ == n,
{
    let i = choose|i: int| 0 <= i < a.len() && a[i].name@ == n;
    assert(b[i].name@ == n);
}

} // verus!
