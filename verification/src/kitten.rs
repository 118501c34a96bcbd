//! `kitten`: a small embedded CDCL SAT solver with assumptions, clausal
//! cores and model flipping, as used by sweeping and definition mining.
//!
//! External literals are `2 * var + sign`; they are mapped densely to
//! internal variables on first use. Clauses ("klauses") are kept in a vector
//! and referred to by their index.
use vstd::prelude::*;
use crate::literal::spec_not;
use crate::kitten_answers::{snapshot, confirm_refuted, search_exhaustively, lemma_assigned_total, klause_lits, formula_view,
    refuted, formula_below};
use crate::random::{next_random64, pick_random, lcg_step};

verus! {

pub const INVALID: u32 = 0xffff_ffff;
pub const CORE_FLAG: u32 = 1;
pub const LEARNED_FLAG: u32 = 2;
pub const KATCH_BINARY_BIT: u32 = 0x8000_0000;
/// Klause references are kept in 31 bits of a watch.
pub const MAX_KLAUSES: usize = 0x7fff_fff0;
/// External literals must be below this bound, so that all sizes fit the
/// address space.
pub const MAX_ELIT: u32 = 0x4000_0000;

/// Assignment level and reason of a variable.
#[derive(Clone, Copy)]
pub struct Kar {
    pub level: u32,
    pub reason: u32,
}

/// Queue links of a variable with its enqueue stamp.
#[derive(Clone, Copy)]
pub struct Kink {
    pub next: u32,
    pub prev: u32,
    pub stamp: u64,
}

/// A watch: blocking literal, klause reference (31 bits) and binary bit.
#[derive(Clone, Copy)]
pub struct Katch {
    pub blit: u32,
    pub meta: u32,
}

/// The decision queue: first and last variable, stamp counter and the
/// search cursor.
#[derive(Clone, Copy)]
pub struct Kueue {
    pub first: u32,
    pub last: u32,
    pub stamp: u64,
    pub search: u32,
}

/// The propagation ticks limit.
#[derive(Clone, Copy)]
pub struct Kimits {
    pub ticks: u64,
}

/// A klause: `aux` is the identifier of an original klause or the number
/// of antecedents of a learned one; `flags` holds the core and learned bits.
pub struct Klause {
    pub aux: u32,
    pub flags: u32,
    pub lits: Vec<u32>,
    pub antecedents: Vec<u32>,
}

/// The counters kitten updates, and the termination request it polls.
pub struct KittenStatistics {
    pub kitten_ticks: u64,
    pub kitten_propagations: u64,
    pub kitten_solved: u64,
    pub kitten_conflicts: u64,
    pub kitten_decisions: u64,
    pub kitten_flip: u64,
    pub kitten_flipped: u64,
    pub kitten_sat: u64,
    pub kitten_unsat: u64,
    pub kitten_unknown: u64,
    pub terminate: bool,
}

impl KittenStatistics {
    /// All counters zero, no termination requested.
    pub fn new() -> (r: KittenStatistics)
        ensures
            r.kitten_ticks == 0 && r.kitten_propagations == 0 && r.kitten_solved == 0,
            r.kitten_conflicts == 0 && r.kitten_decisions == 0 && r.kitten_flip == 0,
            r.kitten_flipped == 0 && r.kitten_sat == 0 && r.kitten_unsat == 0,
            r.kitten_unknown == 0 && !r.terminate,
    {
        KittenStatistics {
            kitten_ticks: 0,
            kitten_propagations: 0,
            kitten_solved: 0,
            kitten_conflicts: 0,
            kitten_decisions: 0,
            kitten_flip: 0,
            kitten_flipped: 0,
            kitten_sat: 0,
            kitten_unsat: 0,
            kitten_unknown: 0,
            terminate: false,
        }
    }
}

/// The solver state.
pub struct Kitten {
    pub status: i32,
    pub antecedents: bool,
    pub learned: bool,
    pub level: u32,
    pub propagated: u32,
    pub unassigned: u32,
    pub inconsistent: u32,
    pub failing: u32,
    pub generator: u64,
    pub lits: usize,
    pub evars: usize,
    pub end_original_ref: usize,
    pub queue: Kueue,
    pub size: usize,
    pub esize: usize,
    pub vars: Vec<Kar>,
    pub links: Vec<Kink>,
    pub marks: Vec<i8>,
    pub values: Vec<i8>,
    pub failed: Vec<bool>,
    pub phases: Vec<u8>,
    pub import: Vec<u32>,
    pub watches: Vec<Vec<Katch>>,
    pub analyzed: Vec<u32>,
    pub assumptions: Vec<u32>,
    pub core: Vec<u32>,
    pub eclause: Vec<u32>,
    pub export_: Vec<u32>,
    pub klause: Vec<u32>,
    pub klauses: Vec<Klause>,
    pub resolved: Vec<u32>,
    pub trail: Vec<u32>,
    pub units: Vec<u32>,
    pub limits: Kimits,
    pub initialized: u64,
    /// The variables in queue order, from first to last.
    pub order: Ghost<Seq<u32>>,
}

/*------------------------------------------------------------------------*/
// Specifications.

impl Katch {
    pub open spec fn spec_ref(self) -> u32 {
        (self.meta % 0x8000_0000) as u32
    }

    pub open spec fn spec_binary(self) -> bool {
        self.meta >= 0x8000_0000
    }

    /// A watch of klause `ref_` with blocking literal `blit`.
    pub fn new(blit: u32, ref_: u32, binary: bool) -> (r: Katch)
        requires
            ref_ < KATCH_BINARY_BIT,
        ensures
            r.blit == blit,
            r.spec_ref() == ref_,
            r.spec_binary() == binary,
    {
        let b: u32 = if binary { KATCH_BINARY_BIT } else { 0 };
        proof {
            assert((ref_ | b) % 0x8000_0000 == ref_) by (bit_vector)
                requires
                    ref_ < 0x8000_0000,
                    b == 0 || b == 0x8000_0000,
            ;
            assert(((ref_ | b) >= 0x8000_0000) == (b == 0x8000_0000)) by (bit_vector)
                requires
                    ref_ < 0x8000_0000,
                    b == 0 || b == 0x8000_0000,
            ;
        }
        Katch { blit, meta: ref_ | b }
    }

    /// The klause reference.
    pub fn ref_(&self) -> (r: u32)
        ensures
            r == self.spec_ref(),
    {
        let m = self.meta;
        proof {
            assert(m & !0x8000_0000u32 == m % 0x8000_0000) by (bit_vector);
        }
        m & !KATCH_BINARY_BIT
    }

    /// Whether the watched klause is binary.
    pub fn binary(&self) -> (r: bool)
        ensures
            r == self.spec_binary(),
    {
        let m = self.meta;
        proof {
            assert((m & 0x8000_0000u32 != 0) == (m >= 0x8000_0000)) by (bit_vector);
        }
        m & KATCH_BINARY_BIT != 0
    }
}

/// The variables of a literal sequence are pairwise distinct.
pub open spec fn distinct_vars(s: Seq<u32>) -> bool {
    forall|i: int, j: int| 0 <= i < s.len() && 0 <= j < s.len() && i != j ==> #[trigger] (s[i] / 2) != #[trigger] (s[j] / 2)
}

/// Every literal is below `lits`.
pub open spec fn lits_below(s: Seq<u32>, lits: int) -> bool {
    forall|i: int| 0 <= i < s.len() ==> (#[trigger] s[i] as int) < lits
}

/// Number of unassigned variables among the first `n` (a variable is
/// unassigned when its positive literal has value zero).
pub open spec fn count_unassigned(values: Seq<i8>, n: int) -> int
    decreases n,
{
    if n <= 0 {
        0
    } else {
        count_unassigned(values, n - 1) + if values[2 * (n - 1)] == 0 { 1int } else { 0int }
    }
}

/// Whether a klause is well formed at position `r`.
pub open spec fn klause_ok(c: Klause, r: int, lits: int, antecedents: bool) -> bool {
    &&& c.flags < 4
    &&& lits_below(c.lits@, lits)
    &&& distinct_vars(c.lits@)
    &&& c.lits@.len() <= lits / 2 + 1
    &&& c.flags >= 2 ==> c.antecedents@.len() == c.aux as int
    &&& c.flags >= 2 ==> forall|a: int| 0 <= a < c.antecedents@.len() ==> (#[trigger] c.antecedents@[a] as int) < r
    &&& c.flags < 2 ==> c.antecedents@.len() == 0
    &&& (!antecedents && c.flags >= 2) ==> c.aux == 0
}

/// All klauses are well formed.
pub open spec fn klauses_ok(klauses: Seq<Klause>, lits: int, antecedents: bool) -> bool {
    &&& klauses.len() < MAX_KLAUSES
    &&& forall|r: int| 0 <= r < klauses.len() ==> klause_ok(#[trigger] klauses[r], r, lits, antecedents)
}

/// Every klause of `ks0` is still in `ks` at its place, with its literals
/// at most reordered: as many literals as before, each literal it has now
/// it had before, and each literal it had it still has.
pub open spec fn lits_within(ks0: Seq<Klause>, ks: Seq<Klause>) -> bool {
    &&& ks0.len() <= ks.len()
    &&& forall|r: int| 0 <= r < ks0.len() ==> (#[trigger] ks[r]).lits@.len() == ks0[r].lits@.len()
    &&& forall|r: int, j: int| 0 <= r < ks0.len() && 0 <= j < ks[r].lits@.len() ==> ks0[r].lits@.contains(#[trigger] ks[r].lits@[j])
    &&& forall|r: int, j: int| 0 <= r < ks0.len() && 0 <= j < ks0[r].lits@.len() ==> ks[r].lits@.contains(#[trigger] ks0[r].lits@[j])
}

/// The formula is kept: the klauses keep their literals and the external
/// variables their import.
pub open spec fn kept_formula(a: Kitten, b: Kitten) -> bool {
    &&& lits_within(a.klauses@, b.klauses@)
    &&& b.import == a.import
    &&& b.evars == a.evars
}

/// A solver with the same klauses and import keeps the formula.
proof fn lemma_kept_formula_same(a: Kitten, b: Kitten)
    requires
        a.klauses@.len() <= b.klauses@.len(),
        forall|c: int| 0 <= c < a.klauses@.len() ==> (#[trigger] b.klauses@[c]).lits@ == a.klauses@[c].lits@,
        b.import == a.import,
        b.evars == a.evars,
    ensures
        kept_formula(a, b),
{
    lemma_lits_within_same(a.klauses@, b.klauses@);
}

/// Keeping the formula is transitive.
proof fn lemma_kept_formula_trans(a: Kitten, b: Kitten, c: Kitten)
    requires
        kept_formula(a, b),
        kept_formula(b, c),
    ensures
        kept_formula(a, c),
{
    lemma_lits_within_trans(a.klauses@, b.klauses@, c.klauses@);
}

/// Klauses whose literals did not change keep them.
proof fn lemma_lits_within_same(ks0: Seq<Klause>, ks: Seq<Klause>)
    requires
        ks0.len() <= ks.len(),
        forall|c: int| 0 <= c < ks0.len() ==> (#[trigger] ks[c]).lits@ == ks0[c].lits@,
    ensures
        lits_within(ks0, ks),
{
    assert forall|r: int, j: int| 0 <= r < ks0.len() && 0 <= j < ks[r].lits@.len() implies ks0[r].lits@.contains(#[trigger] ks[r].lits@[j]) by {
        assert(ks[r].lits@ == ks0[r].lits@);
        assert(ks0[r].lits@[j] == ks[r].lits@[j]);
    }
    assert forall|r: int, j: int| 0 <= r < ks0.len() && 0 <= j < ks0[r].lits@.len() implies ks[r].lits@.contains(#[trigger] ks0[r].lits@[j]) by {
        assert(ks[r].lits@ == ks0[r].lits@);
        assert(ks0[r].lits@[j] == ks[r].lits@[j]);
    }
}

/// Keeping the literals is transitive.
proof fn lemma_lits_within_trans(a: Seq<Klause>, b: Seq<Klause>, c: Seq<Klause>)
    requires
        lits_within(a, b),
        lits_within(b, c),
    ensures
        lits_within(a, c),
{
    assert forall|r: int, j: int| 0 <= r < a.len() && 0 <= j < c[r].lits@.len() implies a[r].lits@.contains(#[trigger] c[r].lits@[j]) by {
        let x = c[r].lits@[j];
        assert(b[r].lits@.contains(x));
        let bl = b[r].lits@;
        let i = choose|i: int| 0 <= i < bl.len() && #[trigger] bl[i] == x;
        assert(a[r].lits@.contains(b[r].lits@[i]));
    }
    assert forall|r: int, j: int| 0 <= r < a.len() && 0 <= j < a[r].lits@.len() implies c[r].lits@.contains(#[trigger] a[r].lits@[j]) by {
        let x = a[r].lits@[j];
        assert(b[r].lits@.contains(x));
        let bl = b[r].lits@;
        let i = choose|i: int| 0 <= i < bl.len() && #[trigger] bl[i] == x;
        assert(c[r].lits@.contains(b[r].lits@[i]));
    }
    assert forall|r: int| 0 <= r < a.len() implies (#[trigger] c[r]).lits@.len() == a[r].lits@.len() by {
        assert(b[r].lits@.len() == a[r].lits@.len());
    }
}

/// A model of the klauses now is one of the klauses before.
proof fn lemma_lits_within_satisfied(ks0: Seq<Klause>, ks: Seq<Klause>, values: Seq<i8>, r: int)
    requires
        lits_within(ks0, ks),
        0 <= r < ks0.len(),
        klause_satisfied(values, ks[r].lits@),
    ensures
        klause_satisfied(values, ks0[r].lits@),
{
    let l = ks[r].lits@;
    let j = choose|j: int| 0 <= j < l.len() && values[#[trigger] l[j] as int] > 0;
    assert(ks0[r].lits@.contains(l[j]));
    let l0 = ks0[r].lits@;
    let i = choose|i: int| 0 <= i < l0.len() && #[trigger] l0[i] == l[j];
    assert(values[l0[i] as int] > 0);
}

/// Moving a watch reorders the literals of one klause.
proof fn lemma_lits_within_replace(ks0: Seq<Klause>, ks: Seq<Klause>, r: int, i: int, l: u32)
    requires
        ks.len() == ks0.len(),
        0 <= r < ks0.len(),
        2 <= i < ks0[r].lits@.len(),
        ks0[r].lits@[0] == l || ks0[r].lits@[1] == l,
        ks[r].lits@ == ks0[r].lits@.update(0, partner(ks0[r].lits@, l)).update(1, ks0[r].lits@[i]).update(i, l),
        forall|c: int| 0 <= c < ks0.len() && c != r ==> (#[trigger] ks[c]).lits@ == ks0[c].lits@,
    ensures
        lits_within(ks0, ks),
{
    let c0 = ks0[r].lits@;
    assert forall|q: int, j: int| 0 <= q < ks0.len() && 0 <= j < ks[q].lits@.len() implies ks0[q].lits@.contains(#[trigger] ks[q].lits@[j]) by {
        if q == r {
            let p = if j == 0 { if c0[0] == l { 1int } else { 0int } } else if j == 1 { i } else if j == i { if c0[0] == l { 0int } else { 1int } } else { j };
            assert(ks[q].lits@[j] == c0[p]);
        } else {
            assert(ks[q].lits@ == ks0[q].lits@);
            assert(ks0[q].lits@[j] == ks[q].lits@[j]);
        }
    }
    assert forall|q: int, j: int| 0 <= q < ks0.len() && 0 <= j < ks0[q].lits@.len() implies ks[q].lits@.contains(#[trigger] ks0[q].lits@[j]) by {
        if q == r {
            let p = if c0[0] == l {
                if j == 0 { i } else if j == 1 { 0int } else if j == i { 1int } else { j }
            } else {
                if j == 1 { i } else if j == i { 1int } else { j }
            };
            assert(ks[q].lits@[p] == c0[j]);
        } else {
            assert(ks[q].lits@ == ks0[q].lits@);
            assert(ks0[q].lits@[j] == ks[q].lits@[j]);
        }
    }
    assert forall|q: int| 0 <= q < ks0.len() implies (#[trigger] ks[q]).lits@.len() == ks0[q].lits@.len() by {
        if q != r {
            assert(ks[q].lits@ == ks0[q].lits@);
        }
    }
}

/// The other literal of a binary klause as seen from `l`.
pub open spec fn other_of(c: Seq<u32>, l: int) -> int {
    if c[0] == l { c[1] as int } else { c[0] as int }
}

/// A watch in the list of literal `l` is well formed.
pub open spec fn katch_ok(k: Katch, l: int, klauses: Seq<Klause>, lits: int) -> bool {
    let r = k.spec_ref() as int;
    &&& r < klauses.len()
    &&& klauses[r].lits@.len() >= 2
    &&& (klauses[r].lits@[0] == l || klauses[r].lits@[1] == l)
    &&& (k.blit as int) < lits
    &&& k.spec_binary() == (klauses[r].lits@.len() == 2)
    &&& k.spec_binary() ==> k.blit as int == other_of(klauses[r].lits@, l)
}

/// A watch list is well formed and watches each klause at most once.
pub open spec fn watch_list_ok(ws: Seq<Katch>, l: int, klauses: Seq<Klause>, lits: int) -> bool {
    &&& forall|j: int| 0 <= j < ws.len() ==> katch_ok(#[trigger] ws[j], l, klauses, lits)
    &&& forall|i: int, j: int| 0 <= i < ws.len() && 0 <= j < ws.len() && i != j ==> #[trigger] ws[i].spec_ref() != #[trigger] ws[j].spec_ref()
}

/// All watch lists are well formed; lists beyond `lits` are empty.
pub open spec fn watches_ok(watches: Seq<Vec<Katch>>, klauses: Seq<Klause>, lits: int) -> bool {
    forall|l: int| 0 <= l < watches.len() ==> {
        &&& (l >= lits ==> (#[trigger] watches[l])@.len() == 0)
        &&& watch_list_ok(watches[l]@, l, klauses, lits)
    }
}

/// The links describe the list `order` from `queue.first` to `queue.last`.
#[verifier::opaque]
pub open spec fn linked(links: Seq<Kink>, queue: Kueue, order: Seq<u32>) -> bool {
    &&& order.no_duplicates()
    &&& forall|i: int| 0 <= i < order.len() ==> (#[trigger] order[i] as int) < links.len() && order[i] != INVALID
    &&& order.len() == 0 ==> queue.first == INVALID && queue.last == INVALID
    &&& order.len() > 0 ==> queue.first == order[0] && queue.last == order.last()
    &&& forall|i: int|
        #![trigger order[i]]
        0 <= i < order.len() ==> links[order[i] as int].prev == (if i == 0 {
            INVALID
        } else {
            order[i - 1]
        }) && links[order[i] as int].next == (if i == order.len() - 1 {
            INVALID
        } else {
            order[i + 1]
        })
}

/// Stamps increase along the list and stay below the stamp counter.
#[verifier::opaque]
pub open spec fn stamped(links: Seq<Kink>, queue: Kueue, order: Seq<u32>) -> bool {
    &&& forall|i: int, j: int|
        #![trigger order[i], order[j]]
        0 <= i < j < order.len() ==> links[order[i] as int].stamp < links[order[j] as int].stamp
    &&& forall|i: int| 0 <= i < order.len() ==> links[#[trigger] order[i] as int].stamp < queue.stamp
}

/// The queue holds every variable once, linked and stamped in order.
pub open spec fn queue_ok(links: Seq<Kink>, queue: Kueue, order: Seq<u32>, nvars: int) -> bool {
    &&& order.len() == nvars
    &&& forall|i: int| 0 <= i < order.len() ==> (#[trigger] order[i] as int) < nvars
    &&& forall|v: int| 0 <= v < nvars ==> #[trigger] order.contains(v as u32)
    &&& linked(links, queue, order)
    &&& stamped(links, queue, order)
}

/// Every variable after the search cursor in the queue is assigned.
pub open spec fn search_ok(queue: Kueue, order: Seq<u32>, values: Seq<i8>) -> bool {
    &&& order.len() > 0 ==> (queue.search as int) < order.len()
    &&& forall|i: int, j: int|
        0 <= i < j < order.len() && order[i] == queue.search ==> values[2 * order[j]] != 0
}

/// Values are in {-1, 0, 1}, complementary per variable, and zero beyond
/// `lits`.
pub open spec fn values_ok(values: Seq<i8>, lits: int) -> bool {
    &&& forall|l: int| 0 <= l < values.len() ==> -1 <= #[trigger] values[l] <= 1
    &&& forall|v: int| 0 <= 2 * v && 2 * v + 1 < lits ==> #[trigger] values[2 * v + 1] == -values[2 * v]
    &&& forall|l: int| lits <= l < values.len() ==> #[trigger] values[l] == 0
}

/// The import table maps external variables to internal ones and back.
pub open spec fn import_ok(import: Seq<u32>, export: Seq<u32>, evars: int) -> bool {
    &&& export.len() <= evars
    &&& forall|i: int| 0 <= i < export.len() ==> (#[trigger] export[i] as int) < evars
        && import[export[i] as int] == i + 1
    &&& forall|e: int| 0 <= e < import.len() && #[trigger] import[e] != 0 ==> e < evars
        && import[e] - 1 < export.len() && export[import[e] - 1] == e
}

impl Kitten {
    pub open spec fn nvars(&self) -> int {
        self.lits as int / 2
    }

    /// The structural invariant.
    pub open spec fn wf(&self) -> bool {
        &&& self.wf_core()
        &&& self.marks_clear()
        &&& self.analyzed@.len() == 0
        &&& self.klause@.len() == 0
        &&& self.resolved@.len() == 0
        &&& self.eclause@.len() == 0
    }

    /// No variable is marked.
    pub open spec fn marks_clear(&self) -> bool {
        forall|v: int| 0 <= v < self.marks@.len() ==> #[trigger] self.marks@[v] == 0
    }

    /// The tables have their sizes, and values, klauses, watches, the
    /// queue and the trail agree with the number of literals.
    pub open spec fn tables_ok(&self) -> bool {
        &&& self.lits % 2 == 0
        &&& self.size % 2 == 0
        &&& self.lits <= self.size
        &&& self.lits <= 0x4000_0000
        &&& self.size <= 0x8000_0000
        &&& self.values@.len() == self.size
        &&& self.failed@.len() == self.size
        &&& self.watches@.len() == self.size
        &&& self.vars@.len() == self.size / 2
        &&& self.links@.len() == self.size / 2
        &&& self.marks@.len() == self.size / 2
        &&& self.phases@.len() == self.size / 2
        &&& values_ok(self.values@, self.lits as int)
        &&& self.unassigned == count_unassigned(self.values@, self.nvars())
        &&& klauses_ok(self.klauses@, self.lits as int, self.antecedents)
        &&& watches_ok(self.watches@, self.klauses@, self.lits as int)
        &&& queue_ok(self.links@, self.queue, self.order@, self.nvars())
        &&& search_ok(self.queue, self.order@, self.values@)
        &&& lits_below(self.trail@, self.lits as int)
        &&& lits_below(self.assumptions@, self.lits as int)
    }

    /// The structural invariant, marks and scratch stacks aside.
    #[verifier::opaque]
    pub open spec fn wf_core(&self) -> bool {
        &&& self.tables_ok()
        &&& self.import@.len() == self.esize
        &&& self.evars <= self.esize
        &&& self.esize <= 0x4000_0000
        &&& self.evars <= 0x2000_0000
        &&& self.export_@.len() == self.nvars()
        &&& import_ok(self.import@, self.export_@, self.evars as int)
        &&& self.end_original_ref <= self.klauses@.len()
        &&& forall|i: int| 0 <= i < self.units@.len() ==> (#[trigger] self.units@[i] as int) < self.klauses@.len()
            && self.klauses@[self.units@[i] as int].lits@.len() == 1
        &&& forall|i: int| 0 <= i < self.core@.len() ==> (#[trigger] self.core@[i] as int) < self.klauses@.len()
        &&& (self.inconsistent == INVALID || (self.inconsistent as int) < self.klauses@.len())
        &&& (self.failing == INVALID || (self.failing as int) < self.klauses@.len())
        &&& distinct_vars(self.trail@)
        &&& forall|i: int| 0 <= i < self.trail@.len() ==> self.values@[#[trigger] self.trail@[i] as int] != 0
        &&& self.trail@.len() + self.unassigned <= self.nvars()
        &&& self.propagated <= self.trail@.len()
        &&& self.assumptions@.len() < 0x7fff_ffff
        &&& (self.status == 0 || self.status == 10 || self.status == 20 || self.status == 21)
        &&& forall|v: int| 0 <= v < self.phases@.len() ==> #[trigger] self.phases@[v] <= 1
    }
}

/*------------------------------------------------------------------------*/
// Construction and reset.

/// The readable name of a solver status.
pub fn status_to_string(status: i32) -> (r: &'static str)
    ensures
        r@ == (if status == 10 {
            "formula satisfied"@
        } else if status == 20 {
            "formula inconsistent"@
        } else if status == 21 {
            "formula inconsistent and core computed"@
        } else {
            "formula unsolved"@
        }),
{
    if status == 10 {
        "formula satisfied"
    } else if status == 20 {
        "formula inconsistent"
    } else if status == 21 {
        "formula inconsistent and core computed"
    } else {
        "formula unsolved"
    }
}

/// Sets the cursors to "none", lifts the ticks limit and seeds the
/// generator with the number of initializations so far.
fn initialize_kitten(kitten: &mut Kitten)
    ensures
        final(kitten).queue.first == INVALID,
        final(kitten).queue.last == INVALID,
        final(kitten).queue.search == INVALID,
        final(kitten).queue.stamp == old(kitten).queue.stamp,
        final(kitten).inconsistent == INVALID,
        final(kitten).failing == INVALID,
        final(kitten).limits.ticks == u64::MAX,
        final(kitten).generator == old(kitten).initialized,
        final(kitten).initialized == old(kitten).initialized.wrapping_add(1),
        final(kitten).status == old(kitten).status,
        final(kitten).antecedents == old(kitten).antecedents,
        final(kitten).learned == old(kitten).learned,
        final(kitten).level == old(kitten).level,
        final(kitten).propagated == old(kitten).propagated,
        final(kitten).unassigned == old(kitten).unassigned,
        final(kitten).lits == old(kitten).lits,
        final(kitten).evars == old(kitten).evars,
        final(kitten).end_original_ref == old(kitten).end_original_ref,
        final(kitten).size == old(kitten).size,
        final(kitten).esize == old(kitten).esize,
        final(kitten).vars == old(kitten).vars,
        final(kitten).links == old(kitten).links,
        final(kitten).marks == old(kitten).marks,
        final(kitten).values == old(kitten).values,
        final(kitten).failed == old(kitten).failed,
        final(kitten).phases == old(kitten).phases,
        final(kitten).import == old(kitten).import,
        final(kitten).watches == old(kitten).watches,
        final(kitten).analyzed == old(kitten).analyzed,
        final(kitten).assumptions == old(kitten).assumptions,
        final(kitten).core == old(kitten).core,
        final(kitten).eclause == old(kitten).eclause,
        final(kitten).export_ == old(kitten).export_,
        final(kitten).klause == old(kitten).klause,
        final(kitten).klauses == old(kitten).klauses,
        final(kitten).resolved == old(kitten).resolved,
        final(kitten).trail == old(kitten).trail,
        final(kitten).units == old(kitten).units,
        final(kitten).order == old(kitten).order,
{
    kitten.queue.first = INVALID;
    kitten.queue.last = INVALID;
    kitten.inconsistent = INVALID;
    kitten.failing = INVALID;
    kitten.queue.search = INVALID;
    kitten.limits.ticks = u64::MAX;
    kitten.generator = kitten.initialized;
    kitten.initialized = kitten.initialized.wrapping_add(1);
}

/// A fresh, empty solver.
pub fn kitten_embedded() -> (r: Box<Kitten>)
    ensures
        r.wf(),
        r.status == 0,
        r.nvars() == 0,
        r.klauses@.len() == 0,
        r.assumptions@.len() == 0,
        !r.antecedents,
        r.limits.ticks == u64::MAX,
        r.generator == 0,
        r.evars == 0,
{
    let mut kitten = Kitten {
        status: 0,
        antecedents: false,
        learned: false,
        level: 0,
        propagated: 0,
        unassigned: 0,
        inconsistent: 0,
        failing: 0,
        generator: 0,
        lits: 0,
        evars: 0,
        end_original_ref: 0,
        queue: Kueue { first: 0, last: 0, stamp: 0, search: 0 },
        size: 0,
        esize: 0,
        vars: Vec::new(),
        links: Vec::new(),
        marks: Vec::new(),
        values: Vec::new(),
        failed: Vec::new(),
        phases: Vec::new(),
        import: Vec::new(),
        watches: Vec::new(),
        analyzed: Vec::new(),
        assumptions: Vec::new(),
        core: Vec::new(),
        eclause: Vec::new(),
        export_: Vec::new(),
        klause: Vec::new(),
        klauses: Vec::new(),
        resolved: Vec::new(),
        trail: Vec::new(),
        units: Vec::new(),
        limits: Kimits { ticks: 0 },
        initialized: 0,
        order: Ghost(Seq::empty()),
    };
    initialize_kitten(&mut kitten);
    proof {
        reveal(linked);
        reveal(stamped);
        reveal(Kitten::wf_core);
    }
    Box::new(kitten)
}

/// Starts tracking antecedents of learned klauses (needed for cores).
pub fn kitten_track_antecedents(kitten: &mut Kitten)
    requires
        old(kitten).wf(),
        old(kitten).status == 0,
        !old(kitten).learned,
    ensures
        final(kitten).wf(),
        *final(kitten) == (Kitten { antecedents: true, ..*old(kitten) }),
{
    kitten.antecedents = true;
    proof {
        reveal(Kitten::wf_core);
        assert forall|r: int| 0 <= r < kitten.klauses@.len() implies klause_ok(#[trigger] kitten.klauses@[r], r, kitten.lits as int, true) by {
            assert(klause_ok(old(kitten).klauses@[r], r, kitten.lits as int, old(kitten).antecedents));
        }
    }
}

/// Lifts the propagation ticks limit.
pub fn kitten_no_ticks_limit(kitten: &mut Kitten)
    ensures
        *final(kitten) == (Kitten { limits: Kimits { ticks: u64::MAX }, ..*old(kitten) }),
{
    kitten.limits.ticks = u64::MAX;
}

/// Limits propagation to `delta` more ticks from the current tick count
/// (saturating at the maximum).
pub fn kitten_set_ticks_limit(kitten: &mut Kitten, stats: &KittenStatistics, delta: u64)
    ensures
        *final(kitten) == (Kitten {
            limits: Kimits {
                ticks: if u64::MAX - delta <= stats.kitten_ticks {
                    u64::MAX
                } else {
                    (stats.kitten_ticks + delta) as u64
                },
            },
            ..*old(kitten)
        }),
{
    let current = stats.kitten_ticks;
    let limit = if u64::MAX - delta <= current { u64::MAX } else { current + delta };
    kitten.limits.ticks = limit;
}

/// The current status: 0 unknown, 10 satisfiable, 20 unsatisfiable,
/// 21 unsatisfiable with a computed core.
pub fn kitten_status(kitten: &Kitten) -> (r: i32)
    ensures
        r == kitten.status,
{
    kitten.status
}

/// Flips the phase of every variable (bit 0 of each phase byte).
pub fn kitten_flip_phases(kitten: &mut Kitten)
    requires
        old(kitten).wf(),
    ensures
        final(kitten).wf(),
        final(kitten).phases@.len() == old(kitten).phases@.len(),
        forall|i: int| 0 <= i < old(kitten).phases@.len() ==> #[trigger] final(kitten).phases@[i] == old(kitten).phases@[i] ^ 1u8,
        *final(kitten) == (Kitten { phases: final(kitten).phases, ..*old(kitten) }),
{
    proof {
        lemma_wf_sizes(kitten);
    }
    let vars = kitten.size / 2;
    let mut i: usize = 0;
    while i < vars
        invariant
            vars == kitten.size / 2,
            kitten.phases@.len() == vars,
            old(kitten).phases@.len() == vars,
            i <= vars,
            forall|j: int| 0 <= j < i ==> #[trigger] kitten.phases@[j] == old(kitten).phases@[j] ^ 1u8,
            forall|j: int| i <= j < vars ==> #[trigger] kitten.phases@[j] == old(kitten).phases@[j],
            *kitten == (Kitten { phases: kitten.phases, ..*old(kitten) }),
        decreases vars - i,
    {
        let p = kitten.phases[i];
        kitten.phases[i] = p ^ 1;
        i += 1;
    }
    proof {
        reveal(Kitten::wf_core);
        assert forall|v: int| 0 <= v < kitten.phases@.len() implies #[trigger] kitten.phases@[v] <= 1 by {
            let p = old(kitten).phases@[v];
            assert(p <= 1 ==> p ^ 1u8 <= 1) by (bit_vector);
        }
        lemma_wf_frame_phases(*old(kitten), *kitten);
    }
}

/// The sizes of the per-variable and per-literal tables.
pub(crate) proof fn lemma_wf_sizes(k: &Kitten)
    requires
        k.wf_core(),
    ensures
        k.lits % 2 == 0,
        k.size % 2 == 0,
        k.lits <= k.size <= 0x8000_0000,
        k.lits <= 0x4000_0000,
        k.values@.len() == k.size,
        k.failed@.len() == k.size,
        k.watches@.len() == k.size,
        k.vars@.len() == k.size / 2,
        k.links@.len() == k.size / 2,
        k.marks@.len() == k.size / 2,
        k.phases@.len() == k.size / 2,
        k.import@.len() == k.esize,
        k.evars <= k.esize <= 0x4000_0000,
        k.export_@.len() == k.nvars(),
        k.klauses@.len() < MAX_KLAUSES,
        k.propagated <= k.trail@.len(),
        k.trail@.len() + k.unassigned <= k.nvars(),
        k.assumptions@.len() < 0x7fff_ffff,
        k.end_original_ref <= k.klauses@.len(),
{
    reveal(Kitten::wf_core);
}

/// The core invariant does not depend on the marks' contents or the
/// scratch stacks.
proof fn lemma_wf_core_scratch(a: Kitten, b: Kitten)
    requires
        a.wf_core(),
        b == (Kitten { marks: b.marks, analyzed: b.analyzed, klause: b.klause, resolved: b.resolved, eclause: b.eclause, ..a }),
        b.marks@.len() == a.marks@.len(),
    ensures
        b.wf_core(),
{
    reveal(Kitten::wf_core);
}

/// The invariant does not depend on the phases (beyond their number), the
/// generator or the ticks limit.
proof fn lemma_wf_frame_phases(a: Kitten, b: Kitten)
    requires
        a.wf(),
        b == (Kitten { phases: b.phases, generator: b.generator, limits: b.limits, ..a }),
        b.phases@.len() == a.phases@.len(),
        forall|v: int| 0 <= v < b.phases@.len() ==> #[trigger] b.phases@[v] <= 1,
    ensures
        b.wf(),
{
    reveal(Kitten::wf_core);
}

/// Bit `b` of `x` as a phase (0 or 1).
pub open spec fn bit_at(x: u64, b: u64) -> u8 {
    ((x >> b) & 1u64) as u8
}

/// The generator after `n` steps.
pub open spec fn lcg_iter(g: u64, n: nat) -> u64
    decreases n,
{
    if n == 0 { g } else { lcg_step(lcg_iter(g, (n - 1) as nat)) }
}

/// The phase `kitten_randomize_phases` gives variable `i` of `vars` when
/// the generator starts at `g`: full blocks of 64 variables take their
/// phases from one draw each, byte `8k + j` of a block from bit `8j + k`;
/// the remaining variables take consecutive bits of one more draw.
pub open spec fn random_phase(g: u64, vars: int, i: int) -> u8 {
    let rest = vars - vars % 64;
    if i < rest {
        let t = i % 64;
        bit_at(lcg_iter(g, (i / 64 + 1) as nat), (8 * (t % 8) + t / 8) as u64)
    } else {
        bit_at(lcg_iter(g, (rest / 64 + 1) as nat), (i - rest) as u64)
    }
}

/// Fills the 64 phases of the block starting at `i` from one draw.
#[verifier::rlimit(40)]
#[verifier::spinoff_prover]
fn fill_phase_block(phases: &mut Vec<u8>, i: usize, random: u64, Ghost(g0): Ghost<u64>, Ghost(vars): Ghost<int>)
    requires
        old(phases)@.len() == vars,
        i % 64 == 0,
        i + 64 <= vars - vars % 64,
        random == lcg_iter(g0, (i / 64 + 1) as nat),
    ensures
        final(phases)@.len() == vars,
        forall|x: int| i <= x < i + 64 ==> #[trigger] final(phases)@[x] == random_phase(g0, vars, x),
        forall|x: int| 0 <= x < vars && !(i <= x < i + 64) ==> #[trigger] final(phases)@[x] == old(phases)@[x],
{
    let mut k: usize = 0;
    while k < 8
        invariant
            phases@.len() == vars,
            i % 64 == 0,
            i + 64 <= vars - vars % 64,
            k <= 8,
            random == lcg_iter(g0, (i / 64 + 1) as nat),
            forall|x: int| i <= x < i + 64 && (x - i) / 8 < k ==> #[trigger] phases@[x] == random_phase(g0, vars, x),
            forall|x: int| 0 <= x < vars && !(i <= x < i + 8 * k) ==> #[trigger] phases@[x] == old(phases)@[x],
        decreases 8 - k,
    {
        let word: u64 = (random >> k) & 0x0101010101010101u64;
        let mut j: usize = 0;
        while j < 8
            invariant
                phases@.len() == vars,
                i % 64 == 0,
                i + 64 <= vars - vars % 64,
                k < 8,
                j <= 8,
                word == (random >> k) & 0x0101010101010101u64,
                random == lcg_iter(g0, (i / 64 + 1) as nat),
                forall|x: int| i <= x < i + 64 && ((x - i) / 8 < k || ((x - i) / 8 == k && (x - i) % 8 < j)) ==> #[trigger] phases@[x] == random_phase(g0, vars, x),
                forall|x: int| 0 <= x < vars && !(i <= x < i + 8 * k + j) ==> #[trigger] phases@[x] == old(phases)@[x],
            decreases 8 - j,
        {
            let b: u8 = ((word >> (8 * j as u64)) & 0xff) as u8;
            proof {
                let kk = k as u64;
                let jj = j as u64;
                assert((((random >> kk) & 0x0101010101010101u64) >> (8 * jj)) & 0xffu64 == (random >> (8 * jj + kk)) & 1u64) by (bit_vector)
                    requires
                        kk < 8,
                        jj < 8,
                ;
                let x = i + 8 * k + j;
                assert((x - i) / 8 == k && (x - i) % 8 == j);
                assert(x % 64 == 8 * k + j);
                assert(x / 64 == i / 64);
                assert(((x % 64) % 8) == j && (x % 64) / 8 == k);
            }
            phases.set(i + 8 * k + j, b);
            j += 1;
        }
        k += 1;
    }
}

/// Sets every phase from the generator, 64 phases per draw.
#[verifier::rlimit(50)]
#[verifier::spinoff_prover]
fn randomize_phase_table(phases: &mut Vec<u8>, generator: &mut u64)
    requires
        old(phases)@.len() <= 0x4000_0000,
    ensures
        final(phases)@.len() == old(phases)@.len(),
        forall|i: int| 0 <= i < old(phases)@.len() ==>
            #[trigger] final(phases)@[i] == random_phase(*old(generator), old(phases)@.len() as int, i),
        *final(generator) == lcg_iter(*old(generator), (old(phases)@.len() as int / 64 + 1) as nat),
{
    let vars = phases.len();
    let ghost g0 = *generator;
    let mut random = next_random64(generator);
    proof {
        assert(lcg_iter(g0, 0) == g0);
        assert(lcg_iter(g0, 1) == lcg_step(lcg_iter(g0, 0)));
    }
    let mut i: usize = 0;
    let rest = vars - vars % 64;
    while i != rest
        invariant
            phases@.len() == vars,
            vars <= 0x4000_0000,
            rest == vars - vars % 64,
            i <= rest,
            i % 64 == 0,
            random == lcg_iter(g0, (i / 64 + 1) as nat),
            *generator == random,
            forall|j: int| 0 <= j < i ==> #[trigger] phases@[j] == random_phase(g0, vars as int, j),
        decreases rest - i,
    {
        let ghost before = phases@;
        fill_phase_block(phases, i, random, Ghost(g0), Ghost(vars as int));
        proof {
            assert forall|j: int| 0 <= j < i + 64 implies #[trigger] phases@[j] == random_phase(g0, vars as int, j) by {
                if j < i {
                    assert(phases@[j] == before[j]);
                }
            }
            assert((i + 64) / 64 == i / 64 + 1);
            assert(rest - i >= 64);
        }
        random = next_random64(generator);
        i += 64;
    }
    let mut shift: u64 = 0;
    while i != vars
        invariant
            phases@.len() == vars,
            rest == vars - vars % 64,
            rest <= i <= vars,
            shift == i - rest,
            shift < 64 || i == vars,
            random == lcg_iter(g0, (rest / 64 + 1) as nat),
            *generator == random,
            forall|j: int| 0 <= j < i ==> #[trigger] phases@[j] == random_phase(g0, vars as int, j),
        decreases vars - i,
    {
        phases.set(i, ((random >> shift) & 1) as u8);
        shift += 1;
        i += 1;
    }
}

/// Sets every phase from the generator, 64 phases per draw.
pub fn kitten_randomize_phases(kitten: &mut Kitten)
    requires
        old(kitten).wf(),
    ensures
        final(kitten).wf(),
        final(kitten).phases@.len() == old(kitten).phases@.len(),
        forall|i: int| 0 <= i < old(kitten).phases@.len() ==>
            #[trigger] final(kitten).phases@[i] == random_phase(old(kitten).generator, old(kitten).size as int / 2, i),
        final(kitten).generator == lcg_iter(old(kitten).generator, (old(kitten).size as int / 2 / 64 + 1) as nat),
        *final(kitten) == (Kitten { phases: final(kitten).phases, generator: final(kitten).generator, ..*old(kitten) }),
{
    proof {
        lemma_wf_sizes(kitten);
    }
    randomize_phase_table(&mut kitten.phases, &mut kitten.generator);
    proof {
        assert forall|v: int| 0 <= v < kitten.phases@.len() implies #[trigger] kitten.phases@[v] <= 1 by {
            let g = old(kitten).generator;
            let n = old(kitten).size as int / 2;
            let rest = n - n % 64;
            let x = if v < rest { lcg_iter(g, (v / 64 + 1) as nat) } else { lcg_iter(g, (rest / 64 + 1) as nat) };
            let b: u64 = if v < rest { (8 * ((v % 64) % 8) + (v % 64) / 8) as u64 } else { (v - rest) as u64 };
            assert(((x >> b) & 1u64) as u8 <= 1) by (bit_vector);
        }
        lemma_wf_frame_phases(*old(kitten), *kitten);
    }
}

/*------------------------------------------------------------------------*/
// Counting unassigned variables.

proof fn lemma_count_bounds(values: Seq<i8>, n: int)
    requires
        n >= 0,
    ensures
        0 <= count_unassigned(values, n) <= n,
    decreases n,
{
    if n > 0 {
        lemma_count_bounds(values, n - 1);
    }
}

proof fn lemma_count_frame(a: Seq<i8>, b: Seq<i8>, n: int)
    requires
        forall|v: int| 0 <= v < n ==> #[trigger] a[2 * v] == b[2 * v],
    ensures
        count_unassigned(a, n) == count_unassigned(b, n),
    decreases n,
{
    if n > 0 {
        lemma_count_frame(a, b, n - 1);
    }
}

/// Assigning (or unassigning) one variable changes the count by one.
proof fn lemma_count_flip(a: Seq<i8>, b: Seq<i8>, n: int, w: int)
    requires
        0 <= w < n,
        forall|v: int| 0 <= v < n && v != w ==> #[trigger] a[2 * v] == b[2 * v],
    ensures
        a[2 * w] == 0 && b[2 * w] != 0 ==> count_unassigned(b, n) == count_unassigned(a, n) - 1,
        a[2 * w] != 0 && b[2 * w] == 0 ==> count_unassigned(b, n) == count_unassigned(a, n) + 1,
        (a[2 * w] == 0) == (b[2 * w] == 0) ==> count_unassigned(b, n) == count_unassigned(a, n),
    decreases n,
{
    if n - 1 == w {
        lemma_count_frame(a, b, n - 1);
    } else {
        lemma_count_flip(a, b, n - 1, w);
    }
}

/// All variables are assigned exactly when none is counted.
pub(crate) proof fn lemma_count_zero(values: Seq<i8>, n: int)
    requires
        n >= 0,
    ensures
        (count_unassigned(values, n) == 0) == (forall|v: int| 0 <= v < n ==> #[trigger] values[2 * v] != 0),
    decreases n,
{
    lemma_count_bounds(values, n);
    if n > 0 {
        lemma_count_zero(values, n - 1);
        lemma_count_bounds(values, n - 1);
    }
}

/// An assigned variable leaves the count below `n`.
proof fn lemma_count_assigned(values: Seq<i8>, n: int, w: int)
    requires
        0 <= w < n,
        values[2 * w] != 0,
    ensures
        count_unassigned(values, n) < n,
    decreases n,
{
    lemma_count_bounds(values, n - 1);
    if w < n - 1 {
        lemma_count_assigned(values, n - 1, w);
    }
}

/*------------------------------------------------------------------------*/
// The decision queue.

pub(crate) proof fn lemma_linked_at(links: Seq<Kink>, q: Kueue, o: Seq<u32>, i: int)
    requires
        linked(links, q, o),
        0 <= i < o.len(),
    ensures
        (o[i] as int) < links.len(),
        o[i] != INVALID,
        links[o[i] as int].prev == (if i == 0 { INVALID } else { o[i - 1] }),
        links[o[i] as int].next == (if i == o.len() - 1 { INVALID } else { o[i + 1] }),
        forall|j: int| 0 <= j < o.len() && j != i ==> o[j] != o[i],
        o.len() > 0 ==> q.first == o[0] && q.last == o.last(),
{
    reveal(linked);
}

pub(crate) proof fn lemma_linked_empty(links: Seq<Kink>, q: Kueue, o: Seq<u32>)
    requires
        linked(links, q, o),
    ensures
        forall|j: int| 0 <= j < o.len() ==> (#[trigger] o[j] as int) < links.len(),
        o.len() <= links.len(),
        o.len() == 0 ==> q.first == INVALID && q.last == INVALID,
        o.len() > 0 ==> q.first == o[0] && q.last == o.last(),
        o.no_duplicates(),
{
    reveal(linked);
    let si = o.map_values(|x: u32| x as int);
    assert forall|a: int, b: int| 0 <= a < si.len() && 0 <= b < si.len() && a != b implies si[a] != si[b] by {
        assert(o[a] != o[b]);
    }
    crate::seqs::lemma_distinct_bounded(si, links.len() as int);
}

proof fn lemma_linked_frame(l1: Seq<Kink>, l2: Seq<Kink>, q: Kueue, q2: Kueue, o: Seq<u32>)
    requires
        linked(l1, q, o),
        q2.first == q.first,
        q2.last == q.last,
        l1.len() == l2.len(),
        forall|v: int| 0 <= v < l1.len() ==> (#[trigger] l2[v]).prev == l1[v].prev && l2[v].next == l1[v].next,
    ensures
        linked(l2, q2, o),
{
    reveal(linked);
    assert forall|i: int| #![trigger o[i]] 0 <= i < o.len() implies l2[o[i] as int].prev == (if i == 0 {
        INVALID
    } else {
        o[i - 1]
    }) && l2[o[i] as int].next == (if i == o.len() - 1 {
        INVALID
    } else {
        o[i + 1]
    }) by {
        assert(l2[o[i] as int].prev == l1[o[i] as int].prev);
    }
}

pub(crate) proof fn lemma_remove_no_duplicates(o: Seq<u32>, k: int)
    requires
        o.no_duplicates(),
        0 <= k < o.len(),
    ensures
        o.remove(k).no_duplicates(),
        forall|x: u32| o.remove(k).contains(x) <==> (o.contains(x) && x != o[k]),
{
    crate::queue::lemma_remove_no_duplicates(o, k);
}

#[verifier::rlimit(40)]
#[verifier::spinoff_prover]
proof fn lemma_linked_remove(ol: Seq<Kink>, q: Kueue, o: Seq<u32>, k: int, nl: Seq<Kink>, nq: Kueue)
    requires
        linked(ol, q, o),
        0 <= k < o.len(),
        nl.len() == ol.len(),
        ({
            let i = o[k];
            let j = ol[i as int].prev;
            let n = ol[i as int].next;
            &&& j != INVALID ==> nl[j as int].next == n && nl[j as int].prev == ol[j as int].prev
            &&& n != INVALID ==> nl[n as int].prev == j && nl[n as int].next == ol[n as int].next
            &&& forall|v: int| 0 <= v < nl.len() && v != i && v != j && v != n ==> nl[v].prev == ol[v].prev && nl[v].next == ol[v].next
            &&& nq.first == (if j == INVALID { n } else { q.first })
            &&& nq.last == (if n == INVALID { j } else { q.last })
        }),
    ensures
        linked(nl, nq, o.remove(k)),
{
    reveal(linked);
    let i = o[k];
    let r = o.remove(k);
    lemma_remove_no_duplicates(o, k);
    assert(ol[o[k] as int].prev == (if k == 0 { INVALID } else { o[k - 1] }));
    assert(ol[o[k] as int].next == (if k == o.len() - 1 { INVALID } else { o[k + 1] }));
    assert forall|x: int| #![trigger r[x]] 0 <= x < r.len() implies nl[r[x] as int].prev == (if x == 0 {
        INVALID
    } else {
        r[x - 1]
    }) && nl[r[x] as int].next == (if x == r.len() - 1 {
        INVALID
    } else {
        r[x + 1]
    }) by {
        let x2 = if x < k { x } else { x + 1 };
        assert(r[x] == o[x2]);
        assert(o[x2] != i);
        assert(ol[o[x2] as int].prev == (if x2 == 0 { INVALID } else { o[x2 - 1] }));
        assert(ol[o[x2] as int].next == (if x2 == o.len() - 1 { INVALID } else { o[x2 + 1] }));
        if k > 0 {
            assert(o[k - 1] != i);
        }
        if k < o.len() - 1 {
            assert(o[k + 1] != i);
        }
        if k > 0 && k < o.len() - 1 {
            assert(o[k - 1] != o[k + 1]);
        }
        if x > 0 {
            let y2 = if x - 1 < k { x - 1 } else { x };
            assert(r[x - 1] == o[y2]);
        }
        if x < r.len() - 1 {
            let y2 = if x + 1 < k { x + 1 } else { x + 2 };
            assert(r[x + 1] == o[y2]);
        }
        if x2 == k - 1 {
            assert(o[x2] == ol[i as int].prev);
        } else if x2 == k + 1 {
            assert(o[x2] == ol[i as int].next);
        } else {
            if k > 0 {
                assert(o[x2] != o[k - 1]);
            }
            if k < o.len() - 1 {
                assert(o[x2] != o[k + 1]);
            }
        }
    }
    assert forall|x: int| 0 <= x < r.len() implies (#[trigger] r[x] as int) < nl.len() && r[x] != INVALID by {
        let x2 = if x < k { x } else { x + 1 };
        assert(r[x] == o[x2]);
    }
    if r.len() > 0 {
        if k == 0 {
            assert(r[0] == o[1]);
        } else {
            assert(r[0] == o[0]);
        }
        if k == o.len() - 1 {
            assert(r.last() == o[k - 1]);
        } else {
            assert(r.last() == o.last());
        }
    }
}

/// Unlinks `idx` (at position `k` of the queue order).
pub(crate) fn dequeue(links: &mut Vec<Kink>, queue: &mut Kueue, idx: u32, Ghost(order): Ghost<Seq<u32>>, Ghost(k): Ghost<int>)
    requires
        linked(old(links)@, *old(queue), order),
        0 <= k < order.len(),
        order[k] == idx,
    ensures
        linked(final(links)@, *final(queue), order.remove(k)),
        final(links)@.len() == old(links)@.len(),
        forall|v: int| 0 <= v < old(links)@.len() ==> (#[trigger] final(links)@[v]).stamp == old(links)@[v].stamp,
        final(queue).stamp == old(queue).stamp,
        final(queue).search == old(queue).search,
{
    let ghost ol = links@;
    let ghost oq = *queue;
    proof {
        lemma_linked_at(ol, oq, order, k);
        if k > 0 {
            lemma_linked_at(ol, oq, order, k - 1);
        }
        if k < order.len() - 1 {
            lemma_linked_at(ol, oq, order, k + 1);
        }
    }
    let l = links[idx as usize];
    let prev = l.prev;
    let next = l.next;
    if prev == INVALID {
        queue.first = next;
    } else {
        links[prev as usize].next = next;
    }
    if next == INVALID {
        queue.last = prev;
    } else {
        links[next as usize].prev = prev;
    }
    proof {
        lemma_linked_remove(ol, oq, order, k, links@, *queue);
    }
}

#[verifier::rlimit(40)]
#[verifier::spinoff_prover]
/// Gives the queued variables fresh stamps `0, 1, ...` in queue order.
fn reassign_stamps(links: &mut Vec<Kink>, queue: &mut Kueue, Ghost(order): Ghost<Seq<u32>>)
    requires
        linked(old(links)@, *old(queue), order),
    ensures
        linked(final(links)@, *final(queue), order),
        stamped(final(links)@, *final(queue), order),
        final(queue).stamp == order.len(),
        final(links)@.len() == old(links)@.len(),
        final(queue).search == old(queue).search,
{
    let ghost ol = links@;
    let n = links.len();
    proof {
        lemma_linked_empty(ol, *queue, order);
        reveal(linked);
    }
    let mut idx = queue.first;
    let mut s: u64 = 0;
    let ghost mut i: int = 0;
    while idx != INVALID
        invariant
            linked(ol, *queue, order),
            links@.len() == ol.len(),
            order.no_duplicates(),
            order.len() <= ol.len(),
            n == ol.len(),
            forall|j: int| 0 <= j < order.len() ==> (#[trigger] order[j] as int) < ol.len() && order[j] != INVALID,
            forall|v: int| 0 <= v < ol.len() ==> (#[trigger] links@[v]).prev == ol[v].prev && links@[v].next == ol[v].next,
            0 <= i <= order.len(),
            s == i,
            idx == (if i < order.len() { order[i] } else { INVALID }),
            forall|j: int| 0 <= j < i ==> links@[#[trigger] order[j] as int].stamp == j,
        decreases order.len() - i,
    {
        proof {
            lemma_linked_empty(ol, *queue, order);
            if i >= order.len() {
                assert(false);
            }
            lemma_linked_at(ol, *queue, order, i);
        }
        links[idx as usize].stamp = s;
        let next = links[idx as usize].next;
        proof {
            assert forall|j: int| 0 <= j < i + 1 implies links@[#[trigger] order[j] as int].stamp == j by {
                if j < i {
                    assert(order[j] != order[i]);
                }
            }
            i = i + 1;
        }
        idx = next;
        s = s + 1;
    }
    let ghost q0 = *queue;
    queue.stamp = s;
    proof {
        lemma_linked_frame(ol, links@, q0, *queue, order);
        reveal(stamped);
        if i < order.len() {
            assert(order[i] != INVALID);
        }
        assert(i == order.len());
    }
}

#[verifier::rlimit(40)]
#[verifier::spinoff_prover]
proof fn lemma_linked_push(ol: Seq<Kink>, oq: Kueue, o: Seq<u32>, idx: u32, nl: Seq<Kink>, nq: Kueue)
    requires
        linked(ol, oq, o),
        stamped(ol, oq, o),
        (idx as int) < ol.len(),
        idx != INVALID,
        !o.contains(idx),
        nl.len() == ol.len(),
        oq.last != INVALID ==> nl[oq.last as int].next == idx && nl[oq.last as int].prev == ol[oq.last as int].prev
            && nl[oq.last as int].stamp == ol[oq.last as int].stamp,
        nl[idx as int].prev == oq.last,
        nl[idx as int].next == INVALID,
        nl[idx as int].stamp == oq.stamp,
        forall|v: int| 0 <= v < nl.len() && v != idx && v != oq.last ==> #[trigger] nl[v] == ol[v],
        nq.first == (if oq.last == INVALID { idx } else { oq.first }),
        nq.last == idx,
        nq.stamp == oq.stamp + 1,
    ensures
        linked(nl, nq, o.push(idx)),
        stamped(nl, nq, o.push(idx)),
{
    reveal(linked);
    reveal(stamped);
    let no = o.push(idx);
    assert forall|a: int, b: int| 0 <= a < no.len() && 0 <= b < no.len() && a != b implies no[a] != no[b] by {
        if a < o.len() && b < o.len() {
        } else if a == o.len() {
            assert(o.contains(no[b]) || b == o.len());
        } else {
            assert(o.contains(no[a]));
        }
    }
    assert forall|x: int| #![trigger no[x]] 0 <= x < no.len() implies nl[no[x] as int].prev == (if x == 0 {
        INVALID
    } else {
        no[x - 1]
    }) && nl[no[x] as int].next == (if x == no.len() - 1 {
        INVALID
    } else {
        no[x + 1]
    }) by {
        if x < o.len() {
            assert(no[x] == o[x]);
            assert(o[x] != idx);
            if x == o.len() - 1 {
                assert(o[x] == oq.last);
            } else {
                assert(o[x] != oq.last);
            }
        }
    }
    assert forall|a: int, b: int|
        #![trigger no[a], no[b]]
        0 <= a < b < no.len() implies nl[no[a] as int].stamp < nl[no[b] as int].stamp by {
        assert(no[a] == o[a]);
        assert(o[a] != idx);
        if b < o.len() {
            assert(o[b] != idx);
        }
    }
    assert forall|a: int| 0 <= a < no.len() implies nl[#[trigger] no[a] as int].stamp < nq.stamp by {
        if a < o.len() {
            assert(o[a] != idx);
        }
    }
}

/// Appends `idx` to the queue with the next stamp.
pub(crate) fn enqueue(links: &mut Vec<Kink>, queue: &mut Kueue, idx: u32, Ghost(order): Ghost<Seq<u32>>)
    requires
        linked(old(links)@, *old(queue), order),
        stamped(old(links)@, *old(queue), order),
        (idx as int) < old(links)@.len(),
        old(links)@.len() <= 0x8000_0000,
        idx != INVALID,
        !order.contains(idx),
    ensures
        linked(final(links)@, *final(queue), order.push(idx)),
        stamped(final(links)@, *final(queue), order.push(idx)),
        final(links)@.len() == old(links)@.len(),
        final(queue).search == old(queue).search,
{
    let n = links.len();
    proof {
        lemma_linked_empty(links@, *queue, order);
    }
    if queue.stamp == u64::MAX {
        reassign_stamps(links, queue, Ghost(order));
        assert(queue.stamp <= n);
    }
    let ghost ol = links@;
    let ghost oq = *queue;
    proof {
        lemma_linked_empty(ol, oq, order);
        if order.len() > 0 {
            lemma_linked_at(ol, oq, order, order.len() - 1);
        }
        reveal(stamped);
    }
    let last = queue.last;
    if last == INVALID {
        queue.first = idx;
    } else {
        links[last as usize].next = idx;
    }
    links[idx as usize].prev = last;
    links[idx as usize].next = INVALID;
    queue.last = idx;
    links[idx as usize].stamp = queue.stamp;
    queue.stamp = queue.stamp + 1;
    proof {
        if last != INVALID {
            assert(order.contains(last));
        }
        lemma_linked_push(ol, oq, order, idx, links@, *queue);
    }
}

/// Moves the search cursor to `idx`.
pub(crate) fn update_search(queue: &mut Kueue, idx: u32)
    ensures
        *final(queue) == (Kueue { search: idx, ..*old(queue) }),
{
    if queue.search == idx {
        return;
    }
    queue.search = idx;
}

/*------------------------------------------------------------------------*/
// Klause accessors.

impl Kitten {
    /// The identifier of an original klause, or the number of antecedents
    /// of a learned one.
    pub fn k_aux(&self, r: u32) -> (x: u32)
        requires
            (r as int) < self.klauses@.len(),
        ensures
            x == self.klauses@[r as int].aux,
    {
        self.klauses[r as usize].aux
    }

    /// The number of literals of klause `r`.
    pub fn k_size(&self, r: u32) -> (x: u32)
        requires
            (r as int) < self.klauses@.len(),
            self.klauses@[r as int].lits@.len() <= u32::MAX,
        ensures
            x == self.klauses@[r as int].lits@.len(),
    {
        self.klauses[r as usize].lits.len() as u32
    }

    /// The flags of klause `r`.
    pub fn k_flags(&self, r: u32) -> (x: u32)
        requires
            (r as int) < self.klauses@.len(),
        ensures
            x == self.klauses@[r as int].flags,
    {
        self.klauses[r as usize].flags
    }

    /// Literal `i` of klause `r`.
    pub fn k_lit(&self, r: u32, i: u32) -> (x: u32)
        requires
            (r as int) < self.klauses@.len(),
            (i as int) < self.klauses@[r as int].lits@.len(),
        ensures
            x == self.klauses@[r as int].lits@[i as int],
    {
        self.klauses[r as usize].lits[i as usize]
    }

    /// Sets literal `i` of klause `r`.
    pub fn k_set_lit(&mut self, r: u32, i: u32, lit: u32)
        requires
            (r as int) < old(self).klauses@.len(),
            (i as int) < old(self).klauses@[r as int].lits@.len(),
        ensures
            final(self).klauses@.len() == old(self).klauses@.len(),
            final(self).klauses@[r as int].lits@ == old(self).klauses@[r as int].lits@.update(i as int, lit),
            final(self).klauses@[r as int].aux == old(self).klauses@[r as int].aux,
            final(self).klauses@[r as int].flags == old(self).klauses@[r as int].flags,
            final(self).klauses@[r as int].antecedents@ == old(self).klauses@[r as int].antecedents@,
            forall|c: int| 0 <= c < old(self).klauses@.len() && c != r ==> #[trigger] final(self).klauses@[c]
                == old(self).klauses@[c],
            *final(self) == (Kitten { klauses: final(self).klauses, ..*old(self) }),
    {
        self.klauses[r as usize].lits.set(i as usize, lit);
    }

    /// Whether klause `r` is in the clausal core.
    pub fn is_core_klause(&self, r: u32) -> (x: bool)
        requires
            (r as int) < self.klauses@.len(),
        ensures
            x == (self.klauses@[r as int].flags % 2 == 1),
    {
        let f = self.klauses[r as usize].flags;
        proof {
            assert((f & 1u32 != 0) == (f % 2 == 1)) by (bit_vector);
        }
        f & CORE_FLAG != 0
    }

    /// Whether klause `r` was learned.
    pub fn is_learned_klause(&self, r: u32) -> (x: bool)
        requires
            (r as int) < self.klauses@.len(),
        ensures
            x == ((self.klauses@[r as int].flags / 2) % 2 == 1),
    {
        let f = self.klauses[r as usize].flags;
        proof {
            assert((f & 2u32 != 0) == ((f / 2) % 2 == 1)) by (bit_vector);
        }
        f & LEARNED_FLAG != 0
    }

    /// Puts klause `r` into the core.
    pub fn set_core_klause(&mut self, r: u32)
        requires
            (r as int) < old(self).klauses@.len(),
            old(self).klauses@[r as int].flags < 4,
        ensures
            final(self).klauses@.len() == old(self).klauses@.len(),
            final(self).klauses@[r as int].flags == (old(self).klauses@[r as int].flags / 2) * 2 + 1,
            final(self).klauses@[r as int].lits@ == old(self).klauses@[r as int].lits@,
            final(self).klauses@[r as int].aux == old(self).klauses@[r as int].aux,
            final(self).klauses@[r as int].antecedents@ == old(self).klauses@[r as int].antecedents@,
            forall|c: int| 0 <= c < old(self).klauses@.len() && c != r ==> #[trigger] final(self).klauses@[c]
                == old(self).klauses@[c],
            *final(self) == (Kitten { klauses: final(self).klauses, ..*old(self) }),
    {
        let f = self.klauses[r as usize].flags;
        proof {
            assert(f < 4 ==> f | 1u32 == (f / 2) * 2 + 1) by (bit_vector);
        }
        self.klauses[r as usize].flags = f | CORE_FLAG;
    }

    /// Takes klause `r` out of the core.
    pub fn unset_core_klause(&mut self, r: u32)
        requires
            (r as int) < old(self).klauses@.len(),
            old(self).klauses@[r as int].flags < 4,
        ensures
            final(self).klauses@.len() == old(self).klauses@.len(),
            final(self).klauses@[r as int].flags == (old(self).klauses@[r as int].flags / 2) * 2,
            final(self).klauses@[r as int].lits@ == old(self).klauses@[r as int].lits@,
            final(self).klauses@[r as int].aux == old(self).klauses@[r as int].aux,
            final(self).klauses@[r as int].antecedents@ == old(self).klauses@[r as int].antecedents@,
            forall|c: int| 0 <= c < old(self).klauses@.len() && c != r ==> #[trigger] final(self).klauses@[c]
                == old(self).klauses@[c],
            *final(self) == (Kitten { klauses: final(self).klauses, ..*old(self) }),
    {
        let f = self.klauses[r as usize].flags;
        proof {
            assert(f < 4 ==> f & !1u32 == (f / 2) * 2) by (bit_vector);
        }
        self.klauses[r as usize].flags = f & !CORE_FLAG;
    }

    /// Antecedent `i` of the learned klause `r`.
    pub fn k_antecedent(&self, r: u32, i: u32) -> (x: u32)
        requires
            (r as int) < self.klauses@.len(),
            (i as int) < self.klauses@[r as int].antecedents@.len(),
        ensures
            x == self.klauses@[r as int].antecedents@[i as int],
    {
        self.klauses[r as usize].antecedents[i as usize]
    }

    /// The klause after `r`.
    pub fn next_klause(&self, r: u32) -> (x: u32)
        requires
            (r as int) < self.klauses@.len(),
            self.klauses@.len() < MAX_KLAUSES,
        ensures
            x == r + 1,
    {
        r + 1
    }
}

/*------------------------------------------------------------------------*/
// External and internal literals.

/// The internal literal of external literal `elit`, if its variable was
/// imported.
pub open spec fn imported_lit(k: &Kitten, elit: u32) -> Option<int> {
    let eidx = (elit / 2) as int;
    if eidx >= k.evars || k.import@[eidx] == 0 {
        None
    } else {
        Some(2 * (k.import@[eidx] - 1) + (elit % 2) as int)
    }
}

/// The external literal of internal literal `ilit`.
pub fn export_literal(kitten: &Kitten, ilit: u32) -> (r: u32)
    requires
        kitten.wf(),
        (ilit as int) < kitten.lits,
    ensures
        r == 2 * kitten.export_@[(ilit / 2) as int] + ilit % 2,
        imported_lit(kitten, r) == Some(ilit as int),
{
    proof {
        reveal(Kitten::wf_core);
    }
    let iidx = (ilit / 2) as usize;
    let eidx = kitten.export_[iidx];
    proof {
        crate::literal::lemma_sign_bit(ilit);
    }
    2 * eidx + (ilit & 1)
}

/// The value of external literal `elit` in the model found: 0 for
/// literals of variables never imported.
pub fn kitten_value(kitten: &Kitten, elit: u32) -> (r: i8)
    requires
        kitten.wf(),
        kitten.status == 10,
    ensures
        r == (match imported_lit(kitten, elit) {
            Some(l) => kitten.values@[l],
            None => 0,
        }),
{
    proof {
        lemma_wf_sizes(kitten);
        reveal(Kitten::wf_core);
    }
    let eidx = (elit / 2) as usize;
    if eidx >= kitten.evars {
        return 0;
    }
    let iidx = kitten.import[eidx];
    if iidx == 0 {
        return 0;
    }
    proof {
        crate::literal::lemma_sign_bit(elit);
    }
    let ilit = 2 * (iidx - 1) + (elit & 1);
    kitten.values[ilit as usize]
}

/// A literal and its negation are imported together, and their values
/// are opposite: the solver assigns variables, never one literal alone.
pub proof fn lemma_value_of_negation(kitten: &Kitten, elit: u32)
    requires
        kitten.wf(),
    ensures
        match (imported_lit(kitten, elit), imported_lit(kitten, spec_not(elit))) {
            (Some(a), Some(b)) => kitten.values@[b] == -kitten.values@[a],
            (None, None) => true,
            _ => false,
        },
{
    reveal(Kitten::wf_core);
    lemma_wf_sizes(kitten);
    crate::literal::lemma_not_involution(elit);
    if let Some(a) = imported_lit(kitten, elit) {
        let v = kitten.import@[(elit / 2) as int] - 1;
        assert(0 <= v < kitten.nvars());
        assert(2 * v + 1 < kitten.lits);
        assert(kitten.values@[2 * v + 1] == -kitten.values@[2 * v]);
    }
}

/// Exporting the literal an external literal was imported as gives the
/// external literal back.
pub proof fn lemma_export_of_import(kitten: &Kitten, elit: u32)
    requires
        kitten.wf(),
        imported_lit(kitten, elit) is Some,
    ensures
        ({
            let l = imported_lit(kitten, elit)->Some_0;
            &&& 0 <= l < kitten.lits
            &&& 2 * kitten.export_@[l / 2] + l % 2 == elit
        }),
{
    reveal(Kitten::wf_core);
    lemma_wf_sizes(kitten);
}

/// The value of external literal `elit` if it is fixed at the root level,
/// else 0.
pub fn kitten_fixed(kitten: &Kitten, elit: u32) -> (r: i8)
    requires
        kitten.wf(),
    ensures
        r == (match imported_lit(kitten, elit) {
            Some(l) => if kitten.vars@[l / 2].level == 0 { kitten.values@[l] } else { 0 },
            None => 0,
        }),
{
    proof {
        lemma_wf_sizes(kitten);
        reveal(Kitten::wf_core);
    }
    let eidx = (elit / 2) as usize;
    if eidx >= kitten.evars {
        return 0;
    }
    let mut iidx = kitten.import[eidx];
    if iidx == 0 {
        return 0;
    }
    iidx -= 1;
    proof {
        crate::literal::lemma_sign_bit(elit);
    }
    let ilit = 2 * iidx + (elit & 1);
    let res = kitten.values[ilit as usize];
    if res == 0 {
        return 0;
    }
    if kitten.vars[iidx as usize].level != 0 {
        return 0;
    }
    res
}

/// Whether external literal `elit` is among the failed assumptions.
pub fn kitten_failed(kitten: &Kitten, elit: u32) -> (r: bool)
    requires
        kitten.wf(),
        kitten.status == 20,
    ensures
        r == (match imported_lit(kitten, elit) {
            Some(l) => kitten.failed@[l],
            None => false,
        }),
{
    proof {
        lemma_wf_sizes(kitten);
        reveal(Kitten::wf_core);
    }
    let eidx = (elit / 2) as usize;
    if eidx >= kitten.evars {
        return false;
    }
    let iidx = kitten.import[eidx];
    if iidx == 0 {
        return false;
    }
    proof {
        crate::literal::lemma_sign_bit(elit);
    }
    let ilit = 2 * (iidx - 1) + (elit & 1);
    kitten.failed[ilit as usize]
}

/// Releases the solver.
pub fn kitten_release(kitten: Box<Kitten>) {
}

/*------------------------------------------------------------------------*/
// Growing the tables.

/// `b` extends `a` to length `n` with `fill`.
pub open spec fn grown<T>(a: Seq<T>, b: Seq<T>, n: int, fill: T) -> bool {
    &&& b.len() == n
    &&& a.len() <= n
    &&& forall|i: int| 0 <= i < a.len() ==> #[trigger] b[i] == a[i]
    &&& forall|i: int| a.len() <= i < n ==> #[trigger] b[i] == fill
}

fn grow<T: Copy>(v: &mut Vec<T>, n: usize, fill: T)
    requires
        old(v)@.len() <= n,
    ensures
        grown(old(v)@, final(v)@, n as int, fill),
{
    while v.len() < n
        invariant
            old(v)@.len() <= v@.len() <= n,
            forall|i: int| 0 <= i < old(v)@.len() ==> #[trigger] v@[i] == old(v)@[i],
            forall|i: int| old(v)@.len() <= i < v@.len() ==> #[trigger] v@[i] == fill,
        decreases n - v@.len(),
    {
        v.push(fill);
    }
}

fn grow_watches(v: &mut Vec<Vec<Katch>>, n: usize)
    requires
        old(v)@.len() <= n,
    ensures
        final(v)@.len() == n,
        forall|i: int| 0 <= i < old(v)@.len() ==> #[trigger] final(v)@[i] == old(v)@[i],
        forall|i: int| old(v)@.len() <= i < n ==> (#[trigger] final(v)@[i])@.len() == 0,
{
    while v.len() < n
        invariant
            old(v)@.len() <= v@.len() <= n,
            forall|i: int| 0 <= i < old(v)@.len() ==> #[trigger] v@[i] == old(v)@[i],
            forall|i: int| old(v)@.len() <= i < v@.len() ==> (#[trigger] v@[i])@.len() == 0,
        decreases n - v@.len(),
    {
        v.push(Vec::new());
    }
}

/// Grows the per-literal and per-variable tables, if needed doubling
/// their size until `new_lits` fits, and sets the number of literals.
#[verifier::rlimit(40)]
#[verifier::spinoff_prover]
fn enlarge_tables(kitten: &mut Kitten, new_lits: usize)
    requires
        old(kitten).lits < new_lits <= 0x4000_0000,
        new_lits % 2 == 0,
        old(kitten).size % 2 == 0,
        old(kitten).size <= 0x8000_0000,
        old(kitten).values@.len() == old(kitten).size,
        old(kitten).failed@.len() == old(kitten).size,
        old(kitten).watches@.len() == old(kitten).size,
        old(kitten).vars@.len() == old(kitten).size / 2,
        old(kitten).links@.len() == old(kitten).size / 2,
        old(kitten).marks@.len() == old(kitten).size / 2,
        old(kitten).phases@.len() == old(kitten).size / 2,
    ensures
        final(kitten).lits == new_lits,
        new_lits <= final(kitten).size <= 0x8000_0000,
        final(kitten).size % 2 == 0,
        final(kitten).size == (if old(kitten).size < new_lits { final(kitten).size } else { old(kitten).size }),
        grown(old(kitten).values@, final(kitten).values@, final(kitten).size as int, 0i8),
        grown(old(kitten).failed@, final(kitten).failed@, final(kitten).size as int, false),
        grown(old(kitten).vars@, final(kitten).vars@, (final(kitten).size / 2) as int, Kar { level: 0, reason: 0 }),
        grown(old(kitten).links@, final(kitten).links@, (final(kitten).size / 2) as int, Kink { next: 0, prev: 0, stamp: 0 }),
        grown(old(kitten).marks@, final(kitten).marks@, (final(kitten).size / 2) as int, 0i8),
        grown(old(kitten).phases@, final(kitten).phases@, (final(kitten).size / 2) as int, 0u8),
        final(kitten).watches@.len() == final(kitten).size,
        forall|i: int| 0 <= i < old(kitten).size ==> #[trigger] final(kitten).watches@[i] == old(kitten).watches@[i],
        forall|i: int| old(kitten).size <= i < final(kitten).size ==> (#[trigger] final(kitten).watches@[i])@.len() == 0,
        *final(kitten) == (Kitten {
            lits: final(kitten).lits,
            size: final(kitten).size,
            values: final(kitten).values,
            failed: final(kitten).failed,
            vars: final(kitten).vars,
            links: final(kitten).links,
            marks: final(kitten).marks,
            phases: final(kitten).phases,
            watches: final(kitten).watches,
            ..*old(kitten)
        }),
{
    let old_size = kitten.size;
    if old_size < new_lits {
        let mut new_size: usize = if old_size != 0 { 2 * old_size } else { 2 };
        while new_size <= new_lits
            invariant
                new_size % 2 == 0,
                2 <= new_size <= 2 * new_lits,
                new_lits <= 0x4000_0000,
            decreases 2 * new_lits - new_size,
        {
            new_size = new_size * 2;
        }
        grow(&mut kitten.marks, new_size / 2, 0i8);
        grow(&mut kitten.phases, new_size / 2, 0u8);
        grow(&mut kitten.values, new_size, 0i8);
        grow(&mut kitten.failed, new_size, false);
        grow(&mut kitten.vars, new_size / 2, Kar { level: 0, reason: 0 });
        grow(&mut kitten.links, new_size / 2, Kink { next: 0, prev: 0, stamp: 0 });
        grow_watches(&mut kitten.watches, new_size);
        kitten.size = new_size;
    }
    kitten.lits = new_lits;
}

/// Appends the variables `old_vars..new_vars` to the decision queue,
/// counts them as unassigned, and moves the search cursor to the last one.
fn init_queue(kitten: &mut Kitten, old_vars: usize, new_vars: usize)
    requires
        old_vars <= new_vars,
        new_vars * 2 <= old(kitten).size <= 0x8000_0000,
        old(kitten).links@.len() == old(kitten).size / 2,
        linked(old(kitten).links@, old(kitten).queue, old(kitten).order@),
        stamped(old(kitten).links@, old(kitten).queue, old(kitten).order@),
        old(kitten).order@.len() == old_vars,
        forall|i: int| 0 <= i < old(kitten).order@.len() ==> (#[trigger] old(kitten).order@[i] as int) < old_vars,
        old(kitten).unassigned + (new_vars - old_vars) <= u32::MAX,
    ensures
        final(kitten).order@ == old(kitten).order@ + Seq::new((new_vars - old_vars) as nat, |i: int| (old_vars + i) as u32),
        linked(final(kitten).links@, final(kitten).queue, final(kitten).order@),
        stamped(final(kitten).links@, final(kitten).queue, final(kitten).order@),
        final(kitten).links@.len() == old(kitten).links@.len(),
        final(kitten).queue.search == final(kitten).queue.last,
        final(kitten).unassigned == old(kitten).unassigned + (new_vars - old_vars),
        *final(kitten) == (Kitten {
            links: final(kitten).links,
            queue: final(kitten).queue,
            order: final(kitten).order,
            unassigned: final(kitten).unassigned,
            ..*old(kitten)
        }),
{
    let mut idx = old_vars;
    while idx < new_vars
        invariant
            old_vars <= idx <= new_vars,
            new_vars * 2 <= kitten.size <= 0x8000_0000,
            kitten.links@.len() == kitten.size / 2,
            kitten.order@ == old(kitten).order@ + Seq::new((idx - old_vars) as nat, |i: int| (old_vars + i) as u32),
            forall|i: int| 0 <= i < kitten.order@.len() ==> (#[trigger] kitten.order@[i] as int) < idx,
            linked(kitten.links@, kitten.queue, kitten.order@),
            stamped(kitten.links@, kitten.queue, kitten.order@),
            kitten.unassigned == old(kitten).unassigned + (idx - old_vars),
            old(kitten).unassigned + (new_vars - old_vars) <= u32::MAX,
            *kitten == (Kitten {
                links: kitten.links,
                queue: kitten.queue,
                order: kitten.order,
                unassigned: kitten.unassigned,
                ..*old(kitten)
            }),
        decreases new_vars - idx,
    {
        kitten.unassigned = kitten.unassigned + 1;
        let ghost o = kitten.order@;
        proof {
            if o.contains(idx as u32) {
                let j = choose|j: int| 0 <= j < o.len() && o[j] == idx as u32;
                assert((o[j] as int) < idx);
            }
        }
        enqueue(&mut kitten.links, &mut kitten.queue, idx as u32, Ghost(o));
        proof {
            kitten.order = Ghost(o.push(idx as u32));
            assert(kitten.order@ =~= old(kitten).order@ + Seq::new((idx + 1 - old_vars) as nat, |i: int| (old_vars + i) as u32));
        }
        idx += 1;
    }
    let last = kitten.queue.last;
    let ghost q0 = kitten.queue;
    update_search(&mut kitten.queue, last);
    proof {
        lemma_queue_search_frame(kitten.links@, q0, kitten.queue, kitten.order@);
    }
}

/// Moving the search cursor keeps the queue linked and stamped.
pub(crate) proof fn lemma_queue_search_frame(links: Seq<Kink>, q: Kueue, q2: Kueue, o: Seq<u32>)
    requires
        q2 == (Kueue { search: q2.search, ..q }),
    ensures
        linked(links, q, o) ==> linked(links, q2, o),
        stamped(links, q, o) ==> stamped(links, q2, o),
{
    reveal(linked);
    reveal(stamped);
}

/// Grows the import table so that external variable `eidx` fits.
fn enlarge_external(kitten: &mut Kitten, eidx: usize)
    requires
        old(kitten).evars <= eidx < 0x2000_0000,
        old(kitten).import@.len() == old(kitten).esize,
        old(kitten).esize <= 0x4000_0000,
    ensures
        final(kitten).evars == eidx + 1,
        final(kitten).esize > eidx,
        final(kitten).esize <= 0x4000_0000,
        grown(old(kitten).import@, final(kitten).import@, final(kitten).esize as int, 0u32),
        *final(kitten) == (Kitten {
            evars: final(kitten).evars,
            esize: final(kitten).esize,
            import: final(kitten).import,
            ..*old(kitten)
        }),
{
    let old_size = kitten.esize;
    if old_size <= eidx {
        let mut new_size: usize = if old_size != 0 { 2 * old_size } else { 1 };
        while new_size <= eidx
            invariant
                1 <= new_size <= 2 * eidx + 2,
                eidx < 0x2000_0000,
            decreases 2 * eidx + 2 - new_size,
        {
            new_size = new_size * 2;
        }
        grow(&mut kitten.import, new_size, 0u32);
        kitten.esize = new_size;
    }
    kitten.evars = eidx + 1;
}

/// An external variable not yet imported leaves room for one more
/// internal variable.
proof fn lemma_import_room(import: Seq<u32>, export: Seq<u32>, evars: int, eidx: int)
    requires
        import_ok(import, export, evars),
        0 <= eidx < evars,
        eidx < import.len(),
        import[eidx] == 0,
    ensures
        export.len() < evars,
{
    let s = Seq::new(export.len(), |i: int| if export[i] > eidx { export[i] - 1 } else { export[i] as int });
    assert forall|a: int, b: int| 0 <= a < s.len() && 0 <= b < s.len() && a != b implies s[a] != s[b] by {
        assert(import[export[a] as int] == a + 1);
        assert(import[export[b] as int] == b + 1);
        assert(export[a] != eidx);
        assert(export[b] != eidx);
    }
    assert forall|i: int| 0 <= i < s.len() implies 0 <= #[trigger] s[i] < evars - 1 by {
        assert(import[export[i] as int] == i + 1);
        assert(export[i] != eidx);
    }
    crate::seqs::lemma_distinct_bounded(s, evars - 1);
}

/// Well-formed klauses stay well formed with more literals.
proof fn lemma_klauses_more_lits(klauses: Seq<Klause>, lits: int, lits2: int, antecedents: bool)
    requires
        klauses_ok(klauses, lits, antecedents),
        lits <= lits2,
    ensures
        klauses_ok(klauses, lits2, antecedents),
{
    assert forall|r: int| 0 <= r < klauses.len() implies klause_ok(#[trigger] klauses[r], r, lits2, antecedents) by {
        assert(klause_ok(klauses[r], r, lits, antecedents));
    }
}

/// Well-formed watches stay well formed with more literals, as long as the
/// new literals watch nothing.
proof fn lemma_watches_more_lits(watches: Seq<Vec<Katch>>, watches2: Seq<Vec<Katch>>, klauses: Seq<Klause>, lits: int, lits2: int)
    requires
        watches_ok(watches, klauses, lits),
        lits <= lits2,
        watches.len() <= watches2.len(),
        forall|l: int| 0 <= l < watches.len() ==> #[trigger] watches2[l] == watches[l],
        forall|l: int| watches.len() <= l < watches2.len() ==> (#[trigger] watches2[l])@.len() == 0,
    ensures
        watches_ok(watches2, klauses, lits2),
{
    assert forall|l: int| 0 <= l < watches2.len() implies {
        &&& (l >= lits2 ==> (#[trigger] watches2[l])@.len() == 0)
        &&& watch_list_ok(watches2[l]@, l, klauses, lits2)
    } by {
        if l < watches.len() {
            assert(watch_list_ok(watches[l]@, l, klauses, lits));
            assert forall|j: int| 0 <= j < watches2[l]@.len() implies katch_ok(#[trigger] watches2[l]@[j], l, klauses, lits2) by {
                assert(katch_ok(watches[l]@[j], l, klauses, lits));
            }
        }
    }
}

/// Adds the variables of the literals below `new_lits`: grows the tables
/// and appends the new variables to the decision queue.
#[verifier::rlimit(80)]
#[verifier::spinoff_prover]
fn enlarge_internal(kitten: &mut Kitten, new_lits: usize)
    requires
        old(kitten).tables_ok(),
        old(kitten).lits < new_lits <= 0x4000_0000,
        new_lits % 2 == 0,
    ensures
        final(kitten).lits == new_lits,
        final(kitten).size >= old(kitten).size,
        grown(old(kitten).values@, final(kitten).values@, final(kitten).size as int, 0i8),
        grown(old(kitten).failed@, final(kitten).failed@, final(kitten).size as int, false),
        grown(old(kitten).vars@, final(kitten).vars@, (final(kitten).size / 2) as int, Kar { level: 0, reason: 0 }),
        grown(old(kitten).marks@, final(kitten).marks@, (final(kitten).size / 2) as int, 0i8),
        grown(old(kitten).phases@, final(kitten).phases@, (final(kitten).size / 2) as int, 0u8),
        final(kitten).unassigned == old(kitten).unassigned + (new_lits / 2 - old(kitten).lits / 2),
        *final(kitten) == (Kitten {
            lits: final(kitten).lits,
            size: final(kitten).size,
            values: final(kitten).values,
            failed: final(kitten).failed,
            vars: final(kitten).vars,
            links: final(kitten).links,
            marks: final(kitten).marks,
            phases: final(kitten).phases,
            watches: final(kitten).watches,
            queue: final(kitten).queue,
            order: final(kitten).order,
            unassigned: final(kitten).unassigned,
            ..*old(kitten)
        }),
        final(kitten).tables_ok(),
{
    proof {
        lemma_count_bounds(kitten.values@, kitten.nvars());
    }
    let old_vars = kitten.lits / 2;
    let new_vars = new_lits / 2;
    let ghost k0 = *kitten;
    enlarge_tables(kitten, new_lits);
    let ghost k1 = *kitten;
    proof {
        reveal(linked);
        reveal(stamped);
    }
    init_queue(kitten, old_vars, new_vars);
    proof {
        let k = *kitten;
        let ext = Seq::new((new_vars - old_vars) as nat, |i: int| (old_vars + i) as u32);
        assert(k.order@ == k0.order@ + ext);
        // the new values are zero
        assert forall|l: int| k0.lits <= l < k.values@.len() implies #[trigger] k.values@[l] == 0 by {
            if l < k0.values@.len() {
                assert(k.values@[l] == k0.values@[l]);
            }
        }
        assert(values_ok(k.values@, k.lits as int)) by {
            assert forall|l: int| 0 <= l < k.values@.len() implies -1 <= #[trigger] k.values@[l] <= 1 by {
                if l < k0.values@.len() {
                    assert(k.values@[l] == k0.values@[l]);
                }
            }
            assert forall|v: int| 0 <= 2 * v && 2 * v + 1 < k.lits implies #[trigger] k.values@[2 * v + 1] == -k.values@[2 * v] by {
                if 2 * v + 1 < k0.lits {
                    assert(k.values@[2 * v + 1] == k0.values@[2 * v + 1]);
                    assert(k.values@[2 * v] == k0.values@[2 * v]);
                } else {
                    assert(k.values@[2 * v] == 0);
                    assert(k.values@[2 * v + 1] == 0);
                }
            }
        }
        // counting the new variables as unassigned
        assert(count_unassigned(k.values@, k.nvars()) == count_unassigned(k0.values@, k0.nvars()) + (new_vars - old_vars)) by {
            lemma_count_grow(k0.values@, k.values@, old_vars as int, new_vars as int);
        }
        lemma_klauses_more_lits(k.klauses@, k0.lits as int, k.lits as int, k.antecedents);
        lemma_watches_more_lits(k0.watches@, k.watches@, k.klauses@, k0.lits as int, k.lits as int);
        // the queue holds every variable
        assert forall|v: int| 0 <= v < new_vars implies #[trigger] k.order@.contains(v as u32) by {
            if v < old_vars {
                assert(k0.order@.contains(v as u32));
                let j = choose|j: int| 0 <= j < k0.order@.len() && k0.order@[j] == v as u32;
                assert(k.order@[j] == v as u32);
            } else {
                assert(k.order@[old_vars + (v - old_vars)] == v as u32);
            }
        }
        assert forall|i: int| 0 <= i < k.order@.len() implies (#[trigger] k.order@[i] as int) < new_vars by {
            if i < old_vars {
                assert(k.order@[i] == k0.order@[i]);
            }
        }
        assert(search_ok(k.queue, k.order@, k.values@)) by {
            reveal(linked);
            if k.order@.len() > 0 {
                assert(k.queue.search == k.order@.last());
                assert forall|i: int, j: int| 0 <= i < j < k.order@.len() && k.order@[i] == k.queue.search
                    implies k.values@[2 * k.order@[j]] != 0 by {
                    assert(k.order@[i] == k.order@[k.order@.len() - 1]);
                }
            }
        }
        assert(lits_below(k.trail@, k.lits as int));
        assert(lits_below(k.assumptions@, k.lits as int));
    }
}

/// Counting grows by the new, unassigned variables.
proof fn lemma_count_grow(a: Seq<i8>, b: Seq<i8>, n: int, m: int)
    requires
        0 <= n <= m,
        2 * m <= b.len(),
        forall|v: int| 0 <= v < n ==> #[trigger] b[2 * v] == a[2 * v],
        forall|v: int| n <= v < m ==> #[trigger] b[2 * v] == 0,
    ensures
        count_unassigned(b, m) == count_unassigned(a, n) + (m - n),
    decreases m,
{
    if m > n {
        lemma_count_grow(a, b, n, m - 1);
    } else {
        lemma_count_frame(a, b, n);
    }
}

/// The internal literal of external literal `elit`, importing its variable
/// as a new internal variable on first use.
#[verifier::rlimit(40)]
fn import_literal(kitten: &mut Kitten, elit: u32) -> (r: u32)
    requires
        old(kitten).wf_core(),
        elit < MAX_ELIT,
    ensures
        final(kitten).wf_core(),
        imported_lit(final(kitten), elit) == Some(r as int),
        (r as int) < final(kitten).lits,
        imported_lit(old(kitten), elit) is Some ==> *final(kitten) == *old(kitten),
        imported_lit(old(kitten), elit) is None ==> {
            &&& final(kitten).nvars() == old(kitten).nvars() + 1
            &&& r / 2 == old(kitten).nvars()
            &&& final(kitten).values@[r as int] == 0
        },
        final(kitten).klauses == old(kitten).klauses,
        final(kitten).trail == old(kitten).trail,
        final(kitten).assumptions == old(kitten).assumptions,
        final(kitten).units == old(kitten).units,
        final(kitten).core == old(kitten).core,
        final(kitten).klause == old(kitten).klause,
        final(kitten).status == old(kitten).status,
        final(kitten).antecedents == old(kitten).antecedents,
        final(kitten).learned == old(kitten).learned,
        final(kitten).inconsistent == old(kitten).inconsistent,
        final(kitten).failing == old(kitten).failing,
        final(kitten).level == old(kitten).level,
        final(kitten).propagated == old(kitten).propagated,
        final(kitten).end_original_ref == old(kitten).end_original_ref,
        final(kitten).analyzed == old(kitten).analyzed,
        final(kitten).resolved == old(kitten).resolved,
        final(kitten).eclause == old(kitten).eclause,
        final(kitten).lits >= old(kitten).lits,
        final(kitten).evars >= old(kitten).evars,
        forall|l: int| 0 <= l < old(kitten).lits ==> #[trigger] final(kitten).values@[l] == old(kitten).values@[l],
        forall|l: int| 0 <= l < old(kitten).lits ==> #[trigger] final(kitten).failed@[l] == old(kitten).failed@[l],
        forall|v: int| 0 <= v < old(kitten).nvars() ==> #[trigger] final(kitten).vars@[v] == old(kitten).vars@[v],
        forall|v: int| 0 <= v < old(kitten).marks@.len() ==> #[trigger] final(kitten).marks@[v] == old(kitten).marks@[v],
        forall|v: int| old(kitten).marks@.len() <= v < final(kitten).marks@.len() ==> #[trigger] final(kitten).marks@[v] == 0,
        forall|e: u32| imported_lit(old(kitten), e) is Some ==> #[trigger] imported_lit(final(kitten), e) == imported_lit(old(kitten), e),
        forall|e: u32| e / 2 != elit / 2 ==> #[trigger] imported_lit(final(kitten), e) == imported_lit(old(kitten), e),
{
    proof {
        reveal(Kitten::wf_core);
    }
    let eidx = (elit / 2) as usize;
    if eidx >= kitten.evars {
        enlarge_external(kitten, eidx);
        proof {
            let k = *kitten;
            assert(import_ok(k.import@, k.export_@, k.evars as int)) by {
                assert forall|e: int| 0 <= e < k.import@.len() && #[trigger] k.import@[e] != 0 implies e < k.evars
                    && k.import@[e] - 1 < k.export_@.len() && k.export_@[k.import@[e] - 1] == e by {
                    if e >= old(kitten).import@.len() {
                        assert(k.import@[e] == 0);
                    } else {
                        assert(k.import@[e] == old(kitten).import@[e]);
                    }
                }
                assert forall|i: int| 0 <= i < k.export_@.len() implies (#[trigger] k.export_@[i] as int) < k.evars
                    && k.import@[k.export_@[i] as int] == i + 1 by {
                    assert(k.import@[k.export_@[i] as int] == old(kitten).import@[k.export_@[i] as int]);
                }
            }
            assert(k.wf_core());
            assert forall|e: u32| imported_lit(old(kitten), e) is Some implies #[trigger] imported_lit(&k, e) == imported_lit(old(kitten), e) by {
                assert(k.import@[(e / 2) as int] == old(kitten).import@[(e / 2) as int]);
            }
            assert forall|e: u32| #[trigger] imported_lit(&k, e) == imported_lit(old(kitten), e) by {
                let x = (e / 2) as int;
                if x < k.evars {
                    if x < old(kitten).import@.len() {
                        assert(k.import@[x] == old(kitten).import@[x]);
                        if x >= old(kitten).evars {
                            assert(old(kitten).import@[x] == 0);
                        }
                    } else {
                        assert(k.import@[x] == 0);
                    }
                }
            }
        }
    }
    let ghost k1 = *kitten;
    let mut iidx = kitten.import[eidx];
    proof {
        crate::literal::lemma_sign_bit(elit);
    }
    if iidx == 0 {
        proof {
            lemma_import_room(kitten.import@, kitten.export_@, kitten.evars as int, eidx as int);
        }
        iidx = kitten.export_.len() as u32;
        kitten.export_.push(eidx as u32);
        kitten.import.set(eidx, iidx + 1);
        let ghost k2 = *kitten;
        let ilit = 2 * iidx + (elit & 1);
        proof {
            assert((ilit | 1u32) == 2 * iidx + 1) by (bit_vector)
                requires
                    ilit == 2 * iidx + (elit & 1u32),
                    iidx < 0x2000_0000,
            ;
        }
        let new_lits = ((ilit | 1) + 1) as usize;
        enlarge_internal(kitten, new_lits);
        proof {
            let k = *kitten;
            assert(import_ok(k.import@, k.export_@, k.evars as int)) by {
                assert forall|e: int| 0 <= e < k.import@.len() && #[trigger] k.import@[e] != 0 implies e < k.evars
                    && k.import@[e] - 1 < k.export_@.len() && k.export_@[k.import@[e] - 1] == e by {
                    if e != eidx {
                        assert(k.import@[e] == k1.import@[e]);
                    }
                }
                assert forall|i: int| 0 <= i < k.export_@.len() implies (#[trigger] k.export_@[i] as int) < k.evars
                    && k.import@[k.export_@[i] as int] == i + 1 by {
                    if i < k1.export_@.len() {
                        assert(k.export_@[i] == k1.export_@[i]);
                        assert(k1.import@[k1.export_@[i] as int] == i + 1);
                        assert(k1.export_@[i] != eidx);
                    }
                }
            }
            assert(k.trail@.len() + k.unassigned <= k.nvars());
            assert forall|i: int| 0 <= i < k.trail@.len() implies k.values@[#[trigger] k.trail@[i] as int] != 0 by {
                assert(k.values@[k.trail@[i] as int] == k1.values@[k.trail@[i] as int]);
            }
            assert(search_ok(k.queue, k.order@, k.values@));
            assert(k.wf_core());
            assert forall|e: u32| imported_lit(old(kitten), e) is Some implies #[trigger] imported_lit(&k, e) == imported_lit(old(kitten), e) by {
                assert(imported_lit(&k1, e) == imported_lit(old(kitten), e));
                assert((e / 2) as int != eidx);
                assert(k.import@[(e / 2) as int] == k1.import@[(e / 2) as int]);
            }
            assert(k.values@[ilit as int] == 0);
            assert forall|e: u32| (e / 2) as int != eidx implies #[trigger] imported_lit(&k, e) == imported_lit(old(kitten), e) by {
                assert(imported_lit(&k1, e) == imported_lit(old(kitten), e));
                assert(k.import@[(e / 2) as int] == k1.import@[(e / 2) as int] || (e / 2) as int >= k.evars);
            }
        }
        ilit
    } else {
        iidx -= 1;
        let ilit = 2 * iidx + (elit & 1);
        proof {
            assert(k1.export_@[iidx as int] == eidx);
        }
        ilit
    }
}

/*------------------------------------------------------------------------*/
// Unassigning and resetting.

proof fn lemma_stamp_order(links: Seq<Kink>, q: Kueue, o: Seq<u32>, a: int, b: int)
    requires
        stamped(links, q, o),
        0 <= a < b < o.len(),
    ensures
        links[o[a] as int].stamp < links[o[b] as int].stamp,
{
    reveal(stamped);
}

/// Unassigning `idx` keeps the search cursor valid when the cursor moves to
/// `idx` exactly if `idx` is queued after it.
proof fn lemma_unassign_search(links: Seq<Kink>, q: Kueue, q2: Kueue, o: Seq<u32>, values: Seq<i8>, values2: Seq<i8>, idx: int, nvars: int)
    requires
        queue_ok(links, q, o, nvars),
        search_ok(q, o, values),
        0 <= idx < nvars <= 0x4000_0000,
        forall|v: int| 0 <= v < nvars && v != idx ==> #[trigger] values2[2 * v] == values[2 * v],
        q2 == (Kueue { search: q2.search, ..q }),
        q2.search == (if links[idx].stamp > links[q.search as int].stamp { idx as u32 } else { q.search }),
    ensures
        search_ok(q2, o, values2),
{
    lemma_linked_empty(links, q, o);
    assert(o.contains(idx as u32));
    let qi = choose|i: int| 0 <= i < o.len() && o[i] == idx as u32;
    assert(o.len() > 0);
    assert((q.search as int) < nvars);
    assert(o.contains((q.search as int) as u32));
    let p = choose|i: int| 0 <= i < o.len() && o[i] == q.search;
    assert(o[qi] as int == idx);
    assert(o[p] as int == q.search as int);
    if links[idx].stamp > links[q.search as int].stamp {
        if qi < p {
            lemma_stamp_order(links, q, o, qi, p);
        }
        assert(qi > p);
        assert forall|i: int, j: int| 0 <= i < j < o.len() && o[i] == q2.search implies values2[2 * o[j]] != 0 by {
            assert(i == qi);
            assert(o[j] != idx);
            assert(values[2 * o[j]] != 0);
        }
    } else {
        if qi > p {
            lemma_stamp_order(links, q, o, p, qi);
        }
        assert(qi <= p);
        assert forall|i: int, j: int| 0 <= i < j < o.len() && o[i] == q2.search implies values2[2 * o[j]] != 0 by {
            assert(i == p);
            assert(o[j] != idx);
            assert(values[2 * o[j]] != 0);
        }
    }
}

/// Unassigns `lit` and its negation, counts the variable as unassigned
/// and moves the search cursor to it if it is queued after the cursor.
fn unassign(kitten: &mut Kitten, lit: u32)
    requires
        old(kitten).tables_ok(),
        (lit as int) < old(kitten).lits,
        old(kitten).values@[lit as int] != 0,
    ensures
        final(kitten).tables_ok(),
        final(kitten).values@ == old(kitten).values@.update(lit as int, 0).update(spec_not(lit) as int, 0),
        final(kitten).unassigned == old(kitten).unassigned + 1,
        final(kitten).queue == (Kueue { search: final(kitten).queue.search, ..old(kitten).queue }),
        *final(kitten) == (Kitten {
            values: final(kitten).values,
            unassigned: final(kitten).unassigned,
            queue: final(kitten).queue,
            ..*old(kitten)
        }),
{
    proof {
        crate::literal::lemma_xor_one(lit);
        let v = (lit / 2) as int;
        assert(old(kitten).values@[2 * v + 1] == -old(kitten).values@[2 * v]);
        assert(lit == 2 * v || lit == 2 * v + 1);
        assert(old(kitten).values@[2 * (lit / 2) as int] != 0);
        lemma_count_assigned(old(kitten).values@, old(kitten).nvars(), (lit / 2) as int);
    }
    let not_lit = lit ^ 1;
    let idx = (lit / 2) as usize;
    kitten.values.set(lit as usize, 0);
    kitten.values.set(not_lit as usize, 0);
    kitten.unassigned = kitten.unassigned + 1;
    let ghost k1 = *kitten;
    proof {
        reveal(linked);
        assert((k1.queue.search as int) < k1.nvars()) by {
            assert(k1.order@.len() > 0) by {
                assert(k1.order@.contains(idx as u32));
            }
        }
    }
    let stamp = kitten.links[idx].stamp;
    if stamp > kitten.links[kitten.queue.search as usize].stamp {
        update_search(&mut kitten.queue, idx as u32);
    }
    proof {
        let k = *kitten;
        let o = old(kitten);
        assert forall|v: int| 0 <= v < o.nvars() && v != idx implies #[trigger] k.values@[2 * v] == o.values@[2 * v] by {
            assert(2 * v != lit && 2 * v != not_lit);
        }
        lemma_count_flip(o.values@, k.values@, o.nvars(), idx as int);
        lemma_queue_search_frame(k.links@, o.queue, k.queue, k.order@);
        lemma_unassign_search(k.links@, o.queue, k.queue, k.order@, o.values@, k.values@, idx as int, o.nvars());
        assert(values_ok(k.values@, k.lits as int)) by {
            assert forall|v: int| 0 <= 2 * v && 2 * v + 1 < k.lits implies #[trigger] k.values@[2 * v + 1] == -k.values@[2 * v] by {
                if v != idx {
                    assert(k.values@[2 * v + 1] == o.values@[2 * v + 1]);
                    assert(k.values@[2 * v] == o.values@[2 * v]);
                }
            }
        }
    }
}

/// Values only change by unassigning.
pub open spec fn only_unassigned(a: Seq<i8>, b: Seq<i8>) -> bool {
    &&& a.len() == b.len()
    &&& forall|l: int| 0 <= l < a.len() ==> #[trigger] b[l] == 0 || b[l] == a[l]
}

/// Unassigns everything on the trail and every true unit, and returns to
/// the root level with nothing to propagate.
pub(crate) fn completely_backtrack_to_root_level(kitten: &mut Kitten)
    requires
        old(kitten).wf_core(),
    ensures
        final(kitten).wf_core(),
        final(kitten).trail@.len() == 0,
        final(kitten).level == 0,
        final(kitten).propagated == 0,
        only_unassigned(old(kitten).values@, final(kitten).values@),
        forall|l: int| 0 <= l < final(kitten).values@.len() ==> #[trigger] final(kitten).values@[l] == 0,
        *final(kitten) == (Kitten {
            values: final(kitten).values,
            unassigned: final(kitten).unassigned,
            queue: final(kitten).queue,
            trail: final(kitten).trail,
            propagated: 0,
            level: 0,
            ..*old(kitten)
        }),
{
    proof {
        reveal(Kitten::wf_core);
    }
    let mut trail: Vec<u32> = Vec::new();
    std::mem::swap(&mut trail, &mut kitten.trail);
    let mut i: usize = 0;
    while i < trail.len()
        invariant
            kitten.tables_ok(),
            kitten.trail@.len() == 0,
            0 <= i <= trail@.len(),
            lits_below(trail@, kitten.lits as int),
            distinct_vars(trail@),
            forall|j: int| i <= j < trail@.len() ==> kitten.values@[#[trigger] trail@[j] as int] != 0,
            only_unassigned(old(kitten).values@, kitten.values@),
            *kitten == (Kitten {
                values: kitten.values,
                unassigned: kitten.unassigned,
                queue: kitten.queue,
                trail: kitten.trail,
                ..*old(kitten)
            }),
        decreases trail@.len() - i,
    {
        let lit = trail[i];
        let ghost before = kitten.values@;
        unassign(kitten, lit);
        proof {
            crate::literal::lemma_xor_one(lit);
            assert forall|j: int| i + 1 <= j < trail@.len() implies kitten.values@[#[trigger] trail@[j] as int] != 0 by {
                assert(trail@[j] / 2 != trail@[i as int] / 2);
                assert(trail@[j] != lit && trail@[j] != spec_not(lit));
                assert(kitten.values@[trail@[j] as int] == before[trail@[j] as int]);
            }
        }
        i += 1;
    }
    let mut units: Vec<u32> = Vec::new();
    std::mem::swap(&mut units, &mut kitten.units);
    let mut j: usize = 0;
    while j < units.len()
        invariant
            kitten.tables_ok(),
            kitten.trail@.len() == 0,
            kitten.units@.len() == 0,
            0 <= j <= units@.len(),
            units@ == old(kitten).units@,
            forall|u: int| 0 <= u < units@.len() ==> (#[trigger] units@[u] as int) < kitten.klauses@.len()
                && kitten.klauses@[units@[u] as int].lits@.len() == 1,
            only_unassigned(old(kitten).values@, kitten.values@),
            *kitten == (Kitten {
                values: kitten.values,
                unassigned: kitten.unassigned,
                queue: kitten.queue,
                trail: kitten.trail,
                units: kitten.units,
                ..*old(kitten)
            }),
        decreases units@.len() - j,
    {
        let r = units[j];
        let unit = kitten.klauses[r as usize].lits[0];
        proof {
            assert(klause_ok(kitten.klauses@[r as int], r as int, kitten.lits as int, kitten.antecedents));
            assert(lits_below(kitten.klauses@[r as int].lits@, kitten.lits as int));
        }
        if kitten.values[unit as usize] > 0 {
            unassign(kitten, unit);
        }
        j += 1;
    }
    kitten.units = units;
    let vars = kitten.lits / 2;
    let mut v: usize = 0;
    while v < vars
        invariant
            kitten.tables_ok(),
            vars == kitten.lits / 2,
            v <= vars,
            kitten.trail@.len() == 0,
            forall|w: int| 0 <= w < v ==> #[trigger] kitten.values@[2 * w] == 0,
            only_unassigned(old(kitten).values@, kitten.values@),
            *kitten == (Kitten {
                values: kitten.values,
                unassigned: kitten.unassigned,
                queue: kitten.queue,
                trail: kitten.trail,
                ..*old(kitten)
            }),
        decreases vars - v,
    {
        proof {
            reveal(Kitten::wf_core);
        }
        if kitten.values[2 * v] != 0 {
            let ghost before = kitten.values@;
            unassign(kitten, (2 * v) as u32);
            proof {
                crate::literal::lemma_xor_one((2 * v) as u32);
                assert forall|w: int| 0 <= w < v + 1 implies #[trigger] kitten.values@[2 * w] == 0 by {
                    if w < v {
                        assert(kitten.values@[2 * w] == before[2 * w]);
                    }
                }
            }
        }
        v += 1;
    }
    kitten.propagated = 0;
    kitten.level = 0;
    proof {
        let k = *kitten;
        assert forall|l: int| 0 <= l < k.values@.len() implies #[trigger] k.values@[l] == 0 by {
            let w = l / 2;
            if l < k.lits {
                assert(k.values@[2 * w] == 0);
                assert(k.values@[2 * w + 1] == -k.values@[2 * w]);
            }
        }
        assert(k.trail@.len() + k.unassigned <= k.nvars()) by {
            lemma_count_bounds(k.values@, k.nvars());
        }
        assert(distinct_vars(k.trail@));
        assert(k.wf_core());
    }
}

/// Forgets the assumptions, their failed marks and the failing klause.
fn reset_assumptions(kitten: &mut Kitten)
    requires
        old(kitten).wf_core(),
    ensures
        final(kitten).wf_core(),
        final(kitten).assumptions@.len() == 0,
        final(kitten).failing == INVALID,
        final(kitten).failed@.len() == old(kitten).failed@.len(),
        forall|i: int| 0 <= i < old(kitten).assumptions@.len() ==> !final(kitten).failed@[#[trigger] old(kitten).assumptions@[i] as int],
        *final(kitten) == (Kitten {
            assumptions: final(kitten).assumptions,
            failed: final(kitten).failed,
            failing: INVALID,
            ..*old(kitten)
        }),
{
    proof {
        reveal(Kitten::wf_core);
    }
    while kitten.assumptions.len() > 0
        invariant
            kitten.tables_ok(),
            kitten.failed@.len() == old(kitten).failed@.len(),
            *kitten == (Kitten { assumptions: kitten.assumptions, failed: kitten.failed, ..*old(kitten) }),
            kitten.assumptions@.len() <= old(kitten).assumptions@.len(),
            kitten.assumptions@ == old(kitten).assumptions@.take(kitten.assumptions@.len() as int),
            lits_below(old(kitten).assumptions@, kitten.lits as int),
            kitten.lits <= kitten.failed@.len(),
            forall|i: int| kitten.assumptions@.len() <= i < old(kitten).assumptions@.len()
                ==> !kitten.failed@[#[trigger] old(kitten).assumptions@[i] as int],
        decreases kitten.assumptions@.len(),
    {
        let a = kitten.assumptions.pop().unwrap();
        proof {
            assert(lits_below(kitten.assumptions@.push(a), kitten.lits as int));
            assert(kitten.assumptions@.push(a)[kitten.assumptions@.len() as int] == a);
        }
        let ghost before = kitten.failed@;
        kitten.failed.set(a as usize, false);
        proof {
            let n = kitten.assumptions@.len() as int;
            assert(old(kitten).assumptions@[n] == a);
            assert(kitten.assumptions@ =~= old(kitten).assumptions@.take(n));
            assert forall|i: int| n <= i < old(kitten).assumptions@.len()
                implies !kitten.failed@[#[trigger] old(kitten).assumptions@[i] as int] by {
                let x = old(kitten).assumptions@[i] as int;
                if x != a as int {
                    assert(!before[x]);
                    assert(kitten.failed@[x] == before[x]);
                }
            }
        }
    }
    kitten.assumptions.clear();
    if kitten.failing != INVALID {
        kitten.failing = INVALID;
    }
    proof {
        assert(kitten.wf_core());
    }
}

/// Takes every klause out of the core and forgets the core.
fn reset_core(kitten: &mut Kitten)
    requires
        old(kitten).wf_core(),
    ensures
        final(kitten).wf_core(),
        final(kitten).core@.len() == 0,
        final(kitten).klauses@.len() == old(kitten).klauses@.len(),
        forall|c: int| 0 <= c < old(kitten).klauses@.len() ==> {
            &&& (#[trigger] final(kitten).klauses@[c]).flags == (old(kitten).klauses@[c].flags / 2) * 2
            &&& final(kitten).klauses@[c].lits@ == old(kitten).klauses@[c].lits@
            &&& final(kitten).klauses@[c].aux == old(kitten).klauses@[c].aux
            &&& final(kitten).klauses@[c].antecedents@ == old(kitten).klauses@[c].antecedents@
        },
        *final(kitten) == (Kitten { klauses: final(kitten).klauses, core: final(kitten).core, ..*old(kitten) }),
{
    proof {
        reveal(Kitten::wf_core);
    }
    let mut c: u32 = 0;
    let end = kitten.klauses.len() as u32;
    while c != end
        invariant
            c <= end,
            end == kitten.klauses@.len(),
            kitten.klauses@.len() == old(kitten).klauses@.len(),
            kitten.klauses@.len() < MAX_KLAUSES,
            forall|d: int| 0 <= d < kitten.klauses@.len() ==> {
                &&& (#[trigger] kitten.klauses@[d]).lits@ == old(kitten).klauses@[d].lits@
                &&& kitten.klauses@[d].aux == old(kitten).klauses@[d].aux
                &&& kitten.klauses@[d].antecedents@ == old(kitten).klauses@[d].antecedents@
                &&& kitten.klauses@[d].flags == (if d < c {
                    (old(kitten).klauses@[d].flags / 2) * 2
                } else {
                    old(kitten).klauses@[d].flags as int
                })
            },
            forall|d: int| 0 <= d < old(kitten).klauses@.len() ==> (#[trigger] old(kitten).klauses@[d]).flags < 4,
            *kitten == (Kitten { klauses: kitten.klauses, ..*old(kitten) }),
        decreases end - c,
    {
        let next = kitten.next_klause(c);
        if kitten.is_core_klause(c) {
            kitten.unset_core_klause(c);
        }
        c = next;
    }
    kitten.core.clear();
    proof {
        let k = *kitten;
        let o = *old(kitten);
        assert(klauses_ok(k.klauses@, k.lits as int, k.antecedents)) by {
            assert forall|r: int| 0 <= r < k.klauses@.len() implies klause_ok(#[trigger] k.klauses@[r], r, k.lits as int, k.antecedents) by {
                assert(klause_ok(o.klauses@[r], r, o.lits as int, o.antecedents));
            }
        }
        assert(watches_ok(k.watches@, k.klauses@, k.lits as int)) by {
            assert forall|l: int| 0 <= l < k.watches@.len() implies {
                &&& (l >= k.lits ==> (#[trigger] k.watches@[l])@.len() == 0)
                &&& watch_list_ok(k.watches@[l]@, l, k.klauses@, k.lits as int)
            } by {
                assert(watch_list_ok(o.watches@[l]@, l, o.klauses@, o.lits as int));
                assert forall|j: int| 0 <= j < k.watches@[l]@.len() implies katch_ok(#[trigger] k.watches@[l]@[j], l, k.klauses@, k.lits as int) by {
                    assert(katch_ok(o.watches@[l]@[j], l, o.klauses@, o.lits as int));
                }
            }
        }
        assert(k.wf_core());
    }
}

/// Returns to the root level and forgets assumptions and the core, so that
/// the formula can be extended or solved again.
fn reset_incremental(kitten: &mut Kitten)
    requires
        old(kitten).wf_core(),
    ensures
        final(kitten).wf_core(),
        final(kitten).status == 0,
        final(kitten).trail@.len() == 0,
        final(kitten).level == 0,
        old(kitten).assumptions@.len() > 0 ==> final(kitten).assumptions@.len() == 0,
        final(kitten).assumptions@.len() <= old(kitten).assumptions@.len(),
        forall|i: int| 0 <= i < old(kitten).assumptions@.len() ==> !final(kitten).failed@[#[trigger] old(kitten).assumptions@[i] as int],
        final(kitten).failed@.len() == old(kitten).failed@.len(),
        final(kitten).vars == old(kitten).vars,
        final(kitten).klauses@.len() == old(kitten).klauses@.len(),
        forall|c: int| 0 <= c < old(kitten).klauses@.len() ==> (#[trigger] final(kitten).klauses@[c]).lits@
            == old(kitten).klauses@[c].lits@,
        forall|c: int| 0 <= c < old(kitten).klauses@.len() ==> (#[trigger] final(kitten).klauses@[c]).aux
            == old(kitten).klauses@[c].aux && final(kitten).klauses@[c].flags == (if old(kitten).status == 21 {
                (old(kitten).klauses@[c].flags / 2) * 2
            } else {
                old(kitten).klauses@[c].flags as int
            }),
        final(kitten).lits == old(kitten).lits,
        final(kitten).evars == old(kitten).evars,
        final(kitten).import == old(kitten).import,
        final(kitten).export_ == old(kitten).export_,
        final(kitten).antecedents == old(kitten).antecedents,
        final(kitten).learned == old(kitten).learned,
        final(kitten).marks == old(kitten).marks,
        final(kitten).analyzed == old(kitten).analyzed,
        final(kitten).klause == old(kitten).klause,
        final(kitten).resolved == old(kitten).resolved,
        final(kitten).eclause == old(kitten).eclause,
        final(kitten).units == old(kitten).units,
        final(kitten).inconsistent == old(kitten).inconsistent,
        final(kitten).end_original_ref == old(kitten).end_original_ref,
        only_unassigned(old(kitten).values@, final(kitten).values@),
        forall|l: int| 0 <= l < final(kitten).values@.len() ==> #[trigger] final(kitten).values@[l] == 0,
{
    completely_backtrack_to_root_level(kitten);
    if kitten.assumptions.len() > 0 {
        reset_assumptions(kitten);
    }
    if kitten.status == 21 {
        reset_core(kitten);
    }
    kitten.status = 0;
    proof {
        reveal(Kitten::wf_core);
    }
}

/// What can go wrong when adding to the formula: there is no room for
/// another klause.
#[derive(Debug, Clone, Copy, PartialEq, Eq, Structural)]
pub enum KittenError {
    Exhausted,
}

/// The reference of the next klause, counting a tick, or `Exhausted` when
/// the klause references are used up.
fn new_reference(kitten: &Kitten, stats: &mut KittenStatistics) -> (r: Result<u32, KittenError>)
    ensures
        r is Ok <==> kitten.klauses@.len() + 1 < MAX_KLAUSES,
        r is Ok ==> r->Ok_0 == kitten.klauses@.len() && final(stats).kitten_ticks == (if old(stats).kitten_ticks
            == u64::MAX {
            u64::MAX as int
        } else {
            old(stats).kitten_ticks + 1
        }),
        r is Err ==> *final(stats) == *old(stats),
        final(stats).kitten_propagations == old(stats).kitten_propagations,
        final(stats).kitten_solved == old(stats).kitten_solved,
        final(stats).kitten_conflicts == old(stats).kitten_conflicts,
        final(stats).kitten_decisions == old(stats).kitten_decisions,
        final(stats).kitten_flip == old(stats).kitten_flip,
        final(stats).kitten_flipped == old(stats).kitten_flipped,
        final(stats).kitten_sat == old(stats).kitten_sat,
        final(stats).kitten_unsat == old(stats).kitten_unsat,
        final(stats).kitten_unknown == old(stats).kitten_unknown,
        final(stats).terminate == old(stats).terminate,
{
    let r = kitten.klauses.len();
    if r >= MAX_KLAUSES - 1 {
        return Err(KittenError::Exhausted);
    }
    stats.kitten_ticks = stats.kitten_ticks.saturating_add(1);
    Ok(r as u32)
}

/// Watches klause `r` with literal `lit`, one of its first two literals;
/// the blocking literal is the other one.
fn watch_klause(kitten: &mut Kitten, lit: u32, r: u32)
    requires
        (r as int) < old(kitten).klauses@.len(),
        old(kitten).klauses@[r as int].lits@.len() >= 2,
        old(kitten).klauses@[r as int].lits@[0] == lit || old(kitten).klauses@[r as int].lits@[1] == lit,
        (lit as int) < old(kitten).watches@.len(),
        r < KATCH_BINARY_BIT,
    ensures
        final(kitten).watches@.len() == old(kitten).watches@.len(),
        final(kitten).watches@[lit as int]@ == old(kitten).watches@[lit as int]@.push(Katch {
            blit: other_of(old(kitten).klauses@[r as int].lits@, lit as int) as u32,
            meta: final(kitten).watches@[lit as int]@.last().meta,
        }),
        final(kitten).watches@[lit as int]@.last().spec_ref() == r,
        final(kitten).watches@[lit as int]@.last().spec_binary() == (old(kitten).klauses@[r as int].lits@.len() == 2),
        forall|l: int| 0 <= l < old(kitten).watches@.len() && l != lit ==> #[trigger] final(kitten).watches@[l]
            == old(kitten).watches@[l],
        *final(kitten) == (Kitten { watches: final(kitten).watches, ..*old(kitten) }),
{
    let size = kitten.klauses[r as usize].lits.len();
    let l0 = kitten.klauses[r as usize].lits[0];
    let l1 = kitten.klauses[r as usize].lits[1];
    let blit = l0 ^ l1 ^ lit;
    proof {
        crate::literal::lemma_xor_cancel(l0, l1);
    }
    let binary = size == 2;
    let katch = Katch::new(blit, r, binary);
    kitten.watches[lit as usize].push(katch);
}

/// A klause with distinct variables has at most one literal per variable.
proof fn lemma_distinct_vars_len(s: Seq<u32>, lits: int)
    requires
        distinct_vars(s),
        lits_below(s, lits),
        lits >= 0,
    ensures
        s.len() <= lits / 2 + 1,
{
    let t = Seq::new(s.len(), |i: int| (s[i] / 2) as int);
    assert forall|a: int, b: int| 0 <= a < t.len() && 0 <= b < t.len() && a != b implies t[a] != t[b] by {
        assert(s[a] / 2 != s[b] / 2);
    }
    assert forall|i: int| 0 <= i < t.len() implies 0 <= #[trigger] t[i] < lits / 2 + 1 by {
        assert((s[i] as int) < lits);
    }
    crate::seqs::lemma_distinct_bounded(t, lits / 2 + 1);
}

/// Appending a klause keeps the existing watches well formed.
proof fn lemma_watches_push_klause(watches: Seq<Vec<Katch>>, klauses: Seq<Klause>, klauses2: Seq<Klause>, lits: int)
    requires
        watches_ok(watches, klauses, lits),
        klauses2.len() == klauses.len() + 1,
        forall|c: int| 0 <= c < klauses.len() ==> #[trigger] klauses2[c] == klauses[c],
    ensures
        watches_ok(watches, klauses2, lits),
        forall|l: int, j: int| 0 <= l < watches.len() && 0 <= j < watches[l]@.len() ==>
            (#[trigger] watches[l]@[j]).spec_ref() < klauses.len(),
{
    assert forall|l: int| 0 <= l < watches.len() implies {
        &&& (l >= lits ==> (#[trigger] watches[l])@.len() == 0)
        &&& watch_list_ok(watches[l]@, l, klauses2, lits)
    } by {
        assert(watch_list_ok(watches[l]@, l, klauses, lits));
        assert forall|j: int| 0 <= j < watches[l]@.len() implies katch_ok(#[trigger] watches[l]@[j], l, klauses2, lits) by {
            assert(katch_ok(watches[l]@[j], l, klauses, lits));
        }
    }
    assert forall|l: int, j: int| 0 <= l < watches.len() && 0 <= j < watches[l]@.len() implies
        (#[trigger] watches[l]@[j]).spec_ref() < klauses.len() by {
        assert(watch_list_ok(watches[l]@, l, klauses, lits));
        assert(katch_ok(watches[l]@[j], l, klauses, lits));
    }
}

/// Watches a fresh klause `r`: an empty one makes the formula inconsistent,
/// a unit is remembered, anything longer is watched by its first two
/// literals.
#[verifier::rlimit(40)]
fn connect_new_klause(kitten: &mut Kitten, r: u32)
    requires
        old(kitten).klauses@.len() == r + 1,
        r < KATCH_BINARY_BIT,
        klause_ok(old(kitten).klauses@[r as int], r as int, old(kitten).lits as int, old(kitten).antecedents),
        watches_ok(old(kitten).watches@, old(kitten).klauses@.drop_last(), old(kitten).lits as int),
        old(kitten).watches@.len() >= old(kitten).lits,
        old(kitten).inconsistent == INVALID || (old(kitten).inconsistent as int) < r,
    ensures
        watches_ok(final(kitten).watches@, final(kitten).klauses@, final(kitten).lits as int),
        final(kitten).watches@.len() == old(kitten).watches@.len(),
        old(kitten).klauses@[r as int].lits@.len() < 2 ==> final(kitten).watches == old(kitten).watches,
        final(kitten).units@ == (if old(kitten).klauses@[r as int].lits@.len() == 1 {
            old(kitten).units@.push(r)
        } else {
            old(kitten).units@
        }),
        final(kitten).inconsistent == (if old(kitten).klauses@[r as int].lits@.len() == 0 && old(kitten).inconsistent == INVALID {
            r
        } else {
            old(kitten).inconsistent
        }),
        *final(kitten) == (Kitten {
            watches: final(kitten).watches,
            units: final(kitten).units,
            inconsistent: final(kitten).inconsistent,
            ..*old(kitten)
        }),
{
    let ghost k0 = *kitten;
    proof {
        assert forall|c: int| 0 <= c < k0.klauses@.drop_last().len() implies #[trigger] k0.klauses@[c] == k0.klauses@.drop_last()[c] by {
        }
        lemma_watches_push_klause(k0.watches@, k0.klauses@.drop_last(), k0.klauses@, k0.lits as int);
    }
    let size = kitten.klauses[r as usize].lits.len();
    if size == 0 {
        if kitten.inconsistent == INVALID {
            kitten.inconsistent = r;
        }
    } else if size == 1 {
        kitten.units.push(r);
    } else {
        let lit0 = kitten.klauses[r as usize].lits[0];
        let lit1 = kitten.klauses[r as usize].lits[1];
        proof {
            assert(lit0 / 2 != lit1 / 2);
            assert((lit0 as int) < k0.lits && (lit1 as int) < k0.lits);
        }
        watch_klause(kitten, lit0, r);
        let ghost k1 = *kitten;
        watch_klause(kitten, lit1, r);
        proof {
            let k = *kitten;
            let c = k.klauses@[r as int].lits@;
            assert forall|l: int| 0 <= l < k.watches@.len() implies {
                &&& (l >= k.lits ==> (#[trigger] k.watches@[l])@.len() == 0)
                &&& watch_list_ok(k.watches@[l]@, l, k.klauses@, k.lits as int)
            } by {
                assert(watch_list_ok(k0.watches@[l]@, l, k.klauses@, k.lits as int));
                if l == lit0 || l == lit1 {
                    let ws = k.watches@[l]@;
                    let n = ws.len() - 1;
                    assert(ws == k0.watches@[l]@.push(ws[n]));
                    assert forall|j: int| 0 <= j < ws.len() implies katch_ok(#[trigger] ws[j], l, k.klauses@, k.lits as int) by {
                        if j < n {
                            assert(ws[j] == k0.watches@[l]@[j]);
                        } else {
                            assert(c[0] == lit0 && c[1] == lit1);
                        }
                    }
                    assert forall|i: int, j: int| 0 <= i < ws.len() && 0 <= j < ws.len() && i != j implies
                        #[trigger] ws[i].spec_ref() != #[trigger] ws[j].spec_ref() by {
                        if i < n && j < n {
                            assert(ws[i] == k0.watches@[l]@[i] && ws[j] == k0.watches@[l]@[j]);
                        } else if i < n {
                            assert(ws[i] == k0.watches@[l]@[i]);
                            assert(k0.watches@[l]@[i].spec_ref() < r);
                        } else {
                            assert(ws[j] == k0.watches@[l]@[j]);
                            assert(k0.watches@[l]@[j].spec_ref() < r);
                        }
                    }
                } else {
                    assert(k.watches@[l] == k0.watches@[l]);
                }
            }
        }
    }
}

fn copy_vec(v: &Vec<u32>) -> (r: Vec<u32>)
    ensures
        r@ == v@,
{
    let mut r: Vec<u32> = Vec::new();
    let mut i: usize = 0;
    while i < v.len()
        invariant
            i <= v@.len(),
            r@ == v@.take(i as int),
        decreases v@.len() - i,
    {
        r.push(v[i]);
        i += 1;
        assert(r@ =~= v@.take(i as int));
    }
    assert(v@.take(v@.len() as int) =~= v@);
    r
}

/// Adds the literals in `klause` as an original klause with identifier
/// `id` and watches it.
#[verifier::rlimit(60)]
fn new_original_klause(kitten: &mut Kitten, stats: &mut KittenStatistics, id: u32) -> (r: Result<(), KittenError>)
    requires
        old(kitten).wf_core(),
        lits_below(old(kitten).klause@, old(kitten).lits as int),
        distinct_vars(old(kitten).klause@),
    ensures
        r is Ok <==> old(kitten).klauses@.len() + 1 < MAX_KLAUSES,
        final(kitten).wf_core(),
        r is Err ==> *final(kitten) == *old(kitten) && *final(stats) == *old(stats),
        r is Ok ==> {
            &&& final(kitten).klauses@.len() == old(kitten).klauses@.len() + 1
            &&& forall|c: int| 0 <= c < old(kitten).klauses@.len() ==> #[trigger] final(kitten).klauses@[c]
                == old(kitten).klauses@[c]
            &&& final(kitten).klauses@.last().lits@ == old(kitten).klause@
            &&& final(kitten).klauses@.last().aux == id
            &&& final(kitten).klauses@.last().flags == 0
            &&& final(kitten).end_original_ref == final(kitten).klauses@.len()
            &&& final(kitten).values == old(kitten).values
            &&& final(kitten).lits == old(kitten).lits
            &&& final(kitten).import == old(kitten).import
            &&& final(kitten).export_ == old(kitten).export_
            &&& final(kitten).evars == old(kitten).evars
            &&& final(kitten).marks == old(kitten).marks
            &&& final(kitten).klause == old(kitten).klause
            &&& final(kitten).analyzed == old(kitten).analyzed
            &&& final(kitten).resolved == old(kitten).resolved
            &&& final(kitten).eclause == old(kitten).eclause
            &&& final(kitten).status == old(kitten).status
            &&& final(kitten).assumptions == old(kitten).assumptions
            &&& final(kitten).trail == old(kitten).trail
            &&& final(kitten).antecedents == old(kitten).antecedents
            &&& final(kitten).learned == old(kitten).learned
        },
{
    proof {
        reveal(Kitten::wf_core);
    }
    let res = match new_reference(kitten, stats) {
        Ok(res) => res,
        Err(e) => {
            return Err(e);
        },
    };
    let lits = copy_vec(&kitten.klause);
    let ghost k0 = *kitten;
    kitten.klauses.push(Klause { aux: id, flags: 0, lits, antecedents: Vec::new() });
    proof {
        let k = *kitten;
        lemma_distinct_vars_len(k0.klause@, k0.lits as int);
        assert(klause_ok(k.klauses@[res as int], res as int, k.lits as int, k.antecedents));
        assert(k.klauses@.drop_last() =~= k0.klauses@);
        if k.inconsistent != INVALID {
            assert((k.inconsistent as int) < res);
        }
    }
    connect_new_klause(kitten, res);
    kitten.end_original_ref = kitten.klauses.len();
    proof {
        let k = *kitten;
        assert(klauses_ok(k.klauses@, k.lits as int, k.antecedents)) by {
            assert forall|c: int| 0 <= c < k.klauses@.len() implies klause_ok(#[trigger] k.klauses@[c], c, k.lits as int, k.antecedents) by {
                if c < k0.klauses@.len() {
                    assert(k.klauses@[c] == k0.klauses@[c]);
                    assert(klause_ok(k0.klauses@[c], c, k0.lits as int, k0.antecedents));
                }
            }
        }
        assert forall|i: int| 0 <= i < k.units@.len() implies (#[trigger] k.units@[i] as int) < k.klauses@.len()
            && k.klauses@[k.units@[i] as int].lits@.len() == 1 by {
            if i < k0.units@.len() {
                assert(k.units@[i] == k0.units@[i]);
                assert(k.klauses@[k0.units@[i] as int] == k0.klauses@[k0.units@[i] as int]);
            }
        }
        assert forall|i: int| 0 <= i < k.core@.len() implies (#[trigger] k.core@[i] as int) < k.klauses@.len() by {
            assert(k.core@[i] == k0.core@[i]);
        }
        assert(k.wf_core());
    }
    Ok(())
}

/// Whether a literal is kept in a clause without `except`.
pub open spec fn kept_lit(except: u32) -> spec_fn(u32) -> bool {
    |e: u32| e != except
}

/// The literals of `elits` other than `except`.
pub open spec fn clause_lits(elits: Seq<u32>, except: u32) -> Seq<u32> {
    elits.filter(kept_lit(except))
}

/// The external literals of a clause, apart from `except`, have distinct
/// variables.
pub open spec fn distinct_external(elits: Seq<u32>, except: u32) -> bool {
    forall|i: int, j: int| 0 <= i < elits.len() && 0 <= j < elits.len() && i != j && elits[i] != except && elits[j]
        != except ==> #[trigger] (elits[i] / 2) != #[trigger] (elits[j] / 2)
}

/// External literal `e` is of a variable none of `elits` is of.
pub open spec fn outside(elits: Seq<u32>, e: u32) -> bool {
    forall|j: int| 0 <= j < elits.len() ==> #[trigger] elits[j] / 2 != e / 2
}

/// Adds the clause of the literals `elits` other than `except` as an
/// original klause with identifier `id`, importing new variables; a solved
/// formula is first reset.
#[verifier::rlimit(80)]
pub fn kitten_clause_with_id_and_exception(kitten: &mut Kitten, stats: &mut KittenStatistics, id: u32, elits: &[u32], except: u32) -> (r: Result<(), KittenError>)
    requires
        old(kitten).wf(),
        forall|i: int| 0 <= i < elits@.len() ==> #[trigger] elits@[i] < MAX_ELIT,
        distinct_external(elits@, except),
    ensures
        forall|c: int| 0 <= c < old(kitten).klauses@.len() ==> {
            &&& (#[trigger] final(kitten).klauses@[c]).lits@ == old(kitten).klauses@[c].lits@
            &&& final(kitten).klauses@[c].aux == old(kitten).klauses@[c].aux
            &&& final(kitten).klauses@[c].flags == (if old(kitten).status == 21 {
                (old(kitten).klauses@[c].flags / 2) * 2
            } else {
                old(kitten).klauses@[c].flags as int
            })
        },
        final(kitten).wf(),
        final(kitten).status == 0,
        r is Ok <==> old(kitten).klauses@.len() + 1 < MAX_KLAUSES,
        r is Ok ==> {
            &&& final(kitten).klauses@.len() == old(kitten).klauses@.len() + 1
            &&& final(kitten).klauses@.last().aux == id
            &&& final(kitten).klauses@.last().flags == 0
            &&& final(kitten).klauses@.last().lits@.len() == clause_lits(elits@, except).len()
            &&& forall|j: int| 0 <= j < clause_lits(elits@, except).len() ==> imported_lit(final(kitten),
                #[trigger] clause_lits(elits@, except)[j]) == Some(final(kitten).klauses@.last().lits@[j] as int)
        },
        r is Err ==> final(kitten).klauses@.len() == old(kitten).klauses@.len(),
        final(kitten).assumptions@.len() <= old(kitten).assumptions@.len(),
        final(kitten).antecedents == old(kitten).antecedents,
        forall|e: u32| imported_lit(old(kitten), e) is Some ==> #[trigger] imported_lit(final(kitten), e) == imported_lit(old(kitten), e),
        forall|e: u32| outside(elits@, e) ==> #[trigger] imported_lit(final(kitten), e) == imported_lit(old(kitten), e),
{
    if kitten.status != 0 {
        reset_incremental(kitten);
    }
    let ghost k0 = *kitten;
    let ghost mut kept: Seq<u32> = Seq::empty();
    let mut i: usize = 0;
    while i < elits.len()
        invariant
            kitten.wf_core(),
            kitten.marks_clear(),
            kitten.status == 0,
            kitten.analyzed@.len() == 0,
            kitten.resolved@.len() == 0,
            kitten.eclause@.len() == 0,
            0 <= i <= elits@.len(),
            forall|j: int| 0 <= j < elits@.len() ==> #[trigger] elits@[j] < MAX_ELIT,
            distinct_external(elits@, except),
            kept == clause_lits(elits@.take(i as int), except),
            kitten.klause@.len() == kept.len(),
            forall|j: int| 0 <= j < kept.len() ==> imported_lit(kitten, #[trigger] kept[j]) == Some(kitten.klause@[j] as int),
            lits_below(kitten.klause@, kitten.lits as int),
            distinct_vars(kitten.klause@),
            forall|j: int| 0 <= j < kept.len() ==> exists|m: int| 0 <= m < i && #[trigger] kept[j] == elits@[m],
            kitten.klauses == k0.klauses,
            kitten.assumptions == k0.assumptions,
            kitten.antecedents == k0.antecedents,
            forall|e: u32| imported_lit(&k0, e) is Some ==> #[trigger] imported_lit(kitten, e) == imported_lit(&k0, e),
            forall|e: u32| outside(elits@, e) ==> #[trigger] imported_lit(kitten, e) == imported_lit(&k0, e),
            forall|e: u32| imported_lit(old(kitten), e) is Some || outside(elits@, e) ==> #[trigger] imported_lit(&k0, e) == imported_lit(old(kitten), e),
            k0.antecedents == old(kitten).antecedents,
            k0.assumptions@.len() <= old(kitten).assumptions@.len(),
            k0.klauses@.len() == old(kitten).klauses@.len(),
        decreases elits@.len() - i,
    {
        let elit = elits[i];
        proof {
            assert(elits@.take(i + 1) =~= elits@.take(i as int).push(elit));
        }
        if elit != except {
            let ghost kb = *kitten;
            let ilit = import_literal(kitten, elit);
            let ghost ka = *kitten;
            proof {
                // the new literal's variable is not yet in the klause
                assert forall|j: int| 0 <= j < kept.len() implies (#[trigger] kitten.klause@[j]) / 2 != ilit / 2 by {
                    let m = choose|m: int| 0 <= m < i && kept[j] == elits@[m];
                    assert(elits@[m] / 2 != elit / 2);
                    assert(imported_lit(&kb, kept[j]) == Some(kb.klause@[j] as int));
                    assert(imported_lit(kitten, kept[j]) == Some(kitten.klause@[j] as int));
                    assert(kitten.import@[(kept[j] / 2) as int] != kitten.import@[(elit / 2) as int]) by {
                        reveal(Kitten::wf_core);
                        let a = kitten.import@[(kept[j] / 2) as int];
                        let b = kitten.import@[(elit / 2) as int];
                        if a == b {
                            assert(kitten.export_@[a - 1] == kept[j] / 2);
                            assert(kitten.export_@[b - 1] == elit / 2);
                        }
                    }
                }
            }
            kitten.klause.push(ilit);
            proof {
                kept = kept.push(elit);
                assert(clause_lits(elits@.take(i + 1), except) == kept) by {
                    elits@.take(i as int).lemma_filter_push(elit, kept_lit(except));
                }
                assert(distinct_vars(kitten.klause@)) by {
                    assert forall|a: int, b: int| 0 <= a < kitten.klause@.len() && 0 <= b < kitten.klause@.len() && a != b
                        implies #[trigger] (kitten.klause@[a] / 2) != #[trigger] (kitten.klause@[b] / 2) by {
                        if a < kept.len() - 1 && b < kept.len() - 1 {
                            assert(kitten.klause@[a] == kb.klause@[a] && kitten.klause@[b] == kb.klause@[b]);
                        }
                    }
                }
                assert forall|j: int| 0 <= j < kept.len() implies exists|m: int| 0 <= m < i + 1 && #[trigger] kept[j] == elits@[m] by {
                    if j == kept.len() - 1 {
                        assert(kept[j] == elits@[i as int]);
                    } else {
                        let m = choose|m: int| 0 <= m < i && kept[j] == elits@[m];
                        assert(kept[j] == elits@[m]);
                    }
                }
                assert forall|j: int| 0 <= j < kept.len() implies imported_lit(kitten, #[trigger] kept[j]) == Some(kitten.klause@[j] as int) by {
                    if j < kept.len() - 1 {
                        assert(kept[j] == kept.drop_last()[j]);
                        assert(imported_lit(&kb, kept.drop_last()[j]) == Some(kb.klause@[j] as int));
                        assert(imported_lit(&ka, kept[j]) == imported_lit(&kb, kept[j]));
                        assert(kitten.klause@[j] == kb.klause@[j]);
                    }
                }
                assert(kitten.marks_clear()) by {
                    assert forall|v: int| 0 <= v < kitten.marks@.len() implies #[trigger] kitten.marks@[v] == 0 by {
                        if v < kb.marks@.len() {
                            assert(kitten.marks@[v] == kb.marks@[v]);
                        }
                    }
                }
                assert(lits_below(kitten.klause@, kitten.lits as int));
                lemma_wf_core_scratch(ka, *kitten);
                assert forall|e: u32| imported_lit(&k0, e) is Some implies #[trigger] imported_lit(kitten, e) == imported_lit(&k0, e) by {
                    assert(imported_lit(&kb, e) == imported_lit(&k0, e));
                    assert(imported_lit(&ka, e) == imported_lit(&kb, e));
                }
                assert forall|e: u32| outside(elits@, e) implies #[trigger] imported_lit(kitten, e) == imported_lit(&k0, e) by {
                    assert(elits@[i as int] / 2 != e / 2);
                    assert(imported_lit(&kb, e) == imported_lit(&k0, e));
                    assert(imported_lit(&ka, e) == imported_lit(&kb, e));
                }
            }
        } else {
            proof {
                assert(clause_lits(elits@.take(i + 1), except) == kept) by {
                    elits@.take(i as int).lemma_filter_push(elit, kept_lit(except));
                }
                assert forall|j: int| 0 <= j < kept.len() implies exists|m: int| 0 <= m < i + 1 && #[trigger] kept[j] == elits@[m] by {
                    let m = choose|m: int| 0 <= m < i && kept[j] == elits@[m];
                    assert(kept[j] == elits@[m]);
                }
            }
        }
        i += 1;
    }
    proof {
        assert(elits@.take(elits@.len() as int) =~= elits@);
        assert(kept == clause_lits(elits@, except));
    }
    let ghost kl = *kitten;
    let res = new_original_klause(kitten, stats, id);
    let ghost kr = *kitten;
    kitten.klause.clear();
    proof {
        lemma_wf_core_scratch(kr, *kitten);
        assert forall|e: u32| imported_lit(old(kitten), e) is Some implies #[trigger] imported_lit(kitten, e) == imported_lit(old(kitten), e) by {
            assert(imported_lit(&k0, e) == imported_lit(old(kitten), e));
            assert(imported_lit(&kl, e) == imported_lit(&k0, e));
        }
        assert forall|e: u32| outside(elits@, e) implies #[trigger] imported_lit(kitten, e) == imported_lit(old(kitten), e) by {
            assert(imported_lit(&k0, e) == imported_lit(old(kitten), e));
            assert(imported_lit(&kl, e) == imported_lit(&k0, e));
        }
        if res is Ok {
            assert forall|j: int| 0 <= j < clause_lits(elits@, except).len() implies imported_lit(kitten,
                #[trigger] clause_lits(elits@, except)[j]) == Some(kitten.klauses@.last().lits@[j] as int) by {
                assert(imported_lit(&kl, kept[j]) == Some(kl.klause@[j] as int));
            }
        }
    }
    res
}

proof fn lemma_clause_lits_all(elits: Seq<u32>, except: u32, n: int)
    requires
        0 <= n <= elits.len(),
        forall|i: int| 0 <= i < elits.len() ==> #[trigger] elits[i] != except,
    ensures
        clause_lits(elits.take(n), except) == elits.take(n),
    decreases n,
{
    if n > 0 {
        lemma_clause_lits_all(elits, except, n - 1);
        assert(elits.take(n) =~= elits.take(n - 1).push(elits[n - 1]));
        elits.take(n - 1).lemma_filter_push(elits[n - 1], kept_lit(except));
    } else {
        assert(elits.take(0) =~= Seq::<u32>::empty());
        reveal(Seq::filter);
        assert(Seq::<u32>::empty().filter(kept_lit(except)) =~= Seq::<u32>::empty());
    }
}

/// Adds the clause of the literals `elits` as an original klause.
pub fn kitten_clause(kitten: &mut Kitten, stats: &mut KittenStatistics, elits: &[u32]) -> (r: Result<(), KittenError>)
    requires
        old(kitten).wf(),
        forall|i: int| 0 <= i < elits@.len() ==> #[trigger] elits@[i] < MAX_ELIT,
        distinct_vars(elits@),
    ensures
        forall|c: int| 0 <= c < old(kitten).klauses@.len() ==> {
            &&& (#[trigger] final(kitten).klauses@[c]).lits@ == old(kitten).klauses@[c].lits@
            &&& final(kitten).klauses@[c].aux == old(kitten).klauses@[c].aux
            &&& final(kitten).klauses@[c].flags == (if old(kitten).status == 21 {
                (old(kitten).klauses@[c].flags / 2) * 2
            } else {
                old(kitten).klauses@[c].flags as int
            })
        },
        final(kitten).wf(),
        final(kitten).status == 0,
        r is Ok <==> old(kitten).klauses@.len() + 1 < MAX_KLAUSES,
        r is Ok ==> {
            &&& final(kitten).klauses@.len() == old(kitten).klauses@.len() + 1
            &&& final(kitten).klauses@.last().aux == INVALID
            &&& final(kitten).klauses@.last().flags == 0
            &&& final(kitten).klauses@.last().lits@.len() == elits@.len()
            &&& forall|j: int| 0 <= j < elits@.len() ==> imported_lit(final(kitten), #[trigger] elits@[j])
                == Some(final(kitten).klauses@.last().lits@[j] as int)
        },
        r is Err ==> final(kitten).klauses@.len() == old(kitten).klauses@.len(),
        final(kitten).assumptions@.len() <= old(kitten).assumptions@.len(),
        final(kitten).antecedents == old(kitten).antecedents,
        forall|e: u32| imported_lit(old(kitten), e) is Some ==> #[trigger] imported_lit(final(kitten), e) == imported_lit(old(kitten), e),
        forall|e: u32| outside(elits@, e) ==> #[trigger] imported_lit(final(kitten), e) == imported_lit(old(kitten), e),
{
    proof {
        lemma_clause_lits_all(elits@, INVALID, elits@.len() as int);
        assert(elits@.take(elits@.len() as int) =~= elits@);
    }
    kitten_clause_with_id_and_exception(kitten, stats, INVALID, elits, INVALID)
}

/// Adds the unit clause `lit`.
pub fn kitten_unit(kitten: &mut Kitten, stats: &mut KittenStatistics, lit: u32) -> (r: Result<(), KittenError>)
    requires
        old(kitten).wf(),
        lit < MAX_ELIT,
    ensures
        forall|c: int| 0 <= c < old(kitten).klauses@.len() ==> {
            &&& (#[trigger] final(kitten).klauses@[c]).lits@ == old(kitten).klauses@[c].lits@
            &&& final(kitten).klauses@[c].aux == old(kitten).klauses@[c].aux
            &&& final(kitten).klauses@[c].flags == (if old(kitten).status == 21 {
                (old(kitten).klauses@[c].flags / 2) * 2
            } else {
                old(kitten).klauses@[c].flags as int
            })
        },
        final(kitten).wf(),
        final(kitten).status == 0,
        r is Ok <==> old(kitten).klauses@.len() + 1 < MAX_KLAUSES,
        r is Ok ==> {
            &&& final(kitten).klauses@.len() == old(kitten).klauses@.len() + 1
            &&& final(kitten).klauses@.last().lits@.len() == 1
            &&& imported_lit(final(kitten), lit) == Some(final(kitten).klauses@.last().lits@[0] as int)
        },
        forall|e: u32| imported_lit(old(kitten), e) is Some ==> #[trigger] imported_lit(final(kitten), e) == imported_lit(old(kitten), e),
        forall|e: u32| e / 2 != lit / 2 ==> #[trigger] imported_lit(final(kitten), e) == imported_lit(old(kitten), e),
{
    let lits: [u32; 1] = [lit];
    let r = kitten_clause(kitten, stats, lits.as_slice());
    proof {
        assert forall|e: u32| e / 2 != lit / 2 implies #[trigger] imported_lit(kitten, e) == imported_lit(old(kitten), e) by {
            assert(outside(lits@, e));
        }
        if r is Ok {
            assert(lits@[0] == lit);
        }
    }
    r
}

/// Adds the binary clause of `a` and `b`.
pub fn kitten_binary(kitten: &mut Kitten, stats: &mut KittenStatistics, a: u32, b: u32) -> (r: Result<(), KittenError>)
    requires
        old(kitten).wf(),
        a < MAX_ELIT,
        b < MAX_ELIT,
        a / 2 != b / 2,
    ensures
        forall|c: int| 0 <= c < old(kitten).klauses@.len() ==> {
            &&& (#[trigger] final(kitten).klauses@[c]).lits@ == old(kitten).klauses@[c].lits@
            &&& final(kitten).klauses@[c].aux == old(kitten).klauses@[c].aux
            &&& final(kitten).klauses@[c].flags == (if old(kitten).status == 21 {
                (old(kitten).klauses@[c].flags / 2) * 2
            } else {
                old(kitten).klauses@[c].flags as int
            })
        },
        final(kitten).wf(),
        final(kitten).status == 0,
        r is Ok <==> old(kitten).klauses@.len() + 1 < MAX_KLAUSES,
        r is Ok ==> {
            &&& final(kitten).klauses@.len() == old(kitten).klauses@.len() + 1
            &&& final(kitten).klauses@.last().lits@.len() == 2
            &&& imported_lit(final(kitten), a) == Some(final(kitten).klauses@.last().lits@[0] as int)
            &&& imported_lit(final(kitten), b) == Some(final(kitten).klauses@.last().lits@[1] as int)
        },
        forall|e: u32| imported_lit(old(kitten), e) is Some ==> #[trigger] imported_lit(final(kitten), e) == imported_lit(old(kitten), e),
        forall|e: u32| e / 2 != a / 2 && e / 2 != b / 2 ==> #[trigger] imported_lit(final(kitten), e) == imported_lit(old(kitten), e),
{
    let lits: [u32; 2] = [a, b];
    let r = kitten_clause(kitten, stats, lits.as_slice());
    proof {
        assert forall|e: u32| e / 2 != a / 2 && e / 2 != b / 2 implies #[trigger] imported_lit(kitten, e) == imported_lit(old(kitten), e) by {
            assert(outside(lits@, e));
        }
        if r is Ok {
            assert(lits@[0] == a && lits@[1] == b);
        }
    }
    r
}

/// Adds the assumption `elit` for the next solving; a solved formula is
/// first reset.
pub fn kitten_assume(kitten: &mut Kitten, elit: u32)
    requires
        old(kitten).wf(),
        elit < MAX_ELIT,
        old(kitten).assumptions@.len() + 1 < 0x7fff_ffff,
    ensures
        final(kitten).wf(),
        final(kitten).status == 0,
        final(kitten).assumptions@.len() >= 1,
        imported_lit(final(kitten), elit) == Some(final(kitten).assumptions@.last() as int),
        old(kitten).status == 0 ==> final(kitten).assumptions@.drop_last() == old(kitten).assumptions@,
        final(kitten).klauses@.len() == old(kitten).klauses@.len(),
        forall|c: int| 0 <= c < old(kitten).klauses@.len() ==> {
            &&& (#[trigger] final(kitten).klauses@[c]).lits@ == old(kitten).klauses@[c].lits@
            &&& final(kitten).klauses@[c].aux == old(kitten).klauses@[c].aux
            &&& final(kitten).klauses@[c].flags == (if old(kitten).status == 21 {
                (old(kitten).klauses@[c].flags / 2) * 2
            } else {
                old(kitten).klauses@[c].flags as int
            })
        },
        forall|e: u32| imported_lit(old(kitten), e) is Some ==> #[trigger] imported_lit(final(kitten), e) == imported_lit(old(kitten), e),
        forall|e: u32| e / 2 != elit / 2 ==> #[trigger] imported_lit(final(kitten), e) == imported_lit(old(kitten), e),
        imported_lit(old(kitten), elit) is None ==> {
            &&& final(kitten).nvars() == old(kitten).nvars() + 1
            &&& final(kitten).assumptions@.last() / 2 == old(kitten).nvars()
            &&& final(kitten).values@[final(kitten).assumptions@.last() as int] == 0
        },
        old(kitten).status != 0 ==> {
            &&& final(kitten).assumptions@.len() == 1
            &&& final(kitten).trail@.len() == 0
            &&& final(kitten).level == 0
            &&& forall|l: int| 0 <= l < final(kitten).values@.len() ==> #[trigger] final(kitten).values@[l] == 0
            &&& forall|i: int| 0 <= i < old(kitten).assumptions@.len() ==> !final(kitten).failed@[#[trigger] old(kitten).assumptions@[i] as int]
        },
{
    if kitten.status != 0 {
        reset_incremental(kitten);
    }
    let ghost k0 = *kitten;
    let ilit = import_literal(kitten, elit);
    let ghost k1 = *kitten;
    kitten.assumptions.push(ilit);
    proof {
        reveal(Kitten::wf_core);
        let k = *kitten;
        assert(lits_below(k.assumptions@, k.lits as int)) by {
            assert forall|i: int| 0 <= i < k.assumptions@.len() implies (#[trigger] k.assumptions@[i] as int) < k.lits by {
                if i < k1.assumptions@.len() {
                    assert(k.assumptions@[i] == k1.assumptions@[i]);
                }
            }
        }
        assert(k.wf_core());
        assert(k.assumptions@.drop_last() =~= k1.assumptions@);
        assert forall|e: u32| imported_lit(old(kitten), e) is Some implies #[trigger] imported_lit(kitten, e) == imported_lit(old(kitten), e) by {
            assert(imported_lit(&k0, e) == imported_lit(old(kitten), e));
            assert(imported_lit(&k1, e) == imported_lit(&k0, e));
        }
        if old(kitten).status != 0 {
            lemma_wf_sizes(&k1);
            assert forall|l: int| 0 <= l < k.values@.len() implies #[trigger] k.values@[l] == 0 by {
                assert(k.values@[l] == k1.values@[l]);
                if l < k0.lits {
                    assert(k1.values@[l] == k0.values@[l]);
                } else if l < k1.lits {
                    let w = l / 2;
                    assert(k1.values@[2 * w + 1] == -k1.values@[2 * w]);
                    assert(k1.nvars() == k0.nvars() + 1 || imported_lit(&k0, elit) is Some);
                } else {
                    assert(values_ok(k1.values@, k1.lits as int));
                }
            }
        }
        assert forall|e: u32| e / 2 != elit / 2 implies #[trigger] imported_lit(kitten, e) == imported_lit(old(kitten), e) by {
            assert(imported_lit(&k0, e) == imported_lit(old(kitten), e));
            assert(imported_lit(&k1, e) == imported_lit(&k0, e));
        }
    }
}

/// Zeroes the counters and cursors and initializes the solver again.
fn clear_kitten(kitten: &mut Kitten)
    ensures
        final(kitten).status == 0 && !final(kitten).antecedents && !final(kitten).learned,
        final(kitten).level == 0 && final(kitten).propagated == 0 && final(kitten).unassigned == 0,
        final(kitten).lits == 0 && final(kitten).evars == 0 && final(kitten).end_original_ref == 0,
        final(kitten).queue == (Kueue { first: INVALID, last: INVALID, stamp: 0, search: INVALID }),
        final(kitten).inconsistent == INVALID && final(kitten).failing == INVALID,
        final(kitten).limits.ticks == u64::MAX,
        final(kitten).generator == old(kitten).initialized,
        final(kitten).initialized == old(kitten).initialized.wrapping_add(1),
        *final(kitten) == (Kitten {
            status: 0,
            antecedents: false,
            learned: false,
            level: 0,
            propagated: 0,
            unassigned: 0,
            inconsistent: INVALID,
            failing: INVALID,
            generator: final(kitten).generator,
            lits: 0,
            evars: 0,
            end_original_ref: 0,
            queue: final(kitten).queue,
            limits: final(kitten).limits,
            initialized: final(kitten).initialized,
            ..*old(kitten)
        }),
{
    kitten.status = 0;
    kitten.antecedents = false;
    kitten.learned = false;
    kitten.level = 0;
    kitten.propagated = 0;
    kitten.unassigned = 0;
    kitten.inconsistent = 0;
    kitten.failing = 0;
    kitten.generator = 0;
    kitten.lits = 0;
    kitten.evars = 0;
    kitten.end_original_ref = 0;
    kitten.queue = Kueue { first: 0, last: 0, stamp: 0, search: 0 };
    initialize_kitten(kitten);
}

/// Empties the solver for reuse: no variables, klauses or assumptions,
/// every value, phase and failed mark reset; the tables keep their size.
#[verifier::rlimit(60)]
pub fn kitten_clear(kitten: &mut Kitten)
    requires
        old(kitten).wf(),
    ensures
        final(kitten).wf(),
        final(kitten).status == 0,
        final(kitten).nvars() == 0,
        final(kitten).evars == 0,
        final(kitten).klauses@.len() == 0,
        final(kitten).assumptions@.len() == 0,
        !final(kitten).antecedents,
        !final(kitten).learned,
        final(kitten).limits.ticks == u64::MAX,
        final(kitten).generator == old(kitten).initialized,
        final(kitten).initialized == old(kitten).initialized.wrapping_add(1),
        final(kitten).size == old(kitten).size,
        final(kitten).esize == old(kitten).esize,
        forall|v: int| 0 <= v < final(kitten).phases@.len() ==> #[trigger] final(kitten).phases@[v] == 0,
        forall|v: int| 0 <= v < final(kitten).vars@.len() ==> #[trigger] final(kitten).vars@[v] == (Kar { level: 0, reason: 0 }),
        forall|m: int| 0 <= m < final(kitten).values@.len() ==> #[trigger] final(kitten).values@[m] == 0,
        forall|m: int| 0 <= m < final(kitten).failed@.len() ==> !#[trigger] final(kitten).failed@[m],
        forall|e: int| 0 <= e < final(kitten).import@.len() ==> #[trigger] final(kitten).import@[e] == 0,
        final(kitten).trail@.len() == 0,
        final(kitten).units@.len() == 0,
        final(kitten).core@.len() == 0,
        final(kitten).inconsistent == INVALID,
        final(kitten).failing == INVALID,
        final(kitten).level == 0,
{
    proof {
        reveal(Kitten::wf_core);
    }
    let ghost k0 = *kitten;
    kitten.assumptions.clear();
    kitten.core.clear();
    kitten.klause.clear();
    kitten.klauses.clear();
    kitten.trail.clear();
    kitten.units.clear();
    let lits = kitten.lits;
    let mut l: usize = 0;
    let ghost ka = *kitten;
    while l < lits
        invariant
            l <= lits == k0.lits <= k0.size,
            *kitten == (Kitten { watches: kitten.watches, ..ka }),
            ka == (Kitten { assumptions: ka.assumptions, core: ka.core, klause: ka.klause, klauses: ka.klauses,
                trail: ka.trail, units: ka.units, ..k0 }),
            kitten.watches@.len() == k0.size,
            forall|m: int| 0 <= m < l ==> (#[trigger] kitten.watches@[m])@.len() == 0,
            forall|m: int| l <= m < k0.size ==> #[trigger] kitten.watches@[m] == k0.watches@[m],
        decreases lits - l,
    {
        kitten.watches[l].clear();
        l += 1;
    }
    proof {
        assert forall|m: int| 0 <= m < k0.size implies (#[trigger] kitten.watches@[m])@.len() == 0 by {
            if m >= lits {
                assert(k0.watches@[m]@.len() == 0);
            }
        }
    }
    let ghost kw = kitten.watches@;
    let ghost kb = *kitten;
    while kitten.export_.len() > 0
        invariant
            *kitten == (Kitten { import: kitten.import, export_: kitten.export_, ..kb }),
            kitten.import@.len() == k0.import@.len(),
            kitten.evars == k0.evars,
            kitten.evars <= kitten.import@.len(),
            import_ok(kitten.import@, kitten.export_@, kitten.evars as int),
        decreases kitten.export_@.len(),
    {
        let ghost ex = kitten.export_@;
        let eidx = kitten.export_.pop().unwrap();
        proof {
            assert(ex.last() == eidx);
            assert(kitten.export_@ =~= ex.drop_last());
            assert((eidx as int) < kitten.evars);
        }
        kitten.import.set(eidx as usize, 0);
        proof {
            let n = ex.len() - 1;
            assert forall|e: int| 0 <= e < kitten.import@.len() && #[trigger] kitten.import@[e] != 0 implies e < kitten.evars
                && kitten.import@[e] - 1 < kitten.export_@.len() && kitten.export_@[kitten.import@[e] - 1] == e by {
                assert(e != eidx);
                assert(kitten.import@[e] - 1 < ex.len() && ex[kitten.import@[e] - 1] == e);
                assert(kitten.import@[e] - 1 != n);
            }
            assert forall|i: int| 0 <= i < kitten.export_@.len() implies (#[trigger] kitten.export_@[i] as int) < kitten.evars
                && kitten.import@[kitten.export_@[i] as int] == i + 1 by {
                assert(ex[i] == kitten.export_@[i]);
                assert(ex[i] != eidx);
            }
        }
    }
    let size = kitten.size;
    let vars = size / 2;
    let mut i: usize = 0;
    let ghost kc = *kitten;
    while i < vars
        invariant
            *kitten == (Kitten { phases: kitten.phases, vars: kitten.vars, ..kc }),
            vars == k0.size / 2,
            i <= vars,
            kitten.phases@.len() == vars,
            kitten.vars@.len() == vars,
            forall|v: int| 0 <= v < i ==> #[trigger] kitten.phases@[v] == 0,
            forall|v: int| 0 <= v < i ==> #[trigger] kitten.vars@[v] == (Kar { level: 0, reason: 0 }),
        decreases vars - i,
    {
        kitten.phases.set(i, 0);
        kitten.vars.set(i, Kar { level: 0, reason: 0 });
        i += 1;
    }
    let mut i: usize = 0;
    let ghost kd = *kitten;
    while i < size
        invariant
            *kitten == (Kitten { values: kitten.values, failed: kitten.failed, ..kd }),
            forall|v: int| 0 <= v < vars ==> #[trigger] kitten.phases@[v] == 0,
            forall|v: int| 0 <= v < vars ==> #[trigger] kitten.vars@[v] == (Kar { level: 0, reason: 0 }),
            forall|m: int| 0 <= m < i ==> !#[trigger] kitten.failed@[m],
            size == k0.size,
            i <= size,
            kitten.values@.len() == size,
            kitten.failed@.len() == size,
            forall|m: int| 0 <= m < i ==> #[trigger] kitten.values@[m] == 0,
        decreases size - i,
    {
        kitten.values.set(i, 0);
        kitten.failed.set(i, false);
        i += 1;
    }
    clear_kitten(kitten);
    proof {
        kitten.order = Ghost(Seq::empty());
        reveal(linked);
        reveal(stamped);
        let k = *kitten;
        assert forall|e: int| 0 <= e < k.import@.len() implies #[trigger] k.import@[e] == 0 by {
            if k.import@[e] != 0 {
                assert(k.import@[e] - 1 < 0);
            }
        }
        assert(import_ok(k.import@, k.export_@, 0));
        assert(k.watches@ == kw);
        assert(watches_ok(k.watches@, k.klauses@, 0)) by {
            assert forall|l: int| 0 <= l < k.watches@.len() implies {
                &&& (l >= 0 ==> (#[trigger] k.watches@[l])@.len() == 0)
                &&& watch_list_ok(k.watches@[l]@, l, k.klauses@, 0)
            } by {
                assert(kw[l]@.len() == 0);
            }
        }
        assert(values_ok(k.values@, 0));
        assert(k.wf_core());
    }
}

/*------------------------------------------------------------------------*/
// Search.

/// The statistics other than the ticks are unchanged.
pub open spec fn stats_frame(a: KittenStatistics, b: KittenStatistics) -> bool {
    &&& b.kitten_propagations == a.kitten_propagations
    &&& b.kitten_solved == a.kitten_solved
    &&& b.kitten_conflicts == a.kitten_conflicts
    &&& b.kitten_decisions == a.kitten_decisions
    &&& b.kitten_flip == a.kitten_flip
    &&& b.kitten_flipped == a.kitten_flipped
    &&& b.kitten_sat == a.kitten_sat
    &&& b.kitten_unsat == a.kitten_unsat
    &&& b.kitten_unknown == a.kitten_unknown
    &&& b.terminate == a.terminate
}

/// Adds the literals in `klause` as a learned klause, with the klauses in
/// `resolved` as its antecedents when antecedents are tracked.
#[verifier::rlimit(60)]
fn new_learned_klause(kitten: &mut Kitten, stats: &mut KittenStatistics) -> (r: Result<u32, KittenError>)
    requires
        old(kitten).wf_core(),
        lits_below(old(kitten).klause@, old(kitten).lits as int),
        distinct_vars(old(kitten).klause@),
        forall|i: int| 0 <= i < old(kitten).resolved@.len() ==> (#[trigger] old(kitten).resolved@[i] as int) < old(kitten).klauses@.len(),
        old(kitten).resolved@.len() <= u32::MAX,
    ensures
        r is Ok <==> old(kitten).klauses@.len() + 1 < MAX_KLAUSES,
        final(kitten).wf_core(),
        ticks_grew(*old(stats), *final(stats)),
        stats_frame(*old(stats), *final(stats)),
        r is Err ==> *final(kitten) == *old(kitten),
        r is Ok ==> {
            &&& r->Ok_0 == old(kitten).klauses@.len()
            &&& final(kitten).klauses@.len() == old(kitten).klauses@.len() + 1
            &&& forall|c: int| 0 <= c < old(kitten).klauses@.len() ==> #[trigger] final(kitten).klauses@[c]
                == old(kitten).klauses@[c]
            &&& final(kitten).klauses@.last().lits@ == old(kitten).klause@
            &&& final(kitten).klauses@.last().flags == LEARNED_FLAG
            &&& final(kitten).learned
            &&& old(kitten).klause@.len() < 2 ==> final(kitten).watches == old(kitten).watches
            &&& *final(kitten) == (Kitten {
                klauses: final(kitten).klauses,
                watches: final(kitten).watches,
                units: final(kitten).units,
                inconsistent: final(kitten).inconsistent,
                learned: true,
                ..*old(kitten)
            })
        },
{
    proof {
        reveal(Kitten::wf_core);
    }
    let res = match new_reference(kitten, stats) {
        Ok(res) => res,
        Err(e) => {
            return Err(e);
        },
    };
    let lits = copy_vec(&kitten.klause);
    let aux: u32 = if kitten.antecedents { kitten.resolved.len() as u32 } else { 0 };
    let antecedents = if aux != 0 { copy_vec(&kitten.resolved) } else { Vec::new() };
    let ghost k0 = *kitten;
    kitten.klauses.push(Klause { aux, flags: LEARNED_FLAG, lits, antecedents });
    proof {
        let k = *kitten;
        lemma_distinct_vars_len(k0.klause@, k0.lits as int);
        assert(klause_ok(k.klauses@[res as int], res as int, k.lits as int, k.antecedents));
        assert(k.klauses@.drop_last() =~= k0.klauses@);
        if k.inconsistent != INVALID {
            assert((k.inconsistent as int) < res);
        }
    }
    connect_new_klause(kitten, res);
    kitten.learned = true;
    proof {
        let k = *kitten;
        assert(klauses_ok(k.klauses@, k.lits as int, k.antecedents)) by {
            assert forall|c: int| 0 <= c < k.klauses@.len() implies klause_ok(#[trigger] k.klauses@[c], c, k.lits as int, k.antecedents) by {
                if c < k0.klauses@.len() {
                    assert(k.klauses@[c] == k0.klauses@[c]);
                    assert(klause_ok(k0.klauses@[c], c, k0.lits as int, k0.antecedents));
                }
            }
        }
        assert forall|i: int| 0 <= i < k.units@.len() implies (#[trigger] k.units@[i] as int) < k.klauses@.len()
            && k.klauses@[k.units@[i] as int].lits@.len() == 1 by {
            if i < k0.units@.len() {
                assert(k.units@[i] == k0.units@[i]);
                assert(k.klauses@[k0.units@[i] as int] == k0.klauses@[k0.units@[i] as int]);
            }
        }
        assert forall|i: int| 0 <= i < k.core@.len() implies (#[trigger] k.core@[i] as int) < k.klauses@.len() by {
            assert(k.core@[i] == k0.core@[i]);
        }
        assert(k.wf_core());
    }
    Ok(res)
}

/// A saturating counter after one more event when `yes`.
pub open spec fn counted(c: u64, yes: bool) -> int {
    if yes && c < u64::MAX { c + 1 } else { c as int }
}

/// The counters of answers are unchanged.
pub open spec fn outcomes_kept(a: KittenStatistics, b: KittenStatistics) -> bool {
    &&& b.kitten_sat == a.kitten_sat
    &&& b.kitten_unsat == a.kitten_unsat
    &&& b.kitten_unknown == a.kitten_unknown
}

/// The tick counter did not go down.
pub open spec fn ticks_grew(a: KittenStatistics, b: KittenStatistics) -> bool {
    a.kitten_ticks <= b.kitten_ticks
}

/// The reason `r` of an assignment is valid for `k`.
pub open spec fn reason_ok(k: &Kitten, r: u32) -> bool {
    r == INVALID || (r as int) < k.klauses@.len()
}

/// Assigns `lit` true at the current level with reason `reason`; at the
/// root level a reason of more than one literal is replaced by a learned
/// unit klause (with the reason and the reasons of its other literals as
/// antecedents when those are tracked).
#[verifier::rlimit(80)]
fn assign(kitten: &mut Kitten, stats: &mut KittenStatistics, lit: u32, reason: u32) -> (r: Result<(), KittenError>)
    requires
        old(kitten).wf(),
        (lit as int) < old(kitten).lits,
        old(kitten).values@[lit as int] == 0,
        reason_ok(old(kitten), reason),
        old(kitten).level == 0 ==> reason != INVALID,
    ensures
        r is Err ==> final(kitten).klauses@.len() + 1 >= MAX_KLAUSES,
        final(kitten).wf(),
        ticks_grew(*old(stats), *final(stats)),
        stats_frame(*old(stats), *final(stats)),
        final(kitten).klauses@.len() >= old(kitten).klauses@.len(),
        forall|c: int| 0 <= c < old(kitten).klauses@.len() ==> (#[trigger] final(kitten).klauses@[c]).lits@
            == old(kitten).klauses@[c].lits@,
        final(kitten).level == old(kitten).level,
        final(kitten).propagated == old(kitten).propagated,
        final(kitten).status == old(kitten).status,
        final(kitten).assumptions == old(kitten).assumptions,
        final(kitten).lits == old(kitten).lits,
        final(kitten).import == old(kitten).import,
        final(kitten).evars == old(kitten).evars,
        r is Ok ==> {
            &&& final(kitten).values@ == old(kitten).values@.update(lit as int, 1i8).update(spec_not(lit) as int, -1i8)
            &&& final(kitten).trail@ == old(kitten).trail@.push(lit)
        },
        r is Err ==> final(kitten).klauses@.len() == old(kitten).klauses@.len(),
        r is Err ==> final(kitten).trail == old(kitten).trail,
        final(kitten).watches == old(kitten).watches,
        !(old(kitten).level == 0 && old(kitten).klauses@[reason as int].lits@.len() > 1) ==> {
            &&& *final(stats) == *old(stats)
            &&& final(kitten).units == old(kitten).units
            &&& final(kitten).klauses == old(kitten).klauses
            &&& r is Ok
        },
{
    proof {
        reveal(Kitten::wf_core);
        crate::literal::lemma_xor_one(lit);
        let v = (lit / 2) as int;
        assert(old(kitten).values@[2 * v + 1] == -old(kitten).values@[2 * v]);
        assert(lit == 2 * v || lit == 2 * v + 1);
        assert(old(kitten).values@[2 * v] == 0);
    }
    let not_lit = lit ^ 1;
    let idx = (lit / 2) as usize;
    let mut reason = reason;
    if kitten.level == 0 && kitten.klauses[reason as usize].lits.len() > 1 {
        if kitten.antecedents {
            kitten.resolved.push(reason);
            let size = kitten.klauses[reason as usize].lits.len();
            let mut i: usize = 0;
            while i < size
                invariant
                    i <= size,
                    size == kitten.klauses@[reason as int].lits@.len(),
                    (reason as int) < kitten.klauses@.len(),
                    kitten.klauses@.len() < MAX_KLAUSES,
                    kitten.resolved@.len() <= i + 1,
                    forall|j: int| 0 <= j < kitten.resolved@.len() ==> (#[trigger] kitten.resolved@[j] as int) < kitten.klauses@.len(),
                    kitten.vars@.len() == kitten.size / 2,
                    lits_below(kitten.klauses@[reason as int].lits@, kitten.lits as int),
                    kitten.lits <= kitten.size,
                    kitten.size % 2 == 0,
                    *kitten == (Kitten { resolved: kitten.resolved, ..*old(kitten) }),
                decreases size - i,
            {
                let other = kitten.klauses[reason as usize].lits[i];
                if other != lit {
                    let other_ref = kitten.vars[(other / 2) as usize].reason;
                    if (other_ref as usize) < kitten.klauses.len() {
                        kitten.resolved.push(other_ref);
                    }
                }
                i += 1;
            }
            proof {
                assert(klause_ok(kitten.klauses@[reason as int], reason as int, kitten.lits as int, kitten.antecedents));
            }
        }
        kitten.klause.push(lit);
        let ghost kb = *kitten;
        proof {
            assert(lits_below(kitten.klause@, kitten.lits as int));
            assert(distinct_vars(kitten.klause@));
            lemma_wf_core_scratch(*old(kitten), kb);
        }
        match new_learned_klause(kitten, stats) {
            Ok(res) => {
                reason = res;
            },
            Err(e) => {
                let ghost ke = *kitten;
                kitten.resolved.clear();
                kitten.klause.clear();
                proof {
                    lemma_wf_core_scratch(ke, *kitten);
                }
                return Err(e);
            },
        }
        kitten.resolved.clear();
        kitten.klause.clear();
    }
    let ghost k1 = *kitten;
    proof {
        lemma_wf_core_scratch(k1, *kitten);
    }
    kitten.values.set(lit as usize, 1);
    kitten.values.set(not_lit as usize, -1);
    kitten.phases.set(idx, (lit & 1) as u8);
    kitten.trail.push(lit);
    let level = kitten.level;
    kitten.vars.set(idx, Kar { level, reason });
    proof {
        let k = *kitten;
        assert(k1.values@[2 * idx as int] == 0);
        lemma_count_flip(k1.values@, k.values@, k1.nvars(), idx as int);
        lemma_count_bounds(k1.values@, k1.nvars());
        assert(k1.unassigned > 0) by {
            if k1.unassigned == 0 {
                lemma_count_zero(k1.values@, k1.nvars());
                assert(k1.values@[2 * idx as int] != 0);
            }
        }
    }
    kitten.unassigned = kitten.unassigned - 1;
    proof {
        let k = *kitten;
        assert((lit & 1u32) as u8 <= 1) by (bit_vector);
        assert(values_ok(k.values@, k.lits as int)) by {
            assert forall|v: int| 0 <= 2 * v && 2 * v + 1 < k.lits implies #[trigger] k.values@[2 * v + 1] == -k.values@[2 * v] by {
                if v != idx {
                    assert(k.values@[2 * v + 1] == k1.values@[2 * v + 1]);
                    assert(k.values@[2 * v] == k1.values@[2 * v]);
                }
            }
        }
        assert(search_ok(k.queue, k.order@, k.values@)) by {
            assert forall|i: int, j: int| 0 <= i < j < k.order@.len() && k.order@[i] == k.queue.search implies k.values@[2 * k.order@[j]] != 0 by {
                if k.order@[j] != idx {
                    assert(k.values@[2 * k.order@[j]] == k1.values@[2 * k.order@[j]]);
                }
            }
        }
        assert(distinct_vars(k.trail@)) by {
            assert forall|a: int, b: int| 0 <= a < k.trail@.len() && 0 <= b < k.trail@.len() && a != b implies #[trigger] (k.trail@[a] / 2) != #[trigger] (k.trail@[b] / 2) by {
                if a < k1.trail@.len() && b < k1.trail@.len() {
                    assert(k.trail@[a] == k1.trail@[a] && k.trail@[b] == k1.trail@[b]);
                } else if a < k1.trail@.len() {
                    assert(k1.values@[k1.trail@[a] as int] != 0);
                    let w = (k1.trail@[a] / 2) as int;
                    assert(k1.values@[2 * w + 1] == -k1.values@[2 * w]);
                } else {
                    assert(k1.values@[k1.trail@[b] as int] != 0);
                    let w = (k1.trail@[b] / 2) as int;
                    assert(k1.values@[2 * w + 1] == -k1.values@[2 * w]);
                }
            }
        }
        assert forall|i: int| 0 <= i < k.trail@.len() implies k.values@[#[trigger] k.trail@[i] as int] != 0 by {
            if i < k1.trail@.len() {
                assert(k.trail@[i] == k1.trail@[i]);
                assert(k1.values@[k1.trail@[i] as int] != 0);
                let w = (k1.trail@[i] / 2) as int;
                assert(k1.values@[2 * w + 1] == -k1.values@[2 * w]);
                assert(w != idx);
            }
        }
        assert forall|v: int| 0 <= v < k.phases@.len() implies #[trigger] k.phases@[v] <= 1 by {
            if v != idx {
                assert(k.phases@[v] == k1.phases@[v]);
            }
        }
        assert(lits_below(k.trail@, k.lits as int));
        assert(k.wf_core());
    }
    Ok(())
}

/// The watches of a list taken out of literal `l` are well formed.
pub open spec fn pending_ok(k: &Kitten, l: int, ws: Seq<Katch>) -> bool {
    &&& forall|j: int| 0 <= j < ws.len() ==> katch_ok(#[trigger] ws[j], l, k.klauses@, k.lits as int)
    &&& forall|i: int, j: int| 0 <= i < ws.len() && 0 <= j < ws.len() && i != j ==> #[trigger] ws[i].spec_ref() != #[trigger] ws[j].spec_ref()
}

/// A well formed watch list is no longer than the klauses it refers to.
pub(crate) proof fn lemma_watch_list_len(ws: Seq<Katch>, l: int, klauses: Seq<Klause>, lits: int)
    requires
        watch_list_ok(ws, l, klauses, lits),
    ensures
        ws.len() <= klauses.len(),
{
    let t = Seq::new(ws.len(), |i: int| ws[i].spec_ref() as int);
    assert forall|a: int, b: int| 0 <= a < t.len() && 0 <= b < t.len() && a != b implies t[a] != t[b] by {
        assert(ws[a].spec_ref() != ws[b].spec_ref());
    }
    assert forall|i: int| 0 <= i < t.len() implies 0 <= #[trigger] t[i] < klauses.len() by {
        assert(katch_ok(ws[i], l, klauses, lits));
    }
    crate::seqs::lemma_distinct_bounded(t, klauses.len() as int);
}

/// Klauses whose literals are unchanged keep their watches well formed.
proof fn lemma_pending_frame(a: &Kitten, b: &Kitten, l: int, ws: Seq<Katch>)
    requires
        pending_ok(a, l, ws),
        b.lits == a.lits,
        b.klauses@.len() >= a.klauses@.len(),
        forall|c: int| 0 <= c < a.klauses@.len() ==> (#[trigger] b.klauses@[c]).lits@ == a.klauses@[c].lits@,
    ensures
        pending_ok(b, l, ws),
{
    assert forall|j: int| 0 <= j < ws.len() implies katch_ok(#[trigger] ws[j], l, b.klauses@, b.lits as int) by {
        assert(katch_ok(ws[j], l, a.klauses@, a.lits as int));
        assert(b.klauses@[ws[j].spec_ref() as int].lits@ == a.klauses@[ws[j].spec_ref() as int].lits@);
    }
}

/// Putting a well formed list back into the empty slot of `l` keeps the
/// watches well formed.
pub(crate) proof fn lemma_put_back(watches: Seq<Vec<Katch>>, klauses: Seq<Klause>, lits: int, l: int, ws: Vec<Katch>)
    requires
        watches_ok(watches, klauses, lits),
        0 <= l < lits,
        l < watches.len(),
        forall|j: int| 0 <= j < ws@.len() ==> katch_ok(#[trigger] ws@[j], l, klauses, lits),
        forall|i: int, j: int| 0 <= i < ws@.len() && 0 <= j < ws@.len() && i != j ==> #[trigger] ws@[i].spec_ref() != #[trigger] ws@[j].spec_ref(),
    ensures
        watches_ok(watches.update(l, ws), klauses, lits),
{
    let w2 = watches.update(l, ws);
    assert forall|m: int| 0 <= m < w2.len() implies {
        &&& (m >= lits ==> (#[trigger] w2[m])@.len() == 0)
        &&& watch_list_ok(w2[m]@, m, klauses, lits)
    } by {
        if m != l {
            assert(w2[m] == watches[m]);
        }
    }
}

/// The literal watched together with `l` in a klause watched by `l`.
pub open spec fn partner(c: Seq<u32>, l: u32) -> u32 {
    if c[0] == l { c[1] } else { c[0] }
}

/// Moves the watch of klause `r` from `l` (one of its first two literals)
/// to the replacement literal at position `i >= 2`: the partner becomes
/// the first literal, the replacement the second and `l` takes position
/// `i`; the replacement watches the klause.
#[verifier::rlimit(100)]
#[verifier::spinoff_prover]
fn replace_watch(kitten: &mut Kitten, l: u32, r: u32, i: u32, Ghost(pending): Ghost<Seq<Katch>>)
    requires
        old(kitten).wf(),
        (l as int) < old(kitten).lits,
        old(kitten).watches@[l as int]@.len() == 0,
        (r as int) < old(kitten).klauses@.len(),
        2 <= i < old(kitten).klauses@[r as int].lits@.len(),
        old(kitten).klauses@[r as int].lits@[0] == l || old(kitten).klauses@[r as int].lits@[1] == l,
        pending_ok(old(kitten), l as int, pending),
        forall|j: int| 0 <= j < pending.len() ==> (#[trigger] pending[j]).spec_ref() != r,
    ensures
        final(kitten).wf(),
        pending_ok(final(kitten), l as int, pending),
        final(kitten).watches@[l as int]@.len() == 0,
        final(kitten).klauses@.len() == old(kitten).klauses@.len(),
        final(kitten).klauses@[r as int].lits@ == old(kitten).klauses@[r as int].lits@.update(0,
            partner(old(kitten).klauses@[r as int].lits@, l)).update(1, old(kitten).klauses@[r as int].lits@[i as int]).update(
            i as int, l),
        forall|c: int| 0 <= c < old(kitten).klauses@.len() && c != r ==> (#[trigger] final(kitten).klauses@[c]).lits@
            == old(kitten).klauses@[c].lits@,
        *final(kitten) == (Kitten { klauses: final(kitten).klauses, watches: final(kitten).watches, ..*old(kitten) }),
{
    proof {
        reveal(Kitten::wf_core);
    }
    let ghost k0 = *kitten;
    let ghost c0 = kitten.klauses@[r as int].lits@;
    let l0 = kitten.klauses[r as usize].lits[0];
    let l1 = kitten.klauses[r as usize].lits[1];
    let other = l0 ^ l1 ^ l;
    proof {
        crate::literal::lemma_xor_cancel(l0, l1);
        assert(other == partner(c0, l));
        assert(klause_ok(k0.klauses@[r as int], r as int, k0.lits as int, k0.antecedents));
    }
    let replacement = kitten.klauses[r as usize].lits[i as usize];
    kitten.k_set_lit(r, 0, other);
    kitten.k_set_lit(r, 1, replacement);
    kitten.k_set_lit(r, i, l);
    let ghost k1 = *kitten;
    let ghost c1 = k1.klauses@[r as int].lits@;
    proof {
        assert(c1 =~= c0.update(0, other).update(1, c0[i as int]).update(i as int, l));
        // the klause keeps its literals, permuted
        assert(distinct_vars(c1)) by {
            assert forall|a: int, b: int| 0 <= a < c1.len() && 0 <= b < c1.len() && a != b implies #[trigger] (c1[a] / 2) != #[trigger] (c1[b] / 2) by {
                let pa = if a == 0 { if c0[0] == l { 1int } else { 0int } } else if a == 1 { i as int } else if a == i { if c0[0] == l { 0int } else { 1int } } else { a };
                let pb = if b == 0 { if c0[0] == l { 1int } else { 0int } } else if b == 1 { i as int } else if b == i { if c0[0] == l { 0int } else { 1int } } else { b };
                assert(c1[a] == c0[pa]);
                assert(c1[b] == c0[pb]);
                assert(pa != pb);
            }
        }
        assert(lits_below(c1, k1.lits as int)) by {
            assert forall|a: int| 0 <= a < c1.len() implies (#[trigger] c1[a] as int) < k1.lits by {
                let pa = if a == 0 { if c0[0] == l { 1int } else { 0int } } else if a == 1 { i as int } else if a == i { if c0[0] == l { 0int } else { 1int } } else { a };
                assert(c1[a] == c0[pa]);
            }
        }
        assert(klauses_ok(k1.klauses@, k1.lits as int, k1.antecedents)) by {
            assert forall|c: int| 0 <= c < k1.klauses@.len() implies klause_ok(#[trigger] k1.klauses@[c], c, k1.lits as int, k1.antecedents) by {
                assert(klause_ok(k0.klauses@[c], c, k0.lits as int, k0.antecedents));
            }
        }
    }
    watch_klause(kitten, replacement, r);
    proof {
        let k = *kitten;
        assert(c0[i as int] / 2 != l / 2);
        assert(replacement != l);
        assert forall|m: int| 0 <= m < k.watches@.len() implies {
            &&& (m >= k.lits ==> (#[trigger] k.watches@[m])@.len() == 0)
            &&& watch_list_ok(k.watches@[m]@, m, k.klauses@, k.lits as int)
        } by {
            let ws0 = k0.watches@[m]@;
            assert(watch_list_ok(ws0, m, k0.klauses@, k0.lits as int));
            assert forall|j: int| 0 <= j < ws0.len() implies katch_ok(#[trigger] ws0[j], m, k.klauses@, k.lits as int) by {
                assert(katch_ok(ws0[j], m, k0.klauses@, k0.lits as int));
                if ws0[j].spec_ref() == r {
                    assert(m == l || m == other);
                    assert(m != l);
                }
            }
            if m == replacement {
                let ws = k.watches@[m]@;
                let n = ws.len() - 1;
                assert(ws == ws0.push(ws[n]));
                assert forall|j: int| 0 <= j < ws.len() implies katch_ok(#[trigger] ws[j], m, k.klauses@, k.lits as int) by {
                    if j < n {
                        assert(ws[j] == ws0[j]);
                    }
                }
                assert forall|a: int, b: int| 0 <= a < ws.len() && 0 <= b < ws.len() && a != b implies
                    #[trigger] ws[a].spec_ref() != #[trigger] ws[b].spec_ref() by {
                    if a < n && b < n {
                        assert(ws[a] == ws0[a] && ws[b] == ws0[b]);
                    } else if a < n {
                        assert(ws[a] == ws0[a]);
                        assert(katch_ok(ws0[a], m, k0.klauses@, k0.lits as int));
                        if ws0[a].spec_ref() == r {
                            assert(c0[0] == m || c0[1] == m);
                            assert(c0[i as int] / 2 != c0[0] / 2 && c0[i as int] / 2 != c0[1] / 2);
                        }
                    } else {
                        assert(ws[b] == ws0[b]);
                        assert(katch_ok(ws0[b], m, k0.klauses@, k0.lits as int));
                        if ws0[b].spec_ref() == r {
                            assert(c0[0] == m || c0[1] == m);
                            assert(c0[i as int] / 2 != c0[0] / 2 && c0[i as int] / 2 != c0[1] / 2);
                        }
                    }
                }
            } else {
                assert(k.watches@[m] == k0.watches@[m]);
            }
        }
        assert forall|j: int| 0 <= j < pending.len() implies katch_ok(#[trigger] pending[j], l as int, k.klauses@, k.lits as int) by {
            assert(katch_ok(pending[j], l as int, k0.klauses@, k0.lits as int));
        }
        assert(k.wf_core());
    }
}

/// The ticks grew by at least one, unless they are saturated.
pub open spec fn ticks_advanced(a: KittenStatistics, b: KittenStatistics) -> bool {
    &&& a.kitten_ticks <= b.kitten_ticks
    &&& (a.kitten_ticks < b.kitten_ticks || b.kitten_ticks == u64::MAX)
}

/// Searches klause `r` from position 2 on for a literal that is not false.
fn find_replacement(kitten: &Kitten, r: u32) -> (res: Option<u32>)
    requires
        kitten.wf(),
        (r as int) < kitten.klauses@.len(),
        kitten.klauses@[r as int].lits@.len() >= 2,
    ensures
        match res {
            Some(i) => 2 <= i < kitten.klauses@[r as int].lits@.len() && kitten.values@[kitten.klauses@[r as int].lits@[i as int] as int] >= 0,
            None => forall|i: int| 2 <= i < kitten.klauses@[r as int].lits@.len() ==> kitten.values@[#[trigger] kitten.klauses@[r as int].lits@[i] as int] < 0,
        },
{
    proof {
        reveal(Kitten::wf_core);
        assert(klause_ok(kitten.klauses@[r as int], r as int, kitten.lits as int, kitten.antecedents));
    }
    let size = kitten.klauses[r as usize].lits.len();
    let mut i: usize = 2;
    while i != size
        invariant
            2 <= i <= size,
            size == kitten.klauses@[r as int].lits@.len(),
            (r as int) < kitten.klauses@.len(),
            lits_below(kitten.klauses@[r as int].lits@, kitten.lits as int),
            kitten.lits <= kitten.values@.len(),
            size < 0x8000_0000,
            forall|j: int| 2 <= j < i ==> kitten.values@[#[trigger] kitten.klauses@[r as int].lits@[j] as int] < 0,
        decreases size - i,
    {
        let replacement = kitten.klauses[r as usize].lits[i];
        if kitten.values[replacement as usize] >= 0 {
            return Some(i as u32);
        }
        i += 1;
    }
    None
}

/// Propagates the true literal `lit`: visits the klauses watching its
/// negation, assigning their other literal when all the rest is false,
/// moving their watch to a literal that is not false, or stopping at a
/// conflict, which is returned (`INVALID` for none).
#[verifier::rlimit(100)]
#[verifier::spinoff_prover]
fn propagate_literal(kitten: &mut Kitten, stats: &mut KittenStatistics, lit: u32) -> (r: Result<u32, KittenError>)
    requires
        old(kitten).wf(),
        (lit as int) < old(kitten).lits,
    ensures
        r is Err ==> final(kitten).klauses@.len() + 1 >= MAX_KLAUSES,
        final(kitten).wf(),
        ticks_advanced(*old(stats), *final(stats)),
        final(stats).kitten_conflicts >= old(stats).kitten_conflicts,
        final(stats).kitten_propagations == old(stats).kitten_propagations,
        final(stats).kitten_solved == old(stats).kitten_solved,
        final(stats).kitten_decisions == old(stats).kitten_decisions,
        final(stats).terminate == old(stats).terminate,
        outcomes_kept(*old(stats), *final(stats)),
        final(kitten).klauses@.len() >= old(kitten).klauses@.len(),
        final(kitten).level == old(kitten).level,
        final(kitten).propagated == old(kitten).propagated,
        final(kitten).status == old(kitten).status,
        final(kitten).assumptions == old(kitten).assumptions,
        final(kitten).lits == old(kitten).lits,
        kept_formula(*old(kitten), *final(kitten)),
        old(kitten).trail@.len() <= final(kitten).trail@.len(),
        r is Ok ==> (r->Ok_0 == INVALID || (r->Ok_0 as int) < final(kitten).klauses@.len()),
{
    proof {
        reveal(Kitten::wf_core);
        crate::literal::lemma_xor_one(lit);
    }
    let not_lit = lit ^ 1;
    let mut ws: Vec<Katch> = Vec::new();
    std::mem::swap(&mut ws, &mut kitten.watches[not_lit as usize]);
    let end = ws.len();
    let ghost k0 = *old(kitten);
    proof {
        assert(watch_list_ok(k0.watches@[not_lit as int]@, not_lit as int, k0.klauses@, k0.lits as int));
        lemma_watch_list_len(ws@, not_lit as int, k0.klauses@, k0.lits as int);
        lemma_put_back(k0.watches@, k0.klauses@, k0.lits as int, not_lit as int, kitten.watches@[not_lit as int]);
        assert(kitten.watches@ =~= k0.watches@.update(not_lit as int, kitten.watches@[not_lit as int]));
        assert(kitten.wf_core());
    }
    let mut kept: Vec<Katch> = Vec::new();
    let mut conflict: u32 = INVALID;
    let mut ticks: u64 = (end as u64) / 16 + 1;
    let mut p: usize = 0;
    while p != end
        invariant_except_break
            conflict == INVALID,
        invariant
            0 <= p <= end,
            end == ws@.len(),
            end <= k0.klauses@.len() < MAX_KLAUSES,
            ticks <= (end as u64) / 16 + 1 + p,
            ticks >= 1,
            kitten.wf(),
            (not_lit as int) < kitten.lits,
            kitten.watches@[not_lit as int]@.len() == 0,
            pending_ok(kitten, not_lit as int, kept@ + ws@.subrange(p as int, end as int)),
            conflict == INVALID || (conflict as int) < kitten.klauses@.len(),
            kitten.klauses@.len() >= k0.klauses@.len(),
            kitten.level == k0.level,
            kitten.propagated == k0.propagated,
            kitten.status == k0.status,
            kitten.assumptions == k0.assumptions,
            kitten.lits == k0.lits,
            kitten.import == k0.import,
            kitten.evars == k0.evars,
            lits_within(k0.klauses@, kitten.klauses@),
            k0.trail@.len() <= kitten.trail@.len(),
            stats.kitten_ticks >= old(stats).kitten_ticks,
            stats.kitten_conflicts >= old(stats).kitten_conflicts,
            stats.kitten_propagations == old(stats).kitten_propagations,
            stats.kitten_solved == old(stats).kitten_solved,
            stats.kitten_decisions == old(stats).kitten_decisions,
            outcomes_kept(*old(stats), *stats),
            stats.terminate == old(stats).terminate,
            not_lit == spec_not(lit),
            k0 == *old(kitten),
        decreases end - p,
    {
        let katch = ws[p];
        let ghost before = kept@ + ws@.subrange(p as int, end as int);
        proof {
            reveal(Kitten::wf_core);
            assert(before[kept@.len() as int] == katch);
            assert(katch_ok(katch, not_lit as int, kitten.klauses@, kitten.lits as int));
        }
        kept.push(katch);
        p += 1;
        ticks = ticks + 0;
        proof {
            assert(kept@ + ws@.subrange(p as int, end as int) =~= before);
        }
        let r = katch.ref_();
        let blit = katch.blit;
        let blit_value = kitten.values[blit as usize];
        if blit_value > 0 {
            continue;
        }
        if katch.binary() {
            if blit_value < 0 {
                stats.kitten_conflicts = stats.kitten_conflicts.saturating_add(1);
                conflict = r;
                break;
            } else {
                let ghost kb = *kitten;
                match assign(kitten, stats, blit, r) {
                    Ok(()) => {},
                    Err(e) => {
                        let ghost ke = *kitten;
                        proof {
                            lemma_pending_frame(&kb, &ke, not_lit as int, kept@ + ws@.subrange(p as int, end as int));
                            assert(kb.level == k0.level);
                            assert(ke.level == kb.level);
                            assert(ke.klauses@.len() >= k0.klauses@.len());
                        }
                        let e = restore_after(kitten, stats, not_lit, kept, &ws, p, ticks);
                        proof {
                            assert(kitten.level == ke.level);
                            assert(kitten.klauses@.len() == ke.klauses@.len());
                            lemma_lits_within_same(kb.klauses@, kitten.klauses@);
                            lemma_lits_within_trans(k0.klauses@, kb.klauses@, kitten.klauses@);
                        }
                        return Err(e);
                    },
                }
                proof {
                    lemma_pending_frame(&kb, kitten, not_lit as int, kept@ + ws@.subrange(p as int, end as int));
                    lemma_lits_within_same(kb.klauses@, kitten.klauses@);
                    lemma_lits_within_trans(k0.klauses@, kb.klauses@, kitten.klauses@);
                }
                continue;
            }
        }
        let l0 = kitten.klauses[r as usize].lits[0];
        let l1 = kitten.klauses[r as usize].lits[1];
        let other = l0 ^ l1 ^ not_lit;
        proof {
            crate::literal::lemma_xor_cancel(l0, l1);
            assert(klause_ok(kitten.klauses@[r as int], r as int, kitten.lits as int, kitten.antecedents));
        }
        let other_value = kitten.values[other as usize];
        ticks = ticks + 1;
        if other_value > 0 {
            let n = kept.len() - 1;
            let mut last = kept[n];
            last.blit = other;
            kept.set(n, last);
            proof {
                let pend = kept@ + ws@.subrange(p as int, end as int);
                assert forall|j: int| 0 <= j < pend.len() implies katch_ok(#[trigger] pend[j], not_lit as int, kitten.klauses@, kitten.lits as int) by {
                    if j != n {
                        assert(pend[j] == before[j]);
                    }
                }
                assert forall|a: int, b: int| 0 <= a < pend.len() && 0 <= b < pend.len() && a != b implies
                    #[trigger] pend[a].spec_ref() != #[trigger] pend[b].spec_ref() by {
                    assert(pend[a].spec_ref() == before[a].spec_ref());
                    assert(pend[b].spec_ref() == before[b].spec_ref());
                }
            }
            continue;
        }
        match find_replacement(kitten, r) {
            Some(i) => {
                let n = kept.len() - 1;
                let ghost pend0 = kept@ + ws@.subrange(p as int, end as int);
                let _ = kept.pop();
                let ghost pend = kept@ + ws@.subrange(p as int, end as int);
                proof {
                    assert forall|j: int| 0 <= j < pend.len() implies (#[trigger] pend[j]).spec_ref() != r by {
                        let jj = if j < n { j } else { j + 1 };
                        assert(pend[j] == pend0[jj]);
                        assert(pend0[n as int] == katch);
                    }
                    assert(pending_ok(kitten, not_lit as int, pend)) by {
                        assert forall|j: int| 0 <= j < pend.len() implies katch_ok(#[trigger] pend[j], not_lit as int, kitten.klauses@, kitten.lits as int) by {
                            let jj = if j < n { j } else { j + 1 };
                            assert(pend[j] == pend0[jj]);
                        }
                        assert forall|a: int, b: int| 0 <= a < pend.len() && 0 <= b < pend.len() && a != b implies
                            #[trigger] pend[a].spec_ref() != #[trigger] pend[b].spec_ref() by {
                            let aa = if a < n { a } else { a + 1 };
                            let bb = if b < n { b } else { b + 1 };
                            assert(pend[a] == pend0[aa]);
                            assert(pend[b] == pend0[bb]);
                        }
                    }
                }
                let ghost kb = *kitten;
                replace_watch(kitten, not_lit, r, i, Ghost(pend));
                proof {
                    lemma_lits_within_replace(kb.klauses@, kitten.klauses@, r as int, i as int, not_lit);
                    lemma_lits_within_trans(k0.klauses@, kb.klauses@, kitten.klauses@);
                }
            },
            None => {
                if other_value < 0 {
                    stats.kitten_conflicts = stats.kitten_conflicts.saturating_add(1);
                    conflict = r;
                    break;
                }
                let ghost kb = *kitten;
                match assign(kitten, stats, other, r) {
                    Ok(()) => {},
                    Err(e) => {
                        let ghost ke = *kitten;
                        proof {
                            lemma_pending_frame(&kb, &ke, not_lit as int, kept@ + ws@.subrange(p as int, end as int));
                        }
                        let e = restore_after(kitten, stats, not_lit, kept, &ws, p, ticks);
                        proof {
                            assert(kitten.level == ke.level);
                            assert(kitten.klauses@.len() == ke.klauses@.len());
                            lemma_lits_within_same(kb.klauses@, kitten.klauses@);
                            lemma_lits_within_trans(k0.klauses@, kb.klauses@, kitten.klauses@);
                        }
                        return Err(e);
                    },
                }
                proof {
                    lemma_pending_frame(&kb, kitten, not_lit as int, kept@ + ws@.subrange(p as int, end as int));
                    lemma_lits_within_same(kb.klauses@, kitten.klauses@);
                    lemma_lits_within_trans(k0.klauses@, kb.klauses@, kitten.klauses@);
                }
            },
        }
    }
    restore_watches(kitten, not_lit, kept, &ws, p);
    stats.kitten_ticks = stats.kitten_ticks.saturating_add(ticks);
    Ok(conflict)
}

/// Puts the kept watches and the unvisited rest back into the list of
/// `l`.
fn restore_watches(kitten: &mut Kitten, l: u32, kept: Vec<Katch>, ws: &Vec<Katch>, p: usize)
    requires
        old(kitten).wf(),
        (l as int) < old(kitten).lits,
        old(kitten).watches@[l as int]@.len() == 0,
        p <= ws@.len(),
        pending_ok(old(kitten), l as int, kept@ + ws@.subrange(p as int, ws@.len() as int)),
    ensures
        final(kitten).wf(),
        *final(kitten) == (Kitten { watches: final(kitten).watches, ..*old(kitten) }),
{
    let mut kept = kept;
    let mut q: usize = p;
    let ghost pend = kept@ + ws@.subrange(p as int, ws@.len() as int);
    while q < ws.len()
        invariant
            p <= q <= ws@.len(),
            kept@ + ws@.subrange(q as int, ws@.len() as int) == pend,
        decreases ws@.len() - q,
    {
        let ghost before = kept@;
        kept.push(ws[q]);
        q += 1;
        proof {
            assert(kept@ + ws@.subrange(q as int, ws@.len() as int) =~= before + ws@.subrange(q - 1, ws@.len() as int));
        }
    }
    proof {
        reveal(Kitten::wf_core);
        assert(kept@ =~= pend);
        lemma_put_back(kitten.watches@, kitten.klauses@, kitten.lits as int, l as int, kept);
    }
    kitten.watches.set(l as usize, kept);
    proof {
        assert(kitten.wf_core());
    }
}

/// Restores the watches of `l` and adds the ticks spent before giving up.
fn restore_after(kitten: &mut Kitten, stats: &mut KittenStatistics, l: u32, kept: Vec<Katch>, ws: &Vec<Katch>, p: usize, ticks: u64) -> (e: KittenError)
    requires
        old(kitten).wf(),
        (l as int) < old(kitten).lits,
        old(kitten).watches@[l as int]@.len() == 0,
        p <= ws@.len(),
        pending_ok(old(kitten), l as int, kept@ + ws@.subrange(p as int, ws@.len() as int)),
    ensures
        final(kitten).wf(),
        *final(kitten) == (Kitten { watches: final(kitten).watches, ..*old(kitten) }),
        final(stats).kitten_ticks == (if old(stats).kitten_ticks + ticks > u64::MAX {
            u64::MAX as int
        } else {
            old(stats).kitten_ticks + ticks
        }),
        stats_frame(*old(stats), *final(stats)),
        final(stats).kitten_conflicts == old(stats).kitten_conflicts,
{
    restore_watches(kitten, l, kept, ws, p);
    stats.kitten_ticks = stats.kitten_ticks.saturating_add(ticks);
    KittenError::Exhausted
}

/// The invariant does not depend on where propagation stands, as long as
/// it is within the trail.
proof fn lemma_wf_core_propagated(a: Kitten, b: Kitten)
    requires
        a.wf_core(),
        b == (Kitten { propagated: b.propagated, ..a }),
        b.propagated <= b.trail@.len(),
    ensures
        b.wf_core(),
{
    reveal(Kitten::wf_core);
}

/// Propagates the trail from the propagation cursor until a conflict,
/// which is returned (`INVALID` for none), or until everything is
/// propagated.
fn propagate(kitten: &mut Kitten, stats: &mut KittenStatistics) -> (r: Result<u32, KittenError>)
    requires
        old(kitten).wf(),
    ensures
        r is Err ==> final(kitten).klauses@.len() + 1 >= MAX_KLAUSES,
        final(kitten).wf(),
        ticks_grew(*old(stats), *final(stats)),
        outcomes_kept(*old(stats), *final(stats)),
        old(kitten).propagated < old(kitten).trail@.len() ==> ticks_advanced(*old(stats), *final(stats)),
        final(stats).kitten_decisions == old(stats).kitten_decisions,
        final(stats).kitten_solved == old(stats).kitten_solved,
        final(stats).terminate == old(stats).terminate,
        final(kitten).klauses@.len() >= old(kitten).klauses@.len(),
        final(kitten).level == old(kitten).level,
        final(kitten).status == old(kitten).status,
        final(kitten).assumptions == old(kitten).assumptions,
        final(kitten).lits == old(kitten).lits,
        kept_formula(*old(kitten), *final(kitten)),
        r is Ok ==> (r->Ok_0 == INVALID || (r->Ok_0 as int) < final(kitten).klauses@.len()),
        r is Ok && r->Ok_0 == INVALID ==> final(kitten).propagated == final(kitten).trail@.len(),
{
    let mut propagated: u64 = 0;
    let mut conflict: u32 = INVALID;
    proof {
        lemma_wf_sizes(kitten);
    }
    while conflict == INVALID && (kitten.propagated as usize) < kitten.trail.len()
        invariant
            kitten.wf(),
            ticks_grew(*old(stats), *stats),
            propagated > 0 ==> ticks_advanced(*old(stats), *stats),
            propagated <= kitten.propagated,
            propagated == 0 ==> kitten.propagated == old(kitten).propagated && conflict == INVALID
                && kitten.trail@.len() >= old(kitten).trail@.len(),
            kitten.trail@.len() >= old(kitten).trail@.len(),
            old(kitten).propagated < old(kitten).trail@.len() ==> old(kitten).propagated < kitten.trail@.len() || propagated > 0,
            stats.kitten_decisions == old(stats).kitten_decisions,
            stats.kitten_solved == old(stats).kitten_solved,
            outcomes_kept(*old(stats), *stats),
            stats.terminate == old(stats).terminate,
            kitten.klauses@.len() >= old(kitten).klauses@.len(),
            kitten.level == old(kitten).level,
            kitten.status == old(kitten).status,
            kitten.assumptions == old(kitten).assumptions,
            kitten.lits == old(kitten).lits,
            kept_formula(*old(kitten), *kitten),
            conflict == INVALID || (conflict as int) < kitten.klauses@.len(),
            kitten.trail@.len() <= kitten.nvars() <= 0x2000_0000,
            old(kitten).propagated < old(kitten).trail@.len() ==> old(kitten).propagated < old(kitten).trail@.len(),
        decreases kitten.nvars() - kitten.propagated,
    {
        proof {
            reveal(Kitten::wf_core);
        }
        let lit = kitten.trail[kitten.propagated as usize];
        let ghost kb = *kitten;
        conflict = match propagate_literal(kitten, stats, lit) {
            Ok(c) => c,
            Err(e) => {
                proof {
                    lemma_kept_formula_trans(*old(kitten), kb, *kitten);
                }
                return Err(e);
            },
        };
        let ghost kc = *kitten;
        kitten.propagated = kitten.propagated + 1;
        proof {
            lemma_kept_formula_trans(*old(kitten), kb, kc);
            lemma_wf_core_propagated(kc, *kitten);
            lemma_wf_sizes(kitten);
        }
        propagated = propagated + 1;
    }
    stats.kitten_propagations = stats.kitten_propagations.saturating_add(propagated);
    proof {
        reveal(Kitten::wf_core);
    }
    Ok(conflict)
}

/// Unassigns the trail down to the last literal on level `jump`, which
/// becomes the current level, with everything left propagated.
fn backtrack(kitten: &mut Kitten, jump: u32)
    requires
        old(kitten).wf(),
    ensures
        final(kitten).wf(),
        final(kitten).level == jump,
        final(kitten).propagated == final(kitten).trail@.len(),
        final(kitten).trail@.len() <= old(kitten).trail@.len(),
        final(kitten).trail@ == old(kitten).trail@.take(final(kitten).trail@.len() as int),
        only_unassigned(old(kitten).values@, final(kitten).values@),
        *final(kitten) == (Kitten {
            values: final(kitten).values,
            unassigned: final(kitten).unassigned,
            queue: final(kitten).queue,
            trail: final(kitten).trail,
            propagated: final(kitten).propagated,
            level: jump,
            ..*old(kitten)
        }),
{
    proof {
        reveal(Kitten::wf_core);
    }
    let ghost k0 = *kitten;
    while kitten.trail.len() > 0
        invariant
            kitten.tables_ok(),
            kitten.trail@.len() <= k0.trail@.len(),
            kitten.trail@ == k0.trail@.take(kitten.trail@.len() as int),
            distinct_vars(k0.trail@),
            lits_below(k0.trail@, k0.lits as int),
            forall|j: int| 0 <= j < kitten.trail@.len() ==> kitten.values@[#[trigger] kitten.trail@[j] as int] != 0,
            kitten.trail@.len() + kitten.unassigned <= kitten.nvars(),
            only_unassigned(k0.values@, kitten.values@),
            *kitten == (Kitten {
                values: kitten.values,
                unassigned: kitten.unassigned,
                queue: kitten.queue,
                trail: kitten.trail,
                ..k0
            }),
        decreases kitten.trail@.len(),
    {
        let n = kitten.trail.len();
        let lit = kitten.trail[n - 1];
        let idx = (lit / 2) as usize;
        if kitten.vars[idx].level == jump {
            break;
        }
        let _ = kitten.trail.pop();
        let ghost before = kitten.values@;
        unassign(kitten, lit);
        proof {
            crate::literal::lemma_xor_one(lit);
            assert(kitten.trail@ =~= k0.trail@.take(kitten.trail@.len() as int));
            assert forall|j: int| 0 <= j < kitten.trail@.len() implies kitten.values@[#[trigger] kitten.trail@[j] as int] != 0 by {
                assert(kitten.trail@[j] == k0.trail@[j]);
                assert(k0.trail@[j] / 2 != k0.trail@[n - 1] / 2);
                assert(kitten.values@[kitten.trail@[j] as int] == before[kitten.trail@[j] as int]);
            }
        }
    }
    kitten.propagated = kitten.trail.len() as u32;
    kitten.level = jump;
    proof {
        let k = *kitten;
        assert(distinct_vars(k.trail@)) by {
            assert forall|a: int, b: int| 0 <= a < k.trail@.len() && 0 <= b < k.trail@.len() && a != b implies #[trigger] (k.trail@[a] / 2) != #[trigger] (k.trail@[b] / 2) by {
                assert(k.trail@[a] == k0.trail@[a] && k.trail@[b] == k0.trail@[b]);
            }
        }
        assert(k.wf_core());
    }
}

/// Forgets the root level literals on the trail; they stay assigned.
fn flush_trail(kitten: &mut Kitten)
    requires
        old(kitten).wf(),
    ensures
        final(kitten).wf(),
        final(kitten).trail@.len() == 0,
        *final(kitten) == (Kitten { propagated: 0, trail: final(kitten).trail, ..*old(kitten) }),
{
    kitten.propagated = 0;
    kitten.trail.clear();
    proof {
        reveal(Kitten::wf_core);
        assert(kitten.wf_core());
    }
}

/// Removing a variable from the queue keeps the stamps increasing.
pub(crate) proof fn lemma_stamped_remove(links: Seq<Kink>, links2: Seq<Kink>, q: Kueue, q2: Kueue, o: Seq<u32>, k: int)
    requires
        stamped(links, q, o),
        0 <= k < o.len(),
        q2.stamp == q.stamp,
        links2.len() == links.len(),
        forall|v: int| 0 <= v < links.len() ==> (#[trigger] links2[v]).stamp == links[v].stamp,
        forall|i: int| 0 <= i < o.len() ==> (#[trigger] o[i] as int) < links.len(),
    ensures
        stamped(links2, q2, o.remove(k)),
{
    reveal(stamped);
    let r = o.remove(k);
    assert forall|i: int, j: int|
        #![trigger r[i], r[j]]
        0 <= i < j < r.len() implies links2[r[i] as int].stamp < links2[r[j] as int].stamp by {
        let i2 = if i < k { i } else { i + 1 };
        let j2 = if j < k { j } else { j + 1 };
        assert(r[i] == o[i2] && r[j] == o[j2]);
        assert(links[o[i2] as int].stamp < links[o[j2] as int].stamp);
    }
    assert forall|i: int| 0 <= i < r.len() implies links2[#[trigger] r[i] as int].stamp < q2.stamp by {
        let i2 = if i < k { i } else { i + 1 };
        assert(r[i] == o[i2]);
    }
}

/// Moves the assigned variable `idx` to the end of the decision queue.
#[verifier::rlimit(60)]
fn move_to_front(kitten: &mut Kitten, idx: u32)
    requires
        old(kitten).tables_ok(),
        (idx as int) < old(kitten).nvars(),
        old(kitten).values@[2 * idx as int] != 0,
    ensures
        final(kitten).tables_ok(),
        *final(kitten) == (Kitten { links: final(kitten).links, queue: final(kitten).queue, order: final(kitten).order, ..*old(kitten) }),
{
    if idx == kitten.queue.last {
        return;
    }
    let ghost o = kitten.order@;
    let ghost n = kitten.nvars();
    proof {
        assert(o.contains((idx as int) as u32));
        lemma_linked_empty(kitten.links@, kitten.queue, o);
    }
    let ghost k = choose|k: int| 0 <= k < o.len() && o[k] == idx;
    let ghost l0 = kitten.links@;
    let ghost q0 = kitten.queue;
    dequeue(&mut kitten.links, &mut kitten.queue, idx, Ghost(o), Ghost(k));
    proof {
        lemma_stamped_remove(l0, kitten.links@, q0, kitten.queue, o, k);
        lemma_remove_no_duplicates(o, k);
    }
    enqueue(&mut kitten.links, &mut kitten.queue, idx, Ghost(o.remove(k)));
    proof {
        let o2 = o.remove(k).push(idx);
        kitten.order = Ghost(o2);
        let kk = *kitten;
        assert forall|v: int| 0 <= v < n implies #[trigger] o2.contains(v as u32) by {
            if v as u32 != idx {
                assert(o.contains(v as u32));
                assert(o.remove(k).contains(v as u32));
                let j = choose|j: int| 0 <= j < o.remove(k).len() && o.remove(k)[j] == v as u32;
                assert(o2[j] == v as u32);
            } else {
                assert(o2[o2.len() - 1] == idx);
            }
        }
        assert forall|i: int| 0 <= i < o2.len() implies (#[trigger] o2[i] as int) < n by {
            if i < o2.len() - 1 {
                let i2 = if i < k { i } else { i + 1 };
                assert(o2[i] == o[i2]);
            }
        }
        assert(search_ok(kk.queue, o2, kk.values@)) by {
            reveal(linked);
            if o2.len() > 0 {
                assert((kk.queue.search as int) < o2.len());
            }
            assert forall|i: int, j: int| 0 <= i < j < o2.len() && o2[i] == kk.queue.search implies kk.values@[2 * o2[j]] != 0 by {
                if j < o2.len() - 1 {
                    let i2 = if i < k { i } else { i + 1 };
                    let j2 = if j < k { j } else { j + 1 };
                    assert(o2[i] == o[i2] && o2[j] == o[j2]);
                    assert(i2 < j2);
                }
            }
        }
    }
}

/// The marks are exactly the analyzed variables.
pub open spec fn marks_track(k: &Kitten) -> bool {
    &&& k.analyzed@.no_duplicates()
    &&& forall|i: int| 0 <= i < k.analyzed@.len() ==> (#[trigger] k.analyzed@[i] as int) < k.nvars()
    &&& forall|v: int| 0 <= v < k.marks@.len() ==> (#[trigger] k.marks@[v] != 0) == k.analyzed@.contains(v as u32)
}

/// Unmarks the analyzed variables and empties the analysis stacks.
fn abandon_analysis(kitten: &mut Kitten)
    requires
        old(kitten).wf_core(),
        marks_track(old(kitten)),
    ensures
        final(kitten).wf(),
        *final(kitten) == (Kitten {
            marks: final(kitten).marks,
            analyzed: final(kitten).analyzed,
            klause: final(kitten).klause,
            resolved: final(kitten).resolved,
            eclause: final(kitten).eclause,
            ..*old(kitten)
        }),
{
    proof {
        lemma_wf_sizes(kitten);
    }
    let mut i: usize = 0;
    while i < kitten.analyzed.len()
        invariant
            i <= kitten.analyzed@.len(),
            kitten.analyzed@ == old(kitten).analyzed@,
            kitten.marks@.len() == old(kitten).marks@.len(),
            kitten.marks@.len() == kitten.size / 2,
            kitten.size <= 0x8000_0000,
            kitten.nvars() <= kitten.size / 2,
            forall|j: int| 0 <= j < kitten.analyzed@.len() ==> (#[trigger] kitten.analyzed@[j] as int) < kitten.nvars(),
            forall|v: int| 0 <= v < kitten.marks@.len() ==> (#[trigger] kitten.marks@[v] != 0) ==> exists|j: int| i <= j < kitten.analyzed@.len() && kitten.analyzed@[j] == v as u32,
            *kitten == (Kitten { marks: kitten.marks, ..*old(kitten) }),
        decreases kitten.analyzed@.len() - i,
    {
        let idx = kitten.analyzed[i];
        kitten.marks.set(idx as usize, 0);
        proof {
            assert forall|v: int| 0 <= v < kitten.marks@.len() && #[trigger] kitten.marks@[v] != 0 implies exists|j: int| i + 1 <= j < kitten.analyzed@.len() && kitten.analyzed@[j] == v as u32 by {
                let j = choose|j: int| i <= j < kitten.analyzed@.len() && kitten.analyzed@[j] == v as u32;
                if j == i {
                    assert(v == idx as int);
                }
            }
        }
        i += 1;
    }
    let ghost km = *kitten;
    kitten.analyzed.clear();
    kitten.klause.clear();
    kitten.resolved.clear();
    kitten.eclause.clear();
    proof {
        lemma_wf_core_scratch(*old(kitten), *kitten);
        assert forall|v: int| 0 <= v < kitten.marks@.len() implies #[trigger] kitten.marks@[v] == 0 by {
            if km.marks@[v] != 0 {
                let j = choose|j: int| i <= j < km.analyzed@.len() && km.analyzed@[j] == v as u32;
            }
        }
    }
}

/// Moves the analyzed variables to the end of the decision queue (the
/// assigned ones, which all of them are during conflict analysis) and
/// unmarks them.
fn bump(kitten: &mut Kitten)
    requires
        old(kitten).wf_core(),
        marks_track(old(kitten)),
    ensures
        final(kitten).wf_core(),
        final(kitten).marks_clear(),
        *final(kitten) == (Kitten {
            marks: final(kitten).marks,
            links: final(kitten).links,
            queue: final(kitten).queue,
            order: final(kitten).order,
            ..*old(kitten)
        }),
{
    proof {
        reveal(Kitten::wf_core);
    }
    let mut i: usize = 0;
    while i < kitten.analyzed.len()
        invariant
            i <= kitten.analyzed@.len(),
            kitten.tables_ok(),
            kitten.analyzed@ == old(kitten).analyzed@,
            kitten.marks@.len() == old(kitten).marks@.len(),
            forall|j: int| 0 <= j < kitten.analyzed@.len() ==> (#[trigger] kitten.analyzed@[j] as int) < kitten.nvars(),
            forall|v: int| 0 <= v < kitten.marks@.len() ==> (#[trigger] kitten.marks@[v] != 0) ==> exists|j: int| i <= j < kitten.analyzed@.len() && kitten.analyzed@[j] == v as u32,
            *kitten == (Kitten { marks: kitten.marks, links: kitten.links, queue: kitten.queue, order: kitten.order, ..*old(kitten) }),
        decreases kitten.analyzed@.len() - i,
    {
        let idx = kitten.analyzed[i];
        kitten.marks.set(idx as usize, 0);
        proof {
            assert forall|v: int| 0 <= v < kitten.marks@.len() && #[trigger] kitten.marks@[v] != 0 implies exists|j: int| i + 1 <= j < kitten.analyzed@.len() && kitten.analyzed@[j] == v as u32 by {
                let j = choose|j: int| i <= j < kitten.analyzed@.len() && kitten.analyzed@[j] == v as u32;
                if j == i {
                    assert(v == idx as int);
                }
            }
        }
        if kitten.values[2 * idx as usize] != 0 {
            move_to_front(kitten, idx);
        }
        i += 1;
    }
    proof {
        assert forall|v: int| 0 <= v < kitten.marks@.len() implies #[trigger] kitten.marks@[v] == 0 by {
            if kitten.marks@[v] != 0 {
                let j = choose|j: int| i <= j < kitten.analyzed@.len() && kitten.analyzed@[j] == v as u32;
            }
        }
        assert(kitten.wf_core());
    }
}

/// The literals after the placeholder of a klause being learned belong to
/// distinct marked variables assigned below `level`.
pub open spec fn learned_ok(c: Seq<u32>, marks: Seq<i8>, vars: Seq<Kar>, lits: int, level: u32) -> bool {
    &&& c.len() >= 1
    &&& forall|i: int| 1 <= i < c.len() ==> {
        &&& (#[trigger] c[i] as int) < lits
        &&& marks[(c[i] / 2) as int] != 0
        &&& vars[(c[i] / 2) as int].level < level
    }
    &&& forall|i: int, j: int| 1 <= i < c.len() && 1 <= j < c.len() && i != j ==> #[trigger] (c[i] / 2) != #[trigger] (c[j] / 2)
}

/// The state of a conflict analysis on level `level`, started from `k0`:
/// only the marks and the scratch stacks changed; the marks are the
/// analyzed variables; the klause being learned is well formed; the
/// resolved klauses exist; at most as many variables are open as analyzed.
pub open spec fn analysis_ok(k: &Kitten, k0: Kitten, level: u32, open: int) -> bool {
    &&& k0.wf()
    &&& *k == (Kitten { marks: k.marks, analyzed: k.analyzed, klause: k.klause, resolved: k.resolved, ..k0 })
    &&& k.marks@.len() == k0.marks@.len()
    &&& marks_track(k)
    &&& k.level == level
    &&& learned_ok(k.klause@, k.marks@, k.vars@, k.lits as int, level)
    &&& forall|i: int| 0 <= i < k.resolved@.len() ==> (#[trigger] k.resolved@[i] as int) < k.klauses@.len()
    &&& 0 <= open <= k.analyzed@.len()
}

/// Marks variable `idx`, which was not marked, as analyzed.
proof fn lemma_mark_analyzed(a: &Kitten, b: &Kitten, idx: int)
    requires
        marks_track(a),
        0 <= idx < a.nvars(),
        a.nvars() <= a.marks@.len(),
        a.marks@[idx] == 0,
        b.marks@ == a.marks@.update(idx, 1i8),
        b.analyzed@ == a.analyzed@.push(idx as u32),
        b.lits == a.lits,
        a.marks@.len() <= 0x4000_0000,
    ensures
        marks_track(b),
        b.analyzed@.len() <= b.nvars(),
{
    assert(!a.analyzed@.contains(idx as u32));
    assert forall|v: int| 0 <= v < b.marks@.len() implies (#[trigger] b.marks@[v] != 0) == b.analyzed@.contains(v as u32) by {
        if v != idx {
            assert(b.marks@[v] == a.marks@[v]);
            if a.analyzed@.contains(v as u32) {
                let j = choose|j: int| 0 <= j < a.analyzed@.len() && a.analyzed@[j] == v as u32;
                assert(b.analyzed@[j] == v as u32);
            }
            if b.analyzed@.contains(v as u32) {
                let j = choose|j: int| 0 <= j < b.analyzed@.len() && b.analyzed@[j] == v as u32;
                if j < a.analyzed@.len() {
                    assert(a.analyzed@[j] == v as u32);
                } else {
                    assert(b.analyzed@[j] == idx as u32);
                }
            }
        } else {
            assert(b.analyzed@[b.analyzed@.len() - 1] == idx as u32);
        }
    }
    assert(b.analyzed@.no_duplicates()) by {
        assert forall|i: int, j: int| 0 <= i < b.analyzed@.len() && 0 <= j < b.analyzed@.len() && i != j implies b.analyzed@[i] != b.analyzed@[j] by {
            if i < a.analyzed@.len() && j < a.analyzed@.len() {
            } else if i < a.analyzed@.len() {
                assert(a.analyzed@.contains(a.analyzed@[i]));
            } else {
                assert(a.analyzed@.contains(a.analyzed@[j]));
            }
        }
    }
    let t = Seq::new(b.analyzed@.len(), |i: int| b.analyzed@[i] as int);
    assert forall|i: int, j: int| 0 <= i < t.len() && 0 <= j < t.len() && i != j implies t[i] != t[j] by {
        assert(b.analyzed@[i] != b.analyzed@[j]);
    }
    crate::seqs::lemma_distinct_bounded(t, b.nvars());
}

/// Tracked marks belong to at most as many variables as there are.
proof fn lemma_marks_track_len(k: &Kitten)
    requires
        marks_track(k),
    ensures
        k.analyzed@.len() <= k.nvars(),
{
    let t = Seq::new(k.analyzed@.len(), |i: int| k.analyzed@[i] as int);
    assert forall|i: int, j: int| 0 <= i < t.len() && 0 <= j < t.len() && i != j implies t[i] != t[j] by {
        assert(k.analyzed@[i] != k.analyzed@[j]);
    }
    crate::seqs::lemma_distinct_bounded(t, k.nvars());
}

/// Appending the literal of a newly marked variable below the level keeps
/// the klause being learned well formed.
proof fn lemma_learned_push(c: Seq<u32>, marks: Seq<i8>, marks2: Seq<i8>, vars: Seq<Kar>, lits: int, level: u32, lit: u32)
    requires
        learned_ok(c, marks, vars, lits, level),
        (lit as int) < lits,
        lits <= 2 * marks.len(),
        marks[(lit / 2) as int] == 0,
        marks2 == marks.update((lit / 2) as int, 1i8),
        vars[(lit / 2) as int].level < level,
    ensures
        learned_ok(c.push(lit), marks2, vars, lits, level),
{
    let d = c.push(lit);
    assert forall|j: int| 1 <= j < c.len() implies (#[trigger] c[j] / 2) != lit / 2 by {
        assert(marks[(c[j] / 2) as int] != 0);
    }
    assert forall|i: int| 1 <= i < d.len() implies {
        &&& (#[trigger] d[i] as int) < lits
        &&& marks2[(d[i] / 2) as int] != 0
        &&& vars[(d[i] / 2) as int].level < level
    } by {
        if i < c.len() {
            assert(d[i] == c[i]);
        }
    }
    assert forall|i: int, j: int| 1 <= i < d.len() && 1 <= j < d.len() && i != j implies #[trigger] (d[i] / 2) != #[trigger] (d[j] / 2) by {
        if i < c.len() && j < c.len() {
            assert(d[i] == c[i] && d[j] == c[j]);
        } else if i < c.len() {
            assert(d[i] == c[i]);
        } else {
            assert(d[j] == c[j]);
        }
    }
}

/// Putting the literal of a newly marked variable second and moving the
/// literal that was second to the end keeps the klause being learned well
/// formed.
proof fn lemma_learned_swap(c: Seq<u32>, marks: Seq<i8>, marks2: Seq<i8>, vars: Seq<Kar>, lits: int, level: u32, lit: u32)
    requires
        learned_ok(c, marks, vars, lits, level),
        c.len() > 1,
        (lit as int) < lits,
        lits <= 2 * marks.len(),
        marks[(lit / 2) as int] == 0,
        marks2 == marks.update((lit / 2) as int, 1i8),
        vars[(lit / 2) as int].level < level,
    ensures
        learned_ok(c.update(1, lit).push(c[1]), marks2, vars, lits, level),
{
    let d = c.update(1, lit).push(c[1]);
    let n = c.len();
    assert forall|j: int| 1 <= j < c.len() implies (#[trigger] c[j] / 2) != lit / 2 by {
        assert(marks[(c[j] / 2) as int] != 0);
    }
    // The position in `c` each literal of `d` comes from, with 0 for `lit`.
    let src = |i: int| if i == 1 { 0 } else if i == n { 1 } else { i };
    assert forall|i: int| 1 <= i < d.len() implies d[i] == (if src(i) == 0 { lit } else { c[src(i)] }) by {}
    assert forall|i: int| 1 <= i < d.len() implies {
        &&& (#[trigger] d[i] as int) < lits
        &&& marks2[(d[i] / 2) as int] != 0
        &&& vars[(d[i] / 2) as int].level < level
    } by {
        if src(i) != 0 {
            assert(d[i] == c[src(i)]);
            assert(1 <= src(i) < c.len());
        }
    }
    assert forall|i: int, j: int| 1 <= i < d.len() && 1 <= j < d.len() && i != j implies #[trigger] (d[i] / 2) != #[trigger] (d[j] / 2) by {
        let si = src(i);
        let sj = src(j);
        assert(si != sj);
        if si != 0 && sj != 0 {
            assert(d[i] == c[si] && d[j] == c[sj]);
        } else if si != 0 {
            assert(d[i] == c[si]);
        } else {
            assert(d[j] == c[sj]);
        }
    }
}

/// Resolves the literals of klause `reason` into the analysis: each
/// variable not yet analyzed is marked, and its literal is added to the
/// klause when it is assigned below `level` (one of the highest level
/// kept second) or counted as open otherwise.
#[verifier::rlimit(100)]
fn analyze_reason(kitten: &mut Kitten, reason: u32, level: u32, jump: &mut u32, open: &mut usize, Ghost(k0): Ghost<Kitten>)
    requires
        analysis_ok(old(kitten), k0, level, *old(open) as int),
        (reason as int) < old(kitten).klauses@.len(),
        *old(jump) < level,
    ensures
        analysis_ok(final(kitten), k0, level, *final(open) as int),
        *final(jump) < level,
        final(kitten).resolved == old(kitten).resolved,
{
    proof {
        lemma_wf_sizes(&k0);
        reveal(Kitten::wf_core);
        assert(klause_ok(kitten.klauses@[reason as int], reason as int, kitten.lits as int, kitten.antecedents));
    }
    let csize = kitten.klauses[reason as usize].lits.len();
    let mut i: usize = 0;
    while i < csize
        invariant
            analysis_ok(kitten, k0, level, *open as int),
            (reason as int) < kitten.klauses@.len(),
            csize == kitten.klauses@[reason as int].lits@.len(),
            lits_below(kitten.klauses@[reason as int].lits@, kitten.lits as int),
            *jump < level,
            kitten.resolved == old(kitten).resolved,
            i <= csize,
            kitten.lits <= kitten.size,
            kitten.size % 2 == 0,
            kitten.lits % 2 == 0,
            kitten.size <= 0x8000_0000,
            kitten.vars@.len() == kitten.size / 2,
            kitten.marks@.len() == kitten.size / 2,
        decreases csize - i,
    {
        let lit = kitten.klauses[reason as usize].lits[i];
        let idx = (lit / 2) as usize;
        if kitten.marks[idx] == 0 {
            let ghost ka = *kitten;
            kitten.marks.set(idx, 1);
            kitten.analyzed.push(idx as u32);
            proof {
                lemma_mark_analyzed(&ka, kitten, idx as int);
            }
            let tmp = kitten.vars[idx].level;
            if tmp < level {
                if tmp > *jump && kitten.klause.len() > 1 {
                    *jump = tmp;
                    let other = kitten.klause[1];
                    kitten.klause.set(1, lit);
                    kitten.klause.push(other);
                    proof {
                        lemma_learned_swap(ka.klause@, ka.marks@, kitten.marks@, kitten.vars@, kitten.lits as int, level, lit);
                    }
                } else {
                    if tmp > *jump {
                        *jump = tmp;
                    }
                    kitten.klause.push(lit);
                    proof {
                        lemma_learned_push(ka.klause@, ka.marks@, kitten.marks@, kitten.vars@, kitten.lits as int, level, lit);
                    }
                }
            } else {
                *open = *open + 1;
            }
        }
        i += 1;
    }
}

/// Analyzes the conflicting klause `conflict` on a decision level above the
/// root: resolves it with the reasons of the literals of the current level
/// in reverse trail order until one literal of that level, the first unique
/// implication point, is left; learns the klause of its negation and of the
/// literals of lower levels; backtracks to the highest of those levels and
/// assigns the negation with the learned klause as reason. Returns
/// `Ok(false)` without learning when the trail does not have the shape
/// this analysis relies on.
#[verifier::rlimit(100)]
fn analyze(kitten: &mut Kitten, stats: &mut KittenStatistics, conflict: u32) -> (r: Result<bool, KittenError>)
    requires
        old(kitten).wf(),
        old(kitten).level > 0,
        (conflict as int) < old(kitten).klauses@.len(),
    ensures
        r is Err ==> final(kitten).klauses@.len() + 1 >= MAX_KLAUSES,
        kept_formula(*old(kitten), *final(kitten)),
        final(kitten).wf(),
        ticks_grew(*old(stats), *final(stats)),
        stats_frame(*old(stats), *final(stats)),
        final(kitten).klauses@.len() >= old(kitten).klauses@.len(),
        final(kitten).status == old(kitten).status,
        final(kitten).assumptions == old(kitten).assumptions,
        final(kitten).lits == old(kitten).lits,
        r == Ok::<bool, KittenError>(true) ==> {
            &&& final(kitten).klauses@.len() > old(kitten).klauses@.len()
            &&& final(kitten).level < old(kitten).level
            &&& final(kitten).propagated < final(kitten).trail@.len()
            &&& final(kitten).klauses@[old(kitten).klauses@.len() as int].lits@.len() >= 1
            &&& final(kitten).trail@.last() == final(kitten).klauses@[old(kitten).klauses@.len() as int].lits@[0]
        },
{
    let ghost k0 = *kitten;
    proof {
        lemma_wf_sizes(kitten);
    }
    let level = kitten.level;
    kitten.klause.push(INVALID);
    let mut reason = conflict;
    let mut p: usize = kitten.trail.len();
    let mut open: usize = 0;
    let mut jump: u32 = 0;
    let mut uip: u32 = INVALID;
    loop
        invariant
            analysis_ok(kitten, k0, level, open as int),
            k0 == *old(kitten),
            (reason as int) < kitten.klauses@.len(),
            kitten.resolved@.len() + p <= kitten.trail@.len(),
            jump < level,
        ensures
            analysis_ok(kitten, k0, level, 0),
            kitten.resolved@.len() <= kitten.trail@.len(),
            jump < level,
            (uip as int) < kitten.lits,
            kitten.marks@[(uip / 2) as int] != 0,
        decreases p,
    {
        kitten.resolved.push(reason);
        analyze_reason(kitten, reason, level, &mut jump, &mut open, Ghost(k0));
        proof {
            reveal(Kitten::wf_core);
        }
        let ghost p0 = p;
        let mut found = false;
        while !found && p > 0
            invariant
                analysis_ok(kitten, k0, level, open as int),
                p <= p0,
                p0 <= kitten.trail@.len(),
                lits_below(kitten.trail@, kitten.lits as int),
                kitten.lits <= kitten.size,
                kitten.size % 2 == 0,
                kitten.marks@.len() == kitten.size / 2,
                found ==> p < p0 && (uip as int) < kitten.lits && kitten.marks@[(uip / 2) as int] != 0,
            decreases p,
        {
            p -= 1;
            let t = kitten.trail[p];
            if kitten.marks[(t / 2) as usize] != 0 {
                found = true;
                uip = t;
            }
        }
        if !found || open == 0 {
            abandon_analysis(kitten);
            return Ok(false);
        }
        open -= 1;
        if open == 0 {
            break;
        }
        let next = kitten.vars[(uip / 2) as usize].reason;
        if (next as usize) >= kitten.klauses.len() {
            abandon_analysis(kitten);
            return Ok(false);
        }
        reason = next;
    }
    proof {
        reveal(Kitten::wf_core);
        lemma_wf_sizes(&k0);
    }
    if kitten.vars[(uip / 2) as usize].level < level {
        abandon_analysis(kitten);
        return Ok(false);
    }
    let not_uip = uip ^ 1;
    proof {
        crate::literal::lemma_xor_one(uip);
    }
    kitten.klause.set(0, not_uip);
    proof {
        let c = kitten.klause@;
        assert(lits_below(c, kitten.lits as int)) by {
            assert forall|i: int| 0 <= i < c.len() implies (#[trigger] c[i] as int) < kitten.lits by {
                if i > 0 {
                    assert(c[i] == c[i]);
                }
            }
        }
        assert(distinct_vars(c)) by {
            assert forall|i: int, j: int| 0 <= i < c.len() && 0 <= j < c.len() && i != j implies #[trigger] (c[i] / 2) != #[trigger] (c[j] / 2) by {
                if i > 0 && j > 0 {
                } else if i > 0 {
                    assert(kitten.vars@[(c[i] / 2) as int].level < level);
                } else {
                    assert(kitten.vars@[(c[j] / 2) as int].level < level);
                }
            }
        }
        lemma_wf_core_scratch(k0, *kitten);
    }
    bump(kitten);
    kitten.analyzed.clear();
    let ghost kb = *kitten;
    proof {
        reveal(Kitten::wf_core);
    }
    let learned = match new_learned_klause(kitten, stats) {
        Ok(c) => c,
        Err(e) => {
            kitten.resolved.clear();
            kitten.klause.clear();
            proof {
                lemma_wf_core_scratch(kb, *kitten);
            }
            return Err(e);
        },
    };
    let ghost kl = *kitten;
    kitten.resolved.clear();
    kitten.klause.clear();
    proof {
        lemma_wf_core_scratch(kl, *kitten);
        lemma_wf_sizes(kitten);
    }
    backtrack(kitten, jump);
    if kitten.values[not_uip as usize] != 0 {
        return Ok(false);
    }
    match assign(kitten, stats, not_uip, learned) {
        Ok(()) => Ok(true),
        Err(e) => Err(e),
    }
}

/// The core invariant does not depend on the marks, the failed flags or
/// the scratch stacks.
proof fn lemma_wf_core_failed(a: Kitten, b: Kitten)
    requires
        a.wf_core(),
        b == (Kitten { marks: b.marks, analyzed: b.analyzed, klause: b.klause, resolved: b.resolved, failed: b.failed, ..a }),
        b.marks@.len() == a.marks@.len(),
        b.failed@.len() == a.failed@.len(),
    ensures
        b.wf_core(),
{
    reveal(Kitten::wf_core);
}

/// The state of the analysis of failed assumptions, started from `k0`:
/// only the marks, the failed flags and the scratch stacks changed; the
/// marks are the analyzed variables; the literals of the klause being
/// learned belong to distinct variables marked 2, which no other variable
/// is; `work` holds marked variables; the resolved klauses exist.
pub open spec fn failing_ok(k: &Kitten, k0: Kitten, open: int, work: Seq<u32>) -> bool {
    &&& k0.wf()
    &&& *k == (Kitten { marks: k.marks, analyzed: k.analyzed, klause: k.klause, resolved: k.resolved, failed: k.failed, ..k0 })
    &&& k.marks@.len() == k0.marks@.len()
    &&& k.failed@.len() == k0.failed@.len()
    &&& marks_track(k)
    &&& lits_below(k.klause@, k.lits as int)
    &&& distinct_vars(k.klause@)
    &&& forall|i: int| 0 <= i < k.klause@.len() ==> k.marks@[(#[trigger] k.klause@[i] / 2) as int] == 2
    &&& forall|i: int| 0 <= i < k.resolved@.len() ==> (#[trigger] k.resolved@[i] as int) < k.klauses@.len()
    &&& 0 <= open <= k.analyzed@.len()
    &&& work.len() <= k.analyzed@.len()
    &&& forall|m: int| 0 <= m < work.len() ==> (#[trigger] work[m] as int) < k.nvars() && k.marks@[work[m] as int] != 0
}

/// Adds the negation of the true literal of the decision variable `idx`,
/// marked 1, to the klause being learned, flags that literal as failed and
/// marks the variable 2.
fn failing_decision(kitten: &mut Kitten, idx: u32, Ghost(k0): Ghost<Kitten>, Ghost(open): Ghost<int>, Ghost(work): Ghost<Seq<u32>>, Ghost(keep): Ghost<int>)
    requires
        failing_ok(old(kitten), k0, open, work),
        (idx as int) < old(kitten).nvars(),
        0 <= keep < old(kitten).failed@.len(),
        old(kitten).failed@[keep],
    ensures
        failing_ok(final(kitten), k0, open, work),
        final(kitten).resolved == old(kitten).resolved,
        final(kitten).analyzed == old(kitten).analyzed,
        final(kitten).klause@.len() <= old(kitten).klause@.len() + 1,
        final(kitten).failed@[keep],
{
    proof {
        reveal(Kitten::wf_core);
        lemma_wf_sizes(&k0);
    }
    if kitten.marks[idx as usize] != 1 {
        return;
    }
    let mut lit = 2 * idx;
    if kitten.values[lit as usize] < 0 {
        lit = lit ^ 1;
    }
    proof {
        crate::literal::lemma_xor_one(lit);
        crate::literal::lemma_xor_one((2 * idx) as u32);
    }
    kitten.failed.set(lit as usize, true);
    let ghost ka = *kitten;
    kitten.klause.push(lit ^ 1);
    kitten.marks.set(idx as usize, 2);
    proof {
        let k = *kitten;
        assert(k.klause@.last() / 2 == idx);
        assert forall|i: int| 0 <= i < k.klause@.len() implies k.marks@[(#[trigger] k.klause@[i] / 2) as int] == 2 by {
            if i < ka.klause@.len() {
                assert(k.klause@[i] == ka.klause@[i]);
            }
        }
        assert(distinct_vars(k.klause@)) by {
            assert forall|a: int, b: int| 0 <= a < k.klause@.len() && 0 <= b < k.klause@.len() && a != b implies #[trigger] (k.klause@[a] / 2) != #[trigger] (k.klause@[b] / 2) by {
                if a < ka.klause@.len() && b < ka.klause@.len() {
                    assert(k.klause@[a] == ka.klause@[a] && k.klause@[b] == ka.klause@[b]);
                } else if a < ka.klause@.len() {
                    assert(ka.marks@[(ka.klause@[a] / 2) as int] == 2);
                } else {
                    assert(ka.marks@[(ka.klause@[b] / 2) as int] == 2);
                }
            }
        }
        assert(lits_below(k.klause@, k.lits as int));
        assert forall|v: int| 0 <= v < k.marks@.len() implies (#[trigger] k.marks@[v] != 0) == k.analyzed@.contains(v as u32) by {
            if v == idx as int {
                assert(ka.marks@[v] != 0);
            } else {
                assert(k.marks@[v] == ka.marks@[v]);
            }
        }
        assert forall|m: int| 0 <= m < work.len() implies (#[trigger] work[m] as int) < k.nvars() && k.marks@[work[m] as int] != 0 by {
            assert(ka.marks@[work[m] as int] != 0);
        }
    }
}

/// Resolves the literals of klause `reason` into the analysis of failed
/// assumptions: each variable not yet analyzed is marked 1, and counted as
/// open when it is assigned above the root level or put on `work`
/// otherwise.
#[verifier::rlimit(60)]
fn failing_reason(kitten: &mut Kitten, reason: u32, open: &mut usize, work: &mut Vec<u32>, Ghost(k0): Ghost<Kitten>)
    requires
        failing_ok(old(kitten), k0, *old(open) as int, old(work)@),
        (reason as int) < old(kitten).klauses@.len(),
    ensures
        failing_ok(final(kitten), k0, *final(open) as int, final(work)@),
        final(kitten).resolved == old(kitten).resolved,
        final(kitten).klause == old(kitten).klause,
        final(kitten).failed == old(kitten).failed,
{
    proof {
        lemma_wf_sizes(&k0);
        reveal(Kitten::wf_core);
        assert(klause_ok(kitten.klauses@[reason as int], reason as int, kitten.lits as int, kitten.antecedents));
    }
    let csize = kitten.klauses[reason as usize].lits.len();
    let mut i: usize = 0;
    while i < csize
        invariant
            failing_ok(kitten, k0, *open as int, work@),
            (reason as int) < kitten.klauses@.len(),
            csize == kitten.klauses@[reason as int].lits@.len(),
            lits_below(kitten.klauses@[reason as int].lits@, kitten.lits as int),
            kitten.resolved == old(kitten).resolved,
            kitten.klause == old(kitten).klause,
            kitten.failed == old(kitten).failed,
            i <= csize,
            kitten.lits <= kitten.size,
            kitten.size % 2 == 0,
            kitten.lits % 2 == 0,
            kitten.size <= 0x8000_0000,
            kitten.vars@.len() == kitten.size / 2,
            kitten.marks@.len() == kitten.size / 2,
        decreases csize - i,
    {
        let other = kitten.klauses[reason as usize].lits[i];
        let other_idx = (other / 2) as usize;
        if kitten.marks[other_idx] == 0 {
            let ghost ka = *kitten;
            let ghost wa = work@;
            kitten.marks.set(other_idx, 1);
            kitten.analyzed.push(other_idx as u32);
            proof {
                lemma_mark_analyzed(&ka, kitten, other_idx as int);
            }
            if kitten.vars[other_idx].level != 0 {
                *open = *open + 1;
            } else {
                work.push(other_idx as u32);
            }
            proof {
                let k = *kitten;
                assert forall|j: int| 0 <= j < k.klause@.len() implies k.marks@[(#[trigger] k.klause@[j] / 2) as int] == 2 by {
                    assert(ka.marks@[(ka.klause@[j] / 2) as int] == 2);
                }
                assert forall|m: int| 0 <= m < work@.len() implies (#[trigger] work@[m] as int) < k.nvars() && k.marks@[work@[m] as int] != 0 by {
                    if m < wa.len() {
                        assert(work@[m] == wa[m]);
                    }
                }
            }
        }
        i += 1;
    }
}

/// Analyzes why the assumptions failed, with some assumption false: flags
/// as failed a falsified assumption (one fixed at the root level first,
/// else one contradicting another assumption, else the first), and
/// otherwise the assumptions it was implied from; records as the failing
/// klause the one reason that implied it or a klause learned from all of
/// them. The analysis is left out, with nothing recorded beyond the first
/// flag, when the trail does not have the shape it relies on.
#[verifier::rlimit(100)]
fn failing(kitten: &mut Kitten, stats: &mut KittenStatistics) -> (r: Result<(), KittenError>)
    requires
        old(kitten).wf(),
        exists|i: int| 0 <= i < old(kitten).assumptions@.len() && old(kitten).values@[#[trigger] old(kitten).assumptions@[i] as int] < 0,
    ensures
        r is Err ==> final(kitten).klauses@.len() + 1 >= MAX_KLAUSES,
        kept_formula(*old(kitten), *final(kitten)),
        final(kitten).wf(),
        ticks_grew(*old(stats), *final(stats)),
        stats_frame(*old(stats), *final(stats)),
        final(kitten).klauses@.len() >= old(kitten).klauses@.len(),
        final(kitten).level == old(kitten).level,
        final(kitten).status == old(kitten).status,
        final(kitten).assumptions == old(kitten).assumptions,
        final(kitten).lits == old(kitten).lits,
        final(kitten).trail == old(kitten).trail,
        final(kitten).values == old(kitten).values,
        exists|i: int| 0 <= i < old(kitten).assumptions@.len() && old(kitten).values@[#[trigger] old(kitten).assumptions@[i] as int] < 0
            && final(kitten).failed@[old(kitten).assumptions@[i] as int],
{
    proof {
        reveal(Kitten::wf_core);
        lemma_wf_sizes(kitten);
    }
    let ghost k0 = *kitten;
    let mut failed_clashing: u32 = INVALID;
    let mut first_failed: u32 = INVALID;
    let mut failed_unit: u32 = INVALID;
    let n = kitten.assumptions.len();
    let mut i: usize = 0;
    while i < n
        invariant
            *kitten == k0,
            k0.tables_ok(),
            i <= n,
            n == kitten.assumptions@.len(),
            first_failed == INVALID ==> failed_unit == INVALID && failed_clashing == INVALID
                && forall|j: int| 0 <= j < i ==> kitten.values@[#[trigger] kitten.assumptions@[j] as int] >= 0,
            first_failed != INVALID ==> exists|j: int| 0 <= j < n && kitten.assumptions@[j] == first_failed,
            first_failed != INVALID ==> kitten.values@[first_failed as int] < 0,
            first_failed != INVALID && failed_unit == INVALID ==> kitten.vars@[(first_failed / 2) as int].level != 0,
            first_failed != INVALID && failed_unit == INVALID && failed_clashing == INVALID ==> kitten.vars@[(first_failed / 2) as int].reason != INVALID,
            failed_unit != INVALID ==> kitten.values@[failed_unit as int] < 0
                && exists|j: int| 0 <= j < n && kitten.assumptions@[j] == failed_unit,
            failed_clashing != INVALID ==> kitten.values@[failed_clashing as int] < 0
                && exists|j: int| 0 <= j < n && kitten.assumptions@[j] == failed_clashing,
        ensures
            first_failed == INVALID ==> i >= n,
        decreases n - i,
    {
        let lit = kitten.assumptions[i];
        if kitten.values[lit as usize] < 0 {
            if first_failed == INVALID {
                first_failed = lit;
            }
            let failed_idx = (lit / 2) as usize;
            if kitten.vars[failed_idx].level == 0 {
                failed_unit = lit;
                break;
            }
            if failed_clashing == INVALID && kitten.vars[failed_idx].reason == INVALID {
                failed_clashing = lit;
            }
        }
        i += 1;
    }
    proof {
        if first_failed == INVALID {
            let j = choose|j: int| 0 <= j < k0.assumptions@.len() && k0.values@[#[trigger] k0.assumptions@[j] as int] < 0;
            assert(kitten.values@[kitten.assumptions@[j] as int] >= 0);
        }
    }
    let failed = if failed_unit != INVALID {
        failed_unit
    } else if failed_clashing != INVALID {
        failed_clashing
    } else {
        first_failed
    };
    let ghost jf = choose|j: int| 0 <= j < n && k0.assumptions@[j] == failed;
    let failed_idx = (failed / 2) as usize;
    let failed_reason = kitten.vars[failed_idx].reason;
    kitten.failed.set(failed as usize, true);
    proof {
        lemma_wf_core_failed(k0, *kitten);
    }
    if failed_unit != INVALID {
        if (failed_reason as usize) < kitten.klauses.len() {
            kitten.failing = failed_reason;
        }
        proof {
            assert(kitten.wf_core());
        }
        return Ok(());
    }
    let not_failed = failed ^ 1;
    proof {
        crate::literal::lemma_xor_one(failed);
    }
    if failed_clashing != INVALID {
        kitten.failed.set(not_failed as usize, true);
        proof {
            lemma_wf_core_failed(k0, *kitten);
        }
        return Ok(());
    }
    let ghost k1 = *kitten;
    kitten.marks.set(failed_idx, 2);
    kitten.analyzed.push(failed_idx as u32);
    kitten.klause.push(not_failed);
    let mut work: Vec<u32> = Vec::new();
    proof {
        let k = *kitten;
        assert(marks_track(&k)) by {
            assert forall|v: int| 0 <= v < k.marks@.len() implies (#[trigger] k.marks@[v] != 0) == k.analyzed@.contains(v as u32) by {
                if v == failed_idx as int {
                    assert(k.analyzed@[0] == v as u32);
                } else {
                    assert(k.marks@[v] == k0.marks@[v]);
                    if k.analyzed@.contains(v as u32) {
                        let j = choose|j: int| 0 <= j < k.analyzed@.len() && k.analyzed@[j] == v as u32;
                        assert(j == 0);
                    }
                }
            }
        }
        assert(failing_ok(kitten, k0, 1, work@));
    }
    let mut p: usize = kitten.trail.len();
    let mut open: usize = 1;
    while open > 0
        invariant
            failing_ok(kitten, k0, open as int, work@),
            k0 == *old(kitten),
            kitten.resolved@.len() + p <= kitten.trail@.len(),
            kitten.failed@[failed as int],
            (failed as int) < kitten.failed@.len(),
            0 <= jf < k0.assumptions@.len(),
            k0.assumptions@[jf] == failed,
            k0.values@[k0.assumptions@[jf] as int] < 0,
        decreases p,
    {
        open -= 1;
        proof {
            reveal(Kitten::wf_core);
            lemma_wf_sizes(&k0);
        }
        let ghost p0 = p;
        let mut found = false;
        let mut idx: u32 = 0;
        while !found && p > 0
            invariant
                failing_ok(kitten, k0, open as int, work@),
                p <= p0,
                p0 <= kitten.trail@.len(),
                lits_below(kitten.trail@, kitten.lits as int),
                kitten.lits <= kitten.size,
                kitten.lits % 2 == 0,
                kitten.size % 2 == 0,
                kitten.marks@.len() == kitten.size / 2,
                found ==> p < p0 && (idx as int) < kitten.nvars(),
            decreases p,
        {
            p -= 1;
            let t = kitten.trail[p];
            if kitten.marks[(t / 2) as usize] != 0 {
                found = true;
                idx = t / 2;
            }
        }
        if !found || kitten.vars[idx as usize].level == 0 {
            abandon_analysis(kitten);
            return Ok(());
        }
        let reason = kitten.vars[idx as usize].reason;
        if reason == INVALID {
            failing_decision(kitten, idx, Ghost(k0), Ghost(open as int), Ghost(work@), Ghost(failed as int));
        } else if (reason as usize) < kitten.klauses.len() {
            kitten.resolved.push(reason);
            failing_reason(kitten, reason, &mut open, &mut work, Ghost(k0));
        } else {
            abandon_analysis(kitten);
            return Ok(());
        }
    }
    let mut next: usize = 0;
    while next < work.len()
        invariant
            failing_ok(kitten, k0, open as int, work@),
            k0 == *old(kitten),
            kitten.resolved@.len() <= kitten.trail@.len() + next,
            next <= work@.len(),
            kitten.failed@[failed as int],
            (failed as int) < kitten.failed@.len(),
            0 <= jf < k0.assumptions@.len(),
            k0.assumptions@[jf] == failed,
            k0.values@[k0.assumptions@[jf] as int] < 0,
        decreases work@.len() - next,
    {
        proof {
            lemma_wf_sizes(&k0);
        }
        let idx = work[next];
        next += 1;
        let reason = kitten.vars[idx as usize].reason;
        if reason == INVALID {
            failing_decision(kitten, idx, Ghost(k0), Ghost(open as int), Ghost(work@), Ghost(failed as int));
        } else if (reason as usize) < kitten.klauses.len() {
            kitten.resolved.push(reason);
        }
    }
    proof {
        reveal(Kitten::wf_core);
        lemma_wf_sizes(&k0);
        lemma_wf_core_failed(k0, *kitten);
        assert(work@.len() <= kitten.nvars()) by {
            lemma_marks_track_len(kitten);
        }
    }
    if kitten.resolved.len() == 1 {
        kitten.failing = kitten.resolved[0];
        proof {
            assert(kitten.wf_core());
        }
    } else {
        match new_learned_klause(kitten, stats) {
            Ok(c) => {
                kitten.failing = c;
                proof {
                    assert(kitten.wf_core());
                }
            },
            Err(e) => {
                abandon_analysis(kitten);
                return Err(e);
            },
        }
    }
    abandon_analysis(kitten);
    Ok(())
}

/// Marks the variables of the literals of klause `r` that are not marked
/// yet as analyzed.
fn mark_klause_vars(kitten: &mut Kitten, r: u32, Ghost(k0): Ghost<Kitten>)
    requires
        k0.wf(),
        *old(kitten) == (Kitten { marks: old(kitten).marks, analyzed: old(kitten).analyzed, resolved: old(kitten).resolved, ..k0 }),
        old(kitten).marks@.len() == k0.marks@.len(),
        marks_track(old(kitten)),
        (r as int) < old(kitten).klauses@.len(),
    ensures
        *final(kitten) == (Kitten { marks: final(kitten).marks, analyzed: final(kitten).analyzed, ..*old(kitten) }),
        final(kitten).marks@.len() == k0.marks@.len(),
        marks_track(final(kitten)),
        final(kitten).analyzed@.len() >= old(kitten).analyzed@.len(),
        forall|i: int| 0 <= i < old(kitten).analyzed@.len() ==> #[trigger] final(kitten).analyzed@[i] == old(kitten).analyzed@[i],
{
    proof {
        lemma_wf_sizes(&k0);
        reveal(Kitten::wf_core);
        assert(klause_ok(kitten.klauses@[r as int], r as int, kitten.lits as int, kitten.antecedents));
    }
    let csize = kitten.klauses[r as usize].lits.len();
    let mut i: usize = 0;
    while i < csize
        invariant
            *kitten == (Kitten { marks: kitten.marks, analyzed: kitten.analyzed, ..*old(kitten) }),
            kitten.marks@.len() == k0.marks@.len(),
            marks_track(kitten),
            kitten.analyzed@.len() >= old(kitten).analyzed@.len(),
            forall|j: int| 0 <= j < old(kitten).analyzed@.len() ==> #[trigger] kitten.analyzed@[j] == old(kitten).analyzed@[j],
            (r as int) < kitten.klauses@.len(),
            csize == kitten.klauses@[r as int].lits@.len(),
            lits_below(kitten.klauses@[r as int].lits@, kitten.lits as int),
            i <= csize,
            kitten.lits <= kitten.size,
            kitten.size % 2 == 0,
            kitten.lits % 2 == 0,
            kitten.size <= 0x8000_0000,
            kitten.marks@.len() == kitten.size / 2,
        decreases csize - i,
    {
        let lit = kitten.klauses[r as usize].lits[i];
        let idx = (lit / 2) as usize;
        if kitten.marks[idx] == 0 {
            let ghost ka = *kitten;
            kitten.marks.set(idx, 1);
            kitten.analyzed.push(idx as u32);
            proof {
                lemma_mark_analyzed(&ka, kitten, idx as int);
                assert forall|j: int| 0 <= j < old(kitten).analyzed@.len() implies #[trigger] kitten.analyzed@[j] == old(kitten).analyzed@[j] by {
                    assert(kitten.analyzed@[j] == ka.analyzed@[j]);
                }
            }
        }
        i += 1;
    }
}

/// Records that the klauses are inconsistent at the root level, where
/// klause `r` is falsified: when antecedents are tracked, learns the empty
/// klause from `r` and the reasons of all the literals it depends on, and
/// records that; otherwise records `r`. A reason that is not a klause (the
/// trail does not have the shape this relies on) leaves `r` recorded.
#[verifier::rlimit(60)]
fn inconsistent(kitten: &mut Kitten, stats: &mut KittenStatistics, r: u32) -> (res: Result<(), KittenError>)
    requires
        old(kitten).wf(),
        (r as int) < old(kitten).klauses@.len(),
    ensures
        res is Err ==> final(kitten).klauses@.len() + 1 >= MAX_KLAUSES,
        kept_formula(*old(kitten), *final(kitten)),
        final(kitten).wf(),
        res is Ok ==> final(kitten).inconsistent != INVALID,
        ticks_grew(*old(stats), *final(stats)),
        stats_frame(*old(stats), *final(stats)),
        final(kitten).klauses@.len() >= old(kitten).klauses@.len(),
        final(kitten).level == old(kitten).level,
        final(kitten).status == old(kitten).status,
        final(kitten).assumptions == old(kitten).assumptions,
        final(kitten).lits == old(kitten).lits,
        final(kitten).trail == old(kitten).trail,
        final(kitten).values == old(kitten).values,
{
    proof {
        reveal(Kitten::wf_core);
        lemma_wf_sizes(kitten);
    }
    if !kitten.antecedents {
        kitten.inconsistent = r;
        proof {
            assert(kitten.wf_core());
        }
        return Ok(());
    }
    let ghost k0 = *kitten;
    let mut next: usize = 0;
    let mut c = r;
    loop
        invariant_except_break
            kitten.resolved@.len() == next,
        invariant
            k0 == *old(kitten),
            k0.wf(),
            *kitten == (Kitten { marks: kitten.marks, analyzed: kitten.analyzed, resolved: kitten.resolved, ..k0 }),
            kitten.marks@.len() == k0.marks@.len(),
            marks_track(kitten),
            (c as int) < kitten.klauses@.len(),
            (r as int) < kitten.klauses@.len(),
            next <= kitten.analyzed@.len(),
            forall|i: int| 0 <= i < kitten.resolved@.len() ==> (#[trigger] kitten.resolved@[i] as int) < kitten.klauses@.len(),
        ensures
            k0.wf(),
            *kitten == (Kitten { marks: kitten.marks, analyzed: kitten.analyzed, resolved: kitten.resolved, ..k0 }),
            kitten.marks@.len() == k0.marks@.len(),
            marks_track(kitten),
            kitten.resolved@.len() <= kitten.nvars() + 1,
            forall|i: int| 0 <= i < kitten.resolved@.len() ==> (#[trigger] kitten.resolved@[i] as int) < kitten.klauses@.len(),
        decreases kitten.nvars() - next,
    {
        kitten.resolved.push(c);
        mark_klause_vars(kitten, c, Ghost(k0));
        proof {
            lemma_marks_track_len(kitten);
            lemma_wf_sizes(&k0);
        }
        if next == kitten.analyzed.len() {
            break;
        }
        let idx = kitten.analyzed[next];
        next += 1;
        let reason = kitten.vars[idx as usize].reason;
        if (reason as usize) >= kitten.klauses.len() {
            proof {
                lemma_wf_core_scratch(k0, *kitten);
            }
            kitten.inconsistent = r;
            proof {
                reveal(Kitten::wf_core);
                assert(kitten.wf_core());
            }
            abandon_analysis(kitten);
            return Ok(());
        }
        c = reason;
    }
    proof {
        lemma_wf_core_scratch(k0, *kitten);
    }
    let learned = match new_learned_klause(kitten, stats) {
        Ok(l) => l,
        Err(e) => {
            abandon_analysis(kitten);
            return Err(e);
        },
    };
    kitten.inconsistent = learned;
    proof {
        reveal(Kitten::wf_core);
        assert(kitten.wf_core());
    }
    abandon_analysis(kitten);
    Ok(())
}

/// The variable the next decision is on: the last unassigned one at or
/// before the search cursor in the decision queue.
fn next_decision_variable(kitten: &Kitten) -> (idx: u32)
    requires
        kitten.tables_ok(),
        kitten.unassigned > 0,
    ensures
        (idx as int) < kitten.nvars(),
        kitten.values@[2 * idx as int] == 0,
        search_ok(Kueue { search: idx, ..kitten.queue }, kitten.order@, kitten.values@),
{
    let ghost o = kitten.order@;
    let ghost n = kitten.nvars();
    proof {
        lemma_count_zero(kitten.values@, n);
        lemma_count_bounds(kitten.values@, n);
        assert(o.contains(kitten.queue.search as int as u32));
    }
    let ghost s = choose|s: int| 0 <= s < o.len() && o[s] == kitten.queue.search;
    let mut idx = kitten.queue.search;
    let ghost mut pos = s;
    while kitten.values[2 * idx as usize] != 0
        invariant
            kitten.tables_ok(),
            o == kitten.order@,
            n == kitten.nvars(),
            kitten.unassigned > 0,
            0 <= pos < o.len(),
            o[pos] == idx,
            forall|j: int| pos < j < o.len() ==> kitten.values@[2 * #[trigger] o[j]] != 0,
            !(forall|v: int| 0 <= v < n ==> #[trigger] kitten.values@[2 * v] != 0),
        decreases pos,
    {
        proof {
            lemma_linked_at(kitten.links@, kitten.queue, o, pos);
            if pos == 0 {
                assert forall|v: int| 0 <= v < n implies #[trigger] kitten.values@[2 * v] != 0 by {
                    assert(o.contains(v as u32));
                    let j = choose|j: int| 0 <= j < o.len() && o[j] == v as u32;
                    assert(kitten.values@[2 * o[j]] != 0);
                }
            }
        }
        idx = kitten.links[idx as usize].prev;
        proof {
            pos = pos - 1;
        }
    }
    proof {
        lemma_linked_at(kitten.links@, kitten.queue, o, pos);
        let q2 = Kueue { search: idx, ..kitten.queue };
        assert forall|i: int, j: int| 0 <= i < j < o.len() && o[i] == q2.search implies kitten.values@[2 * o[j]] != 0 by {
            assert(i == pos);
        }
    }
    idx
}

/// Takes the next decision: the first assumption not yet satisfied (each
/// satisfied one opens a level of its own), else the phase of the variable
/// found from the search cursor. Returns 20 after analyzing failed
/// assumptions when an assumption is false, 10 when every variable is
/// assigned, -1 when the ticks limit is reached or termination is
/// requested (or no level is left), and 0 after assigning the decision.
#[verifier::rlimit(60)]
fn decide(kitten: &mut Kitten, stats: &mut KittenStatistics) -> (r: Result<i32, KittenError>)
    requires
        old(kitten).wf(),
    ensures
        r is Err ==> final(kitten).klauses@.len() + 1 >= MAX_KLAUSES,
        kept_formula(*old(kitten), *final(kitten)),
        final(kitten).wf(),
        ticks_grew(*old(stats), *final(stats)),
        outcomes_kept(*old(stats), *final(stats)),
        final(stats).kitten_solved == old(stats).kitten_solved,
        final(stats).terminate == old(stats).terminate,
        final(kitten).klauses@.len() >= old(kitten).klauses@.len(),
        final(kitten).status == old(kitten).status,
        final(kitten).assumptions == old(kitten).assumptions,
        final(kitten).lits == old(kitten).lits,
        r is Ok ==> r->Ok_0 == 0 || r->Ok_0 == 10 || r->Ok_0 == 20 || r->Ok_0 == -1,
        (r is Ok && r->Ok_0 == 0) ==> final(kitten).propagated < final(kitten).trail@.len()
            && final(stats).kitten_ticks < u64::MAX,
        (r is Ok && r->Ok_0 == 10) ==> final(kitten).unassigned == 0,
        (r is Ok && r->Ok_0 == -1) ==> old(stats).kitten_ticks >= old(kitten).limits.ticks || old(stats).terminate
            || final(kitten).level == u32::MAX,
        (r is Ok && r->Ok_0 == 20) ==> exists|i: int| 0 <= i < final(kitten).assumptions@.len()
            && final(kitten).values@[#[trigger] final(kitten).assumptions@[i] as int] < 0
            && final(kitten).failed@[final(kitten).assumptions@[i] as int],
{
    proof {
        lemma_wf_sizes(kitten);
    }
    if kitten.level == 0 && kitten.trail.len() > 0 {
        flush_trail(kitten);
    }
    let ghost k1 = *kitten;
    proof {
        lemma_kept_formula_same(*old(kitten), k1);
    }
    let mut decision = INVALID;
    let assumptions = kitten.assumptions.len();
    while (kitten.level as usize) < assumptions
        invariant_except_break
            decision == INVALID,
        invariant
            kitten.wf(),
            *kitten == (Kitten { level: kitten.level, ..k1 }),
            *stats == *old(stats),
            k1.klauses@.len() >= old(kitten).klauses@.len(),
            k1.status == old(kitten).status,
            k1.assumptions == old(kitten).assumptions,
            k1.lits == old(kitten).lits,
            kept_formula(*old(kitten), k1),
            assumptions == kitten.assumptions@.len(),
        ensures
            kitten.wf(),
            *kitten == (Kitten { level: kitten.level, ..k1 }),
            decision == INVALID || ((decision as int) < kitten.lits && kitten.values@[decision as int] == 0),
        decreases assumptions - kitten.level,
    {
        proof {
            reveal(Kitten::wf_core);
        }
        let assumption = kitten.assumptions[kitten.level as usize];
        let value = kitten.values[assumption as usize];
        if value < 0 {
            proof {
                assert(kitten.values@[kitten.assumptions@[kitten.level as int] as int] < 0);
            }
            let ghost kf = *kitten;
            let failed = failing(kitten, stats);
            proof {
                lemma_kept_formula_trans(*old(kitten), kf, *kitten);
            }
            match failed {
                Ok(()) => {},
                Err(e) => {
                    return Err(e);
                },
            }
            return Ok(20);
        } else if value > 0 {
            kitten.level = kitten.level + 1;
            proof {
                reveal(Kitten::wf_core);
                assert(kitten.wf_core());
            }
        } else {
            decision = assumption;
            break;
        }
    }
    if kitten.unassigned == 0 {
        return Ok(10);
    }
    if stats.kitten_ticks >= kitten.limits.ticks {
        return Ok(-1);
    }
    if stats.terminate {
        return Ok(-1);
    }
    if kitten.level == u32::MAX {
        return Ok(-1);
    }
    proof {
        reveal(Kitten::wf_core);
    }
    if decision == INVALID {
        let idx = next_decision_variable(kitten);
        let ghost q0 = kitten.queue;
        update_search(&mut kitten.queue, idx);
        proof {
            lemma_queue_search_frame(kitten.links@, q0, kitten.queue, kitten.order@);
        }
        let phase = kitten.phases[idx as usize] as u32;
        proof {
            assert(kitten.phases@[idx as int] <= 1);
            assert(kitten.values@[2 * idx + 1] == -kitten.values@[2 * idx as int]);
            assert(kitten.wf_core());
        }
        decision = 2 * idx + phase;
    }
    stats.kitten_decisions = stats.kitten_decisions.saturating_add(1);
    kitten.level = kitten.level + 1;
    proof {
        assert(kitten.wf_core());
    }
    let ghost ka = *kitten;
    let assigned = assign(kitten, stats, decision, INVALID);
    proof {
        lemma_kept_formula_same(ka, *kitten);
        lemma_kept_formula_trans(*old(kitten), ka, *kitten);
    }
    match assigned {
        Ok(()) => Ok(0),
        Err(e) => Err(e),
    }
}

/// Some literal of the klause is true.
pub open spec fn klause_satisfied(values: Seq<i8>, lits: Seq<u32>) -> bool {
    exists|i: int| 0 <= i < lits.len() && values[#[trigger] lits[i] as int] > 0
}

/// The assignment satisfies every klause.
pub open spec fn is_model(k: &Kitten) -> bool {
    forall|r: int| 0 <= r < k.klauses@.len() ==> klause_satisfied(k.values@, #[trigger] k.klauses@[r].lits@)
}

/// A model of the klauses now satisfies every klause there was before.
pub proof fn lemma_model_keeps_formula(k0: Kitten, k: Kitten)
    requires
        kept_formula(k0, k),
        is_model(&k),
    ensures
        forall|c: int| 0 <= c < k0.klauses@.len() ==> klause_satisfied(k.values@, #[trigger] k0.klauses@[c].lits@),
{
    assert forall|c: int| 0 <= c < k0.klauses@.len() implies klause_satisfied(k.values@, #[trigger] k0.klauses@[c].lits@) by {
        assert(klause_satisfied(k.values@, k.klauses@[c].lits@));
        lemma_lits_within_satisfied(k0.klauses@, k.klauses@, k.values@, c);
    }
}

/// A clause added to the solver is satisfied by every model it reports
/// later: one of the clause's external literals is imported as a literal
/// that is true.
pub proof fn lemma_added_clause_satisfied(added: Kitten, solved: Kitten, r: int, elits: Seq<u32>)
    requires
        kept_formula(added, solved),
        is_model(&solved),
        0 <= r < added.klauses@.len(),
        added.klauses@[r].lits@.len() == elits.len(),
        forall|j: int| 0 <= j < elits.len() ==> imported_lit(&added, #[trigger] elits[j]) == Some(added.klauses@[r].lits@[j] as int),
    ensures
        exists|j: int| 0 <= j < elits.len() && (match imported_lit(&solved, #[trigger] elits[j]) {
            Some(l) => solved.values@[l] > 0,
            None => false,
        }),
{
    lemma_model_keeps_formula(added, solved);
    let c = added.klauses@[r].lits@;
    assert(klause_satisfied(solved.values@, c));
    let j = choose|j: int| 0 <= j < c.len() && solved.values@[#[trigger] c[j] as int] > 0;
    assert(imported_lit(&added, elits[j]) == Some(c[j] as int));
    assert(imported_lit(&solved, elits[j]) == imported_lit(&added, elits[j]));
}

/// Every assumption is true.
pub open spec fn assumptions_true(k: &Kitten) -> bool {
    forall|i: int| 0 <= i < k.assumptions@.len() ==> k.values@[#[trigger] k.assumptions@[i] as int] > 0
}

/// Whether every assumption is true.
fn assumptions_hold(kitten: &Kitten) -> (b: bool)
    requires
        kitten.wf_core(),
    ensures
        b == assumptions_true(kitten),
{
    proof {
        reveal(Kitten::wf_core);
    }
    let n = kitten.assumptions.len();
    let mut i: usize = 0;
    while i < n
        invariant
            kitten.tables_ok(),
            lits_below(kitten.assumptions@, kitten.lits as int),
            n == kitten.assumptions@.len(),
            i <= n,
            forall|j: int| 0 <= j < i ==> kitten.values@[#[trigger] kitten.assumptions@[j] as int] > 0,
        decreases n - i,
    {
        if kitten.values[kitten.assumptions[i] as usize] <= 0 {
            return false;
        }
        i += 1;
    }
    true
}

/// Whether the assignment satisfies every klause.
fn satisfies_all(kitten: &Kitten) -> (b: bool)
    requires
        kitten.wf_core(),
    ensures
        b == is_model(kitten),
{
    proof {
        reveal(Kitten::wf_core);
    }
    let n = kitten.klauses.len();
    let mut r: usize = 0;
    while r < n
        invariant
            kitten.wf_core(),
            kitten.tables_ok(),
            n == kitten.klauses@.len(),
            r <= n,
            forall|c: int| 0 <= c < r ==> klause_satisfied(kitten.values@, #[trigger] kitten.klauses@[c].lits@),
        decreases n - r,
    {
        proof {
            assert(klause_ok(kitten.klauses@[r as int], r as int, kitten.lits as int, kitten.antecedents));
        }
        let size = kitten.klauses[r].lits.len();
        let mut i: usize = 0;
        let mut sat = false;
        while i < size && !sat
            invariant
                kitten.tables_ok(),
                r < n,
                n == kitten.klauses@.len(),
                size == kitten.klauses@[r as int].lits@.len(),
                lits_below(kitten.klauses@[r as int].lits@, kitten.lits as int),
                i <= size,
                sat == klause_satisfied(kitten.values@, kitten.klauses@[r as int].lits@.take(i as int)),
            decreases size - i,
        {
            let lit = kitten.klauses[r].lits[i];
            proof {
                let c = kitten.klauses@[r as int].lits@;
                assert(c.take(i + 1) == c.take(i as int).push(lit));
                if klause_satisfied(kitten.values@, c.take(i + 1)) {
                    let j = choose|j: int| 0 <= j < c.take(i + 1).len() && kitten.values@[#[trigger] c.take(i + 1)[j] as int] > 0;
                    if j < i {
                        assert(c.take(i as int)[j] == c.take(i + 1)[j]);
                    }
                }
                if klause_satisfied(kitten.values@, c.take(i as int)) {
                    let j = choose|j: int| 0 <= j < c.take(i as int).len() && kitten.values@[#[trigger] c.take(i as int)[j] as int] > 0;
                    assert(c.take(i + 1)[j] == c.take(i as int)[j]);
                }
                if kitten.values@[lit as int] > 0 {
                    assert(c.take(i + 1)[i as int] == lit);
                }
            }
            if kitten.values[lit as usize] > 0 {
                sat = true;
            }
            i += 1;
        }
        proof {
            let c = kitten.klauses@[r as int].lits@;
            if sat {
                let j = choose|j: int| 0 <= j < c.take(i as int).len() && kitten.values@[#[trigger] c.take(i as int)[j] as int] > 0;
                assert(c[j] == c.take(i as int)[j]);
            } else {
                assert(c.take(i as int) == c);
            }
        }
        if !sat {
            return false;
        }
        r += 1;
    }
    true
}

/// Assigns the literals of the unit klauses at the root level and
/// propagates them. Returns 20 after recording the inconsistency when a
/// unit is false or propagation conflicts (or when one is recorded
/// already), and 0 otherwise.
#[verifier::rlimit(60)]
fn propagate_units(kitten: &mut Kitten, stats: &mut KittenStatistics) -> (r: Result<i32, KittenError>)
    requires
        old(kitten).wf(),
        old(kitten).level == 0,
    ensures
        r is Err ==> final(kitten).klauses@.len() + 1 >= MAX_KLAUSES,
        kept_formula(*old(kitten), *final(kitten)),
        final(kitten).wf(),
        ticks_grew(*old(stats), *final(stats)),
        outcomes_kept(*old(stats), *final(stats)),
        final(stats).kitten_solved == old(stats).kitten_solved,
        final(stats).kitten_decisions == old(stats).kitten_decisions,
        final(stats).terminate == old(stats).terminate,
        final(kitten).klauses@.len() >= old(kitten).klauses@.len(),
        final(kitten).level == 0,
        final(kitten).status == old(kitten).status,
        final(kitten).assumptions == old(kitten).assumptions,
        final(kitten).lits == old(kitten).lits,
        r is Ok ==> r->Ok_0 == 0 || r->Ok_0 == 20,
        (r is Ok && r->Ok_0 == 20) ==> final(kitten).inconsistent != INVALID,
{
    proof {
        lemma_kept_formula_same(*old(kitten), *kitten);
    }
    if kitten.inconsistent != INVALID {
        return Ok(20);
    }
    if kitten.units.len() == 0 {
        return Ok(0);
    }
    let ghost k0 = *kitten;
    let mut next: usize = 0;
    while next < kitten.units.len()
        invariant
            kitten.wf(),
            kitten.units == k0.units,
            kitten.klauses == k0.klauses,
            kitten.import == k0.import,
            kitten.evars == k0.evars,
            k0 == *old(kitten),
            kitten.level == 0,
            kitten.status == old(kitten).status,
            kitten.assumptions == old(kitten).assumptions,
            kitten.lits == old(kitten).lits,
            k0.klauses@.len() >= old(kitten).klauses@.len(),
            *stats == *old(stats),
        decreases kitten.units@.len() - next,
    {
        proof {
            reveal(Kitten::wf_core);
        }
        let r = kitten.units[next];
        next += 1;
        proof {
            assert(klause_ok(kitten.klauses@[r as int], r as int, kitten.lits as int, kitten.antecedents));
        }
        let unit = kitten.klauses[r as usize].lits[0];
        let value = kitten.values[unit as usize];
        if value < 0 {
            let ghost ki = *kitten;
            let found = inconsistent(kitten, stats, r);
            proof {
                lemma_kept_formula_same(*old(kitten), ki);
                lemma_kept_formula_trans(*old(kitten), ki, *kitten);
            }
            match found {
                Ok(()) => {},
                Err(e) => {
                    return Err(e);
                },
            }
            return Ok(20);
        }
        if value == 0 {
            let assigned = assign(kitten, stats, unit, r);
            proof {
                lemma_kept_formula_same(*old(kitten), *kitten);
            }
            match assigned {
                Ok(()) => {},
                Err(e) => {
                    return Err(e);
                },
            }
        }
    }
    let ghost kp = *kitten;
    proof {
        lemma_kept_formula_same(*old(kitten), kp);
    }
    let propagated = propagate(kitten, stats);
    proof {
        lemma_kept_formula_trans(*old(kitten), kp, *kitten);
    }
    let conflict = match propagated {
        Ok(c) => c,
        Err(e) => {
            return Err(e);
        },
    };
    if conflict == INVALID {
        return Ok(0);
    }
    let ghost ki = *kitten;
    let found = inconsistent(kitten, stats, conflict);
    proof {
        lemma_kept_formula_trans(*old(kitten), ki, *kitten);
    }
    match found {
        Ok(()) => {},
        Err(e) => {
            return Err(e);
        },
    }
    Ok(20)
}

/// Solves the klauses given so far under the assumptions (those added
/// since the last answer, none after an answer): 10 with a total
/// assignment that satisfies every klause there was before the call and
/// makes every assumption true (checked before it is reported), 20 when no total assignment satisfies
/// the klauses there were before the call and makes the assumptions true
/// (confirmed before it is reported: each klause learned in the call must
/// follow from the klauses before it by reverse unit propagation, and unit
/// propagation from the assumptions over all of them must reach a
/// contradiction), and 0 only when the ticks limit is reached or
/// termination is requested, in which case the assumptions are dropped.
/// When the search stops for another reason, or its answer is not
/// confirmed, every assignment of the klauses there were before the call
/// is tried in turn. The result becomes the status, and the counter of its
/// kind goes up. Solving keeps the formula: every klause keeps its
/// literals, at most reordered, and every external variable its import.
#[verifier::rlimit(100)]
pub fn kitten_solve(kitten: &mut Kitten, stats: &mut KittenStatistics) -> (r: Result<i32, KittenError>)
    requires
        old(kitten).wf(),
    ensures
        r is Err ==> final(kitten).klauses@.len() + 1 >= MAX_KLAUSES,
        kept_formula(*old(kitten), *final(kitten)),
        final(kitten).wf(),
        final(kitten).lits == old(kitten).lits,
        final(kitten).klauses@.len() >= old(kitten).klauses@.len(),
        final(stats).kitten_solved == (if old(stats).kitten_solved == u64::MAX { u64::MAX as int } else { old(stats).kitten_solved + 1 }),
        final(stats).kitten_ticks >= old(stats).kitten_ticks,
        r is Ok ==> {
            &&& (r->Ok_0 == 0 || r->Ok_0 == 10 || r->Ok_0 == 20)
            &&& final(kitten).status == r->Ok_0
            &&& r->Ok_0 == 10 ==> final(kitten).unassigned == 0
                && crate::kitten_answers::total(final(kitten).values@, final(kitten).lits as int)
            &&& r->Ok_0 == 10 ==> assumptions_true(final(kitten))
            &&& r->Ok_0 == 10 ==> forall|c: int| 0 <= c < old(kitten).klauses@.len()
                ==> klause_satisfied(final(kitten).values@, #[trigger] old(kitten).klauses@[c].lits@)
            &&& r->Ok_0 == 20 ==> refuted(klause_lits(old(kitten).klauses@), final(kitten).assumptions@,
                final(kitten).values@.len() as int, final(kitten).lits as int)
            &&& r->Ok_0 != 0 ==> final(kitten).assumptions@ == (if old(kitten).status == 0 {
                old(kitten).assumptions@
            } else {
                Seq::<u32>::empty()
            })
            &&& r->Ok_0 == 0 ==> final(kitten).assumptions@.len() == 0
            &&& r->Ok_0 == 0 ==> final(stats).terminate || final(stats).kitten_ticks >= final(kitten).limits.ticks
            &&& final(stats).kitten_sat == counted(old(stats).kitten_sat, r->Ok_0 == 10)
            &&& final(stats).kitten_unsat == counted(old(stats).kitten_unsat, r->Ok_0 == 20)
            &&& final(stats).kitten_unknown == counted(old(stats).kitten_unknown, r->Ok_0 == 0)
            &&& final(stats).terminate == old(stats).terminate
        },
{
    proof {
        reveal(Kitten::wf_core);
    }
    let snap = snapshot(kitten);
    proof {
        assert forall|q: int| 0 <= q < formula_view(snap@).len() implies crate::kitten::lits_below(#[trigger] formula_view(snap@)[q],
            old(kitten).lits as int) by {
            assert(formula_view(snap@)[q] == klause_lits(old(kitten).klauses@)[q]);
            assert(klause_ok(old(kitten).klauses@[q], q, old(kitten).lits as int, old(kitten).antecedents));
        }
    }
    if kitten.status != 0 {
        reset_incremental(kitten);
    } else {
        completely_backtrack_to_root_level(kitten);
    }
    proof {
        lemma_wf_sizes(kitten);
    }
    let ghost k1 = *kitten;
    proof {
        lemma_kept_formula_same(*old(kitten), k1);
    }
    stats.kitten_solved = stats.kitten_solved.saturating_add(1);
    let ghost solved = stats.kitten_solved;
    let units = propagate_units(kitten, stats);
    proof {
        lemma_kept_formula_trans(*old(kitten), k1, *kitten);
    }
    let mut res = match units {
        Ok(x) => x,
        Err(e) => {
            return Err(e);
        },
    };
    while res == 0
        invariant
            kitten.wf(),
            res == 0 || res == 10 || res == 20 || res == -1,
            res == 10 ==> kitten.unassigned == 0,
            res == 20 ==> kitten.inconsistent != INVALID || exists|i: int|
                0 <= i < kitten.assumptions@.len() && kitten.values@[#[trigger] kitten.assumptions@[i] as int] < 0
                    && kitten.failed@[kitten.assumptions@[i] as int],
            stats.kitten_solved == solved,
            stats.kitten_ticks >= old(stats).kitten_ticks,
            outcomes_kept(*old(stats), *stats),
            stats.terminate == old(stats).terminate,
            solved == (if old(stats).kitten_solved == u64::MAX { u64::MAX as int } else { old(stats).kitten_solved + 1 }),
            kitten.lits == k1.lits,
            k1.lits == old(kitten).lits,
            kitten.status == k1.status,
            kitten.assumptions == k1.assumptions,
            kitten.klauses@.len() >= old(kitten).klauses@.len(),
            kept_formula(*old(kitten), *kitten),
        decreases u64::MAX - stats.kitten_ticks, MAX_KLAUSES - kitten.klauses@.len(), if kitten.propagated < kitten.trail@.len() { 0int } else { 1int },
    {
        proof {
            lemma_wf_sizes(kitten);
        }
        let ghost t0 = stats.kitten_ticks;
        let ghost f0 = kitten.propagated < kitten.trail@.len();
        let ghost kp = *kitten;
        let propagated = propagate(kitten, stats);
        proof {
            lemma_kept_formula_trans(*old(kitten), kp, *kitten);
        }
        let conflict = match propagated {
            Ok(c) => c,
            Err(e) => {
                return Err(e);
            },
        };
        if conflict != INVALID {
            if kitten.level != 0 {
                let ghost ka = *kitten;
                let analyzed = analyze(kitten, stats, conflict);
                proof {
                    lemma_kept_formula_trans(*old(kitten), ka, *kitten);
                }
                match analyzed {
                    Ok(true) => {},
                    Ok(false) => {
                        res = -1;
                        break;
                    },
                    Err(e) => {
                        return Err(e);
                    },
                }
            } else {
                let ghost ki = *kitten;
                let found = inconsistent(kitten, stats, conflict);
                proof {
                    lemma_kept_formula_trans(*old(kitten), ki, *kitten);
                }
                match found {
                    Ok(()) => {},
                    Err(e) => {
                        return Err(e);
                    },
                }
                res = 20;
                break;
            }
        } else {
            let ghost kd = *kitten;
            let decided = decide(kitten, stats);
            proof {
                lemma_kept_formula_trans(*old(kitten), kd, *kitten);
            }
            res = match decided {
                Ok(x) => x,
                Err(e) => {
                    return Err(e);
                },
            };
            if res != 0 {
                break;
            }
        }
        proof {
            lemma_wf_sizes(kitten);
            if f0 {
                assert(stats.kitten_ticks > t0 || stats.kitten_ticks == u64::MAX);
            }
        }
    }
    proof {
        reveal(Kitten::wf_core);
    }
    if res == 10 {
        if satisfies_all(kitten) && assumptions_hold(kitten) {
            proof {
                lemma_model_keeps_formula(*old(kitten), *kitten);
                lemma_assigned_total(kitten);
            }
        } else {
            res = -1;
        }
    }
    proof {
        assert(formula_view(snap@).len() == snap@.len());
        assert(klause_lits(old(kitten).klauses@).len() == old(kitten).klauses@.len());
    }
    if res == 20 && !confirm_refuted(&snap, kitten) {
        res = -1;
    }
    if res <= 0 {
        if stats.kitten_ticks >= kitten.limits.ticks || stats.terminate {
            res = 0;
        } else {
            let ghost ke = *kitten;
            res = search_exhaustively(kitten, stats, &snap);
            proof {
                lemma_kept_formula_same(ke, *kitten);
                lemma_kept_formula_trans(*old(kitten), ke, *kitten);
                if res == 10 {
                    assert forall|c: int| 0 <= c < old(kitten).klauses@.len()
                        implies klause_satisfied(kitten.values@, #[trigger] old(kitten).klauses@[c].lits@) by {
                        assert(formula_view(snap@)[c] == klause_lits(old(kitten).klauses@)[c]);
                    }
                }
            }
        }
    }
    proof {
        if res == 20 {
            assert(formula_view(snap@) == klause_lits(old(kitten).klauses@));
        }
    }
    let ghost kr = *kitten;
    if res == 0 && kitten.assumptions.len() > 0 {
        reset_assumptions(kitten);
    }
    kitten.status = res;
    proof {
        lemma_kept_formula_same(kr, *kitten);
        lemma_kept_formula_trans(*old(kitten), kr, *kitten);
    }
    if res == 10 {
        stats.kitten_sat = stats.kitten_sat.saturating_add(1);
    } else if res == 20 {
        stats.kitten_unsat = stats.kitten_unsat.saturating_add(1);
    } else {
        stats.kitten_unknown = stats.kitten_unknown.saturating_add(1);
    }
    proof {
        assert(kitten.wf_core());
    }
    Ok(res)
}

/// Klause `r` holds literal `t`, and every other literal of it is false:
/// flipping `t` would falsify the klause.
pub open spec fn stuck(ks: Seq<Klause>, values: Seq<i8>, t: u32, r: int) -> bool {
    &&& 0 <= r < ks.len()
    &&& ks[r].lits@.contains(t)
    &&& forall|j: int| 0 <= j < ks[r].lits@.len() && ks[r].lits@[j] != t ==> values[#[trigger] ks[r].lits@[j] as int] < 0
}

/// The literal of the variable of `lit` that is true (`lit` unless it is
/// false).
pub open spec fn true_of(values: Seq<i8>, lit: u32) -> u32 {
    if values[lit as int] > 0 { lit } else { spec_not(lit) }
}

/// With no variable unassigned, every literal has a value.
pub(crate) proof fn lemma_all_assigned(k: &Kitten)
    requires
        k.wf_core(),
        k.unassigned == 0,
    ensures
        forall|l: int| 0 <= l < k.lits ==> #[trigger] k.values@[l] != 0,
{
    reveal(Kitten::wf_core);
    lemma_wf_sizes(k);
    lemma_count_zero(k.values@, k.nvars());
    assert forall|l: int| 0 <= l < k.lits implies #[trigger] k.values@[l] != 0 by {
        let v = l / 2;
        assert(k.values@[2 * v] != 0);
        assert(k.values@[2 * v + 1] == -k.values@[2 * v]);
    }
}

/// Flips the value of the variable of `lit` when it is assigned above the
/// root level and every klause watching its true literal keeps a true
/// literal among its other watched literal, its blocking literal, or a
/// replacement literal, which then takes over the watch. Returns whether
/// it flipped; the watches already moved stay moved when it did not.
#[verifier::rlimit(100)]
#[verifier::spinoff_prover]
fn flip_literal(kitten: &mut Kitten, stats: &mut KittenStatistics, lit: u32) -> (r: bool)
    requires
        old(kitten).wf(),
        (lit as int) < old(kitten).lits,
    ensures
        final(kitten).wf(),
        final(kitten).klauses@.len() == old(kitten).klauses@.len(),
        final(kitten).lits == old(kitten).lits,
        final(kitten).status == old(kitten).status,
        final(kitten).level == old(kitten).level,
        final(kitten).trail == old(kitten).trail,
        final(kitten).vars == old(kitten).vars,
        final(kitten).assumptions == old(kitten).assumptions,
        final(kitten).import == old(kitten).import,
        final(kitten).evars == old(kitten).evars,
        kept_formula(*old(kitten), *final(kitten)),
        final(stats).kitten_flip == (if old(stats).kitten_flip == u64::MAX { u64::MAX as int } else { old(stats).kitten_flip + 1 }),
        final(stats).kitten_flipped == (if r && old(stats).kitten_flipped < u64::MAX { old(stats).kitten_flipped + 1 } else { old(stats).kitten_flipped as int }),
        ticks_grew(*old(stats), *final(stats)),
        r ==> old(kitten).values@[lit as int] != 0 && old(kitten).vars@[(lit / 2) as int].level != 0,
        r ==> final(kitten).values@ == old(kitten).values@.update(lit as int, (-old(kitten).values@[lit as int]) as i8).update(
            spec_not(lit) as int, old(kitten).values@[lit as int]),
        !r ==> final(kitten).values == old(kitten).values,
        !r && old(kitten).unassigned == 0 && old(kitten).values@[lit as int] != 0 && old(kitten).vars@[(lit / 2) as int].level != 0
            ==> exists|c: int| #[trigger] stuck(final(kitten).klauses@, final(kitten).values@, true_of(old(kitten).values@, lit), c),
{
    proof {
        reveal(Kitten::wf_core);
        crate::literal::lemma_xor_one(lit);
        lemma_kept_formula_same(*old(kitten), *kitten);
    }
    stats.kitten_flip = stats.kitten_flip.saturating_add(1);
    if kitten.values[lit as usize] == 0 || kitten.vars[(lit / 2) as usize].level == 0 {
        return false;
    }
    let ghost lit0 = lit;
    let mut lit = lit;
    if kitten.values[lit as usize] < 0 {
        lit = lit ^ 1;
    }
    let ghost k0 = *old(kitten);
    proof {
        crate::literal::lemma_xor_one(lit);
        let v = (lit / 2) as int;
        assert(k0.values@[2 * v + 1] == -k0.values@[2 * v]);
        assert(kitten.values@[lit as int] > 0);
    }
    let mut ws: Vec<Katch> = Vec::new();
    std::mem::swap(&mut ws, &mut kitten.watches[lit as usize]);
    let end = ws.len();
    proof {
        assert(watch_list_ok(k0.watches@[lit as int]@, lit as int, k0.klauses@, k0.lits as int));
        lemma_watch_list_len(ws@, lit as int, k0.klauses@, k0.lits as int);
        lemma_put_back(k0.watches@, k0.klauses@, k0.lits as int, lit as int, kitten.watches@[lit as int]);
        assert(kitten.watches@ =~= k0.watches@.update(lit as int, kitten.watches@[lit as int]));
        assert(kitten.wf_core());
    }
    let mut kept: Vec<Katch> = Vec::new();
    let mut res = true;
    let ghost mut witness: int = 0;
    let mut ticks: u64 = (end as u64) / 16 + 1;
    let mut p: usize = 0;
    while p != end
        invariant_except_break
            res,
        invariant
            0 <= p <= end,
            end == ws@.len(),
            end <= k0.klauses@.len() < MAX_KLAUSES,
            ticks <= (end as u64) / 16 + 1 + p,
            kitten.wf(),
            (lit as int) < kitten.lits,
            kitten.values@[lit as int] > 0,
            kitten.watches@[lit as int]@.len() == 0,
            pending_ok(kitten, lit as int, kept@ + ws@.subrange(p as int, end as int)),
            *kitten == (Kitten { klauses: kitten.klauses, watches: kitten.watches, ..k0 }),
            kitten.klauses@.len() == k0.klauses@.len(),
            lits_within(k0.klauses@, kitten.klauses@),
            !res ==> (k0.unassigned == 0 ==> stuck(kitten.klauses@, kitten.values@, lit, witness)),
        decreases end - p,
    {
        let katch = ws[p];
        let ghost before = kept@ + ws@.subrange(p as int, end as int);
        proof {
            reveal(Kitten::wf_core);
            assert(before[kept@.len() as int] == katch);
            assert(katch_ok(katch, lit as int, kitten.klauses@, kitten.lits as int));
        }
        kept.push(katch);
        p += 1;
        proof {
            assert(kept@ + ws@.subrange(p as int, end as int) =~= before);
        }
        let blit = katch.blit;
        if kitten.values[blit as usize] > 0 {
            continue;
        }
        let r = katch.ref_();
        let l0 = kitten.klauses[r as usize].lits[0];
        let l1 = kitten.klauses[r as usize].lits[1];
        let other = l0 ^ l1 ^ lit;
        proof {
            crate::literal::lemma_xor_cancel(l0, l1);
            assert(klause_ok(kitten.klauses@[r as int], r as int, kitten.lits as int, kitten.antecedents));
        }
        ticks = ticks + 1;
        if kitten.values[other as usize] > 0 {
            continue;
        }
        let rep = find_replacement(kitten, r);
        let found = match rep {
            Some(i) => {
                if kitten.values[kitten.klauses[r as usize].lits[i as usize] as usize] > 0 {
                    Some(i)
                } else {
                    None
                }
            },
            None => None,
        };
        match found {
            Some(i) => {
                let n = kept.len() - 1;
                let ghost pend0 = kept@ + ws@.subrange(p as int, end as int);
                let _ = kept.pop();
                let ghost pend = kept@ + ws@.subrange(p as int, end as int);
                proof {
                    assert forall|j: int| 0 <= j < pend.len() implies (#[trigger] pend[j]).spec_ref() != r by {
                        let jj = if j < n { j } else { j + 1 };
                        assert(pend[j] == pend0[jj]);
                        assert(pend0[n as int] == katch);
                    }
                    assert(pending_ok(kitten, lit as int, pend)) by {
                        assert forall|j: int| 0 <= j < pend.len() implies katch_ok(#[trigger] pend[j], lit as int, kitten.klauses@, kitten.lits as int) by {
                            let jj = if j < n { j } else { j + 1 };
                            assert(pend[j] == pend0[jj]);
                        }
                        assert forall|a: int, b: int| 0 <= a < pend.len() && 0 <= b < pend.len() && a != b implies
                            #[trigger] pend[a].spec_ref() != #[trigger] pend[b].spec_ref() by {
                            let aa = if a < n { a } else { a + 1 };
                            let bb = if b < n { b } else { b + 1 };
                            assert(pend[a] == pend0[aa]);
                            assert(pend[b] == pend0[bb]);
                        }
                    }
                }
                let ghost kb = *kitten;
                replace_watch(kitten, lit, r, i, Ghost(pend));
                proof {
                    lemma_lits_within_replace(kb.klauses@, kitten.klauses@, r as int, i as int, lit);
                    lemma_lits_within_trans(k0.klauses@, kb.klauses@, kitten.klauses@);
                }
            },
            None => {
                proof {
                    if k0.unassigned == 0 {
                        lemma_all_assigned(kitten);
                        let c = kitten.klauses@[r as int].lits@;
                        assert(c[0] == lit || c[1] == lit);
                        assert(other == (if c[0] == lit { c[1] } else { c[0] }));
                        assert forall|j: int| 0 <= j < c.len() && c[j] != lit implies kitten.values@[#[trigger] c[j] as int] < 0 by {
                            assert((c[j] as int) < kitten.lits);
                            if j >= 2 {
                                match rep {
                                    Some(i) => {
                                        assert((c[i as int] as int) < kitten.lits);
                                    },
                                    None => {},
                                }
                            }
                        }
                        if c[0] == lit {
                            assert(c.contains(lit)) by { assert(c[0] == lit); }
                        } else {
                            assert(c.contains(lit)) by { assert(c[1] == lit); }
                        }
                    }
                    witness = r as int;
                    if k0.unassigned == 0 {
                        assert(stuck(kitten.klauses@, kitten.values@, lit, witness));
                    }
                }
                res = false;
                break;
            },
        }
    }
    restore_watches(kitten, lit, kept, &ws, p);
    stats.kitten_ticks = stats.kitten_ticks.saturating_add(ticks);
    if res {
        let ghost kb = *kitten;
        let not_lit = lit ^ 1;
        kitten.values.set(lit as usize, -1);
        kitten.values.set(not_lit as usize, 1);
        stats.kitten_flipped = stats.kitten_flipped.saturating_add(1);
        proof {
            reveal(Kitten::wf_core);
            let k = *kitten;
            let v = (lit / 2) as int;
            lemma_count_flip(kb.values@, k.values@, kb.nvars(), v);
            assert(values_ok(k.values@, k.lits as int)) by {
                assert forall|w: int| 0 <= 2 * w && 2 * w + 1 < k.lits implies #[trigger] k.values@[2 * w + 1] == -k.values@[2 * w] by {
                    if w != v {
                        assert(k.values@[2 * w + 1] == kb.values@[2 * w + 1]);
                        assert(k.values@[2 * w] == kb.values@[2 * w]);
                    }
                }
            }
            assert(search_ok(k.queue, k.order@, k.values@)) by {
                assert forall|i: int, j: int| 0 <= i < j < k.order@.len() && k.order@[i] == k.queue.search implies k.values@[2 * k.order@[j]] != 0 by {
                    assert(kb.values@[2 * k.order@[j]] != 0);
                }
            }
            assert forall|i: int| 0 <= i < k.trail@.len() implies k.values@[#[trigger] k.trail@[i] as int] != 0 by {
                assert(kb.values@[k.trail@[i] as int] != 0);
                let w = (k.trail@[i] / 2) as int;
                assert(kb.values@[2 * w + 1] == -kb.values@[2 * w]);
            }
            assert(k.wf_core());
        }
    }
    proof {
        if !res && old(kitten).unassigned == 0 {
            assert(true_of(old(kitten).values@, lit0) == lit);
            assert(stuck(kitten.klauses@, kitten.values@, lit, witness));
        }
    }
    res
}

/// Klause `c` has a true literal other than `t`.
pub open spec fn other_true(values: Seq<i8>, c: Seq<u32>, t: u32) -> bool {
    exists|j: int| 0 <= j < c.len() && c[j] != t && values[#[trigger] c[j] as int] > 0
}

/// Whether every klause holding `t` has a true literal other than `t`.
fn others_true(kitten: &Kitten, t: u32) -> (b: bool)
    requires
        kitten.tables_ok(),
    ensures
        b == forall|r: int| 0 <= r < kitten.klauses@.len() && #[trigger] kitten.klauses@[r].lits@.contains(t)
            ==> other_true(kitten.values@, kitten.klauses@[r].lits@, t),
{
    let nk = kitten.klauses.len();
    let mut r: usize = 0;
    while r < nk
        invariant
            kitten.tables_ok(),
            nk == kitten.klauses@.len(),
            r <= nk,
            forall|q: int| 0 <= q < r && #[trigger] kitten.klauses@[q].lits@.contains(t)
                ==> other_true(kitten.values@, kitten.klauses@[q].lits@, t),
        decreases nk - r,
    {
        proof {
            assert(klause_ok(kitten.klauses@[r as int], r as int, kitten.lits as int, kitten.antecedents));
        }
        let ghost c = kitten.klauses@[r as int].lits@;
        let size = kitten.klauses[r].lits.len();
        let mut j: usize = 0;
        let mut has_t = false;
        let mut other = false;
        while j < size
            invariant
                r < nk,
                nk == kitten.klauses@.len(),
                c == kitten.klauses@[r as int].lits@,
                size == c.len(),
                lits_below(c, kitten.lits as int),
                kitten.lits <= kitten.values@.len(),
                j <= size,
                has_t <==> exists|k: int| 0 <= k < j && c[k] == t,
                other <==> exists|k: int| 0 <= k < j && c[k] != t && kitten.values@[#[trigger] c[k] as int] > 0,
            decreases size - j,
        {
            let l = kitten.klauses[r].lits[j];
            if l == t {
                has_t = true;
            } else if kitten.values[l as usize] > 0 {
                other = true;
            }
            j += 1;
        }
        if has_t && !other {
            proof {
                let k = choose|k: int| 0 <= k < size && c[k] == t;
                assert(c.contains(t));
                assert(!other_true(kitten.values@, c, t));
            }
            return false;
        }
        proof {
            if c.contains(t) {
                let k = choose|k: int| 0 <= k < c.len() && c[k] == t;
                assert(has_t);
            }
        }
        r += 1;
    }
    true
}

/// Flips the value of external literal `elit` in the model of status 10,
/// when it is imported, not fixed at the root level, and `flip_literal`
/// succeeds; returns whether it flipped.
pub fn kitten_flip_literal(kitten: &mut Kitten, stats: &mut KittenStatistics, elit: u32) -> (r: bool)
    requires
        old(kitten).wf(),
        old(kitten).status == 10,
    ensures
        final(kitten).wf(),
        final(kitten).status == 10,
        final(kitten).lits == old(kitten).lits,
        final(kitten).import == old(kitten).import,
        final(kitten).evars == old(kitten).evars,
        kept_formula(*old(kitten), *final(kitten)),
        final(kitten).klauses@.len() == old(kitten).klauses@.len(),
        imported_lit(old(kitten), elit) is None ==> !r && *final(kitten) == *old(kitten),
        r ==> imported_lit(old(kitten), elit) is Some && {
            let l = imported_lit(old(kitten), elit)->Some_0;
            &&& old(kitten).values@[l] != 0
            &&& old(kitten).vars@[l / 2].level != 0
            &&& final(kitten).values@ == old(kitten).values@.update(l, (-old(kitten).values@[l]) as i8).update(
                spec_not(l as u32) as int, old(kitten).values@[l])
        },
        !r ==> final(kitten).values == old(kitten).values,
        !r && old(kitten).unassigned == 0 ==> match imported_lit(old(kitten), elit) {
            None => true,
            Some(l) => old(kitten).values@[l] == 0 || old(kitten).vars@[l / 2].level == 0
                || exists|c: int| #[trigger] stuck(final(kitten).klauses@, final(kitten).values@, true_of(old(kitten).values@, l as u32), c),
        },
        r ==> forall|c: int| 0 <= c < old(kitten).klauses@.len() && klause_satisfied(old(kitten).values@, old(kitten).klauses@[c].lits@)
            ==> klause_satisfied(final(kitten).values@, #[trigger] final(kitten).klauses@[c].lits@),
        r && is_model(old(kitten)) ==> is_model(final(kitten)),
{
    proof {
        lemma_kept_formula_same(*old(kitten), *kitten);
    }
    proof {
        reveal(Kitten::wf_core);
    }
    let eidx = (elit / 2) as usize;
    if eidx >= kitten.evars {
        return false;
    }
    let iidx = kitten.import[eidx];
    if iidx == 0 {
        return false;
    }
    proof {
        crate::literal::lemma_sign_bit(elit);
        assert((iidx - 1) < kitten.nvars());
    }
    let ilit = 2 * (iidx - 1) + (elit & 1);
    if kitten_fixed(kitten, elit) != 0 {
        return false;
    }
    let v = kitten.values[ilit as usize];
    let t = if v > 0 { ilit } else { ilit ^ 1 };
    proof {
        crate::literal::lemma_xor_one(ilit);
        assert(imported_lit(old(kitten), elit) == Some(ilit as int));
    }
    if v != 0 && !others_true(kitten, t) {
        proof {
            let k = *kitten;
            let r = choose|r: int| 0 <= r < k.klauses@.len() && #[trigger] k.klauses@[r].lits@.contains(t)
                && !other_true(k.values@, k.klauses@[r].lits@, t);
            assert(true_of(k.values@, ilit) == t);
            if k.unassigned == 0 {
                lemma_all_assigned(&k);
                let c = k.klauses@[r].lits@;
                assert(klause_ok(k.klauses@[r], r, k.lits as int, k.antecedents));
                assert forall|j: int| 0 <= j < c.len() && c[j] != t implies k.values@[#[trigger] c[j] as int] < 0 by {
                    assert((c[j] as int) < k.lits);
                }
                assert(stuck(k.klauses@, k.values@, t, r));
            }
        }
        return false;
    }
    let ghost k0 = *kitten;
    let r = flip_literal(kitten, stats, ilit);
    proof {
        if r {
            let k = *kitten;
            assert(t == ilit || t == spec_not(ilit));
            assert(k0.values@[t as int] > 0);
            assert(k0.values@[spec_not(t) as int] < 0) by {
                let w = (ilit / 2) as int;
                assert(k0.values@[2 * w + 1] == -k0.values@[2 * w]);
                crate::literal::lemma_xor_one(t);
            }
            assert forall|c: int| 0 <= c < k0.klauses@.len() && klause_satisfied(k0.values@, k0.klauses@[c].lits@)
                implies klause_satisfied(k.values@, #[trigger] k.klauses@[c].lits@) by {
                let c0 = k0.klauses@[c].lits@;
                let x0 = choose|j: int| 0 <= j < c0.len() && k0.values@[#[trigger] c0[j] as int] > 0;
                let y = if c0[x0] == t {
                    assert(c0.contains(t));
                    let j = choose|j: int| 0 <= j < c0.len() && c0[j] != t && k0.values@[#[trigger] c0[j] as int] > 0;
                    j
                } else {
                    x0
                };
                let l = c0[y];
                assert(l != t && k0.values@[l as int] > 0);
                assert(l != spec_not(t));
                assert(k.values@[l as int] == k0.values@[l as int]);
                assert(k.klauses@[c].lits@.contains(l));
                let i = choose|i: int| 0 <= i < k.klauses@[c].lits@.len() && k.klauses@[c].lits@[i] == l;
                assert(k.values@[k.klauses@[c].lits@[i] as int] > 0);
            }
            if is_model(&k0) {
                assert forall|c: int| 0 <= c < k.klauses@.len() implies klause_satisfied(k.values@, #[trigger] k.klauses@[c].lits@) by {
                    assert(klause_satisfied(k0.values@, k0.klauses@[c].lits@));
                }
            }
        }
    }
    r
}

/// The weight of klause `c` in the search for the clausal core, counting
/// its first `n` antecedents: 1 once it is in the core, and otherwise 3
/// plus the weights of the counted antecedents (which come before it).
pub open spec fn core_weight(ks: Seq<Klause>, c: int, n: int) -> int
    decreases c, n,
{
    if c < 0 || c >= ks.len() || ks[c].flags % 2 == 1 {
        1
    } else if n <= 0 || n > ks[c].antecedents@.len() {
        3
    } else {
        let d = ks[c].antecedents@[n - 1] as int;
        core_weight(ks, c, n - 1) + if 0 <= d < c {
            core_weight(ks, d, ks[d].antecedents@.len() as int)
        } else {
            1
        }
    }
}

/// The weight of klause `c` with all its antecedents.
pub open spec fn klause_weight(ks: Seq<Klause>, c: int) -> int {
    core_weight(ks, c, if 0 <= c < ks.len() { ks[c].antecedents@.len() as int } else { 0 })
}

/// The weight of the search stack: an `INVALID` on top stands with the
/// klause below it for 2, any other klause for its weight.
pub open spec fn stack_weight(ks: Seq<Klause>, s: Seq<u32>) -> int
    decreases s.len(),
{
    if s.len() == 0 {
        0
    } else if s.last() == INVALID {
        2 + if s.len() >= 2 { stack_weight(ks, s.drop_last().drop_last()) } else { 0 }
    } else {
        klause_weight(ks, s.last() as int) + stack_weight(ks, s.drop_last())
    }
}

/// `ks2` has the klauses of `ks` with more of them in the core.
pub open spec fn more_core(ks: Seq<Klause>, ks2: Seq<Klause>) -> bool {
    &&& ks2.len() == ks.len()
    &&& forall|c: int| 0 <= c < ks.len() ==> {
        &&& (#[trigger] ks2[c]).antecedents@ == ks[c].antecedents@
        &&& ks2[c].lits@ == ks[c].lits@
        &&& ks2[c].aux == ks[c].aux
        &&& ks2[c].flags / 2 == ks[c].flags / 2
        &&& (ks[c].flags % 2 == 1 ==> ks2[c].flags % 2 == 1)
    }
}

proof fn lemma_core_weight_pos(ks: Seq<Klause>, c: int, n: int)
    ensures
        core_weight(ks, c, n) >= 1,
    decreases c, n,
{
    if c < 0 || c >= ks.len() || ks[c].flags % 2 == 1 {
    } else if n <= 0 || n > ks[c].antecedents@.len() {
    } else {
        lemma_core_weight_pos(ks, c, n - 1);
        let d = ks[c].antecedents@[n - 1] as int;
        if 0 <= d < c {
            lemma_core_weight_pos(ks, d, ks[d].antecedents@.len() as int);
        }
    }
}

proof fn lemma_core_weight_mono(ks: Seq<Klause>, ks2: Seq<Klause>, c: int, n: int)
    requires
        more_core(ks, ks2),
    ensures
        core_weight(ks2, c, n) <= core_weight(ks, c, n),
    decreases c, n,
{
    lemma_core_weight_pos(ks, c, n);
    if c < 0 || c >= ks.len() || ks[c].flags % 2 == 1 {
    } else if ks2[c].flags % 2 == 1 {
    } else if n <= 0 || n > ks[c].antecedents@.len() {
    } else {
        assert(ks2[c].antecedents@ == ks[c].antecedents@);
        lemma_core_weight_mono(ks, ks2, c, n - 1);
        let d = ks[c].antecedents@[n - 1] as int;
        if 0 <= d < c {
            assert(ks2[d].antecedents@ == ks[d].antecedents@);
            lemma_core_weight_mono(ks, ks2, d, ks[d].antecedents@.len() as int);
        }
    }
}

proof fn lemma_stack_weight_nonneg(ks: Seq<Klause>, s: Seq<u32>)
    ensures
        stack_weight(ks, s) >= 0,
    decreases s.len(),
{
    if s.len() == 0 {
    } else if s.last() == INVALID {
        if s.len() >= 2 {
            lemma_stack_weight_nonneg(ks, s.drop_last().drop_last());
        }
    } else {
        let c = s.last() as int;
        lemma_core_weight_pos(ks, c, if 0 <= c < ks.len() { ks[c].antecedents@.len() as int } else { 0 });
        lemma_stack_weight_nonneg(ks, s.drop_last());
    }
}

proof fn lemma_stack_weight_mono(ks: Seq<Klause>, ks2: Seq<Klause>, s: Seq<u32>)
    requires
        more_core(ks, ks2),
    ensures
        stack_weight(ks2, s) <= stack_weight(ks, s),
    decreases s.len(),
{
    if s.len() == 0 {
    } else if s.last() == INVALID {
        if s.len() >= 2 {
            lemma_stack_weight_mono(ks, ks2, s.drop_last().drop_last());
        }
    } else {
        let c = s.last() as int;
        if 0 <= c < ks.len() {
            assert(ks2[c].antecedents@ == ks[c].antecedents@);
        }
        lemma_core_weight_mono(ks, ks2, c, if 0 <= c < ks.len() { ks[c].antecedents@.len() as int } else { 0 });
        lemma_stack_weight_mono(ks, ks2, s.drop_last());
    }
}

/// The antecedents of klause `c` that are not in the core, among its first
/// `n`, in order.
pub open spec fn open_antecedents(ks: Seq<Klause>, c: int, n: int) -> Seq<u32>
    decreases n,
{
    if n <= 0 {
        Seq::empty()
    } else {
        let d = ks[c].antecedents@[n - 1];
        open_antecedents(ks, c, n - 1) + if ks[d as int].flags % 2 == 1 { Seq::empty() } else { seq![d] }
    }
}

/// Pushing the open antecedents adds at most their weights.
proof fn lemma_push_antecedents(ks: Seq<Klause>, s: Seq<u32>, c: int, n: int)
    requires
        0 <= c < ks.len(),
        ks.len() <= MAX_KLAUSES,
        ks[c].flags % 2 == 0,
        0 <= n <= ks[c].antecedents@.len(),
        forall|a: int| 0 <= a < ks[c].antecedents@.len() ==> (#[trigger] ks[c].antecedents@[a] as int) < c,
    ensures
        stack_weight(ks, s + open_antecedents(ks, c, n)) + 3 <= stack_weight(ks, s) + core_weight(ks, c, n),
    decreases n,
{
    if n <= 0 {
        assert(s + open_antecedents(ks, c, n) =~= s);
        assert(core_weight(ks, c, n) == 3);
    } else {
        lemma_push_antecedents(ks, s, c, n - 1);
        let d = ks[c].antecedents@[n - 1];
        assert((d as int) < c);
        let t = s + open_antecedents(ks, c, n - 1);
        assert(core_weight(ks, c, n) == core_weight(ks, c, n - 1) + core_weight(ks, d as int, ks[d as int].antecedents@.len() as int));
        if ks[d as int].flags % 2 == 1 {
            assert(open_antecedents(ks, c, n) == open_antecedents(ks, c, n - 1) + Seq::<u32>::empty());
            assert(s + open_antecedents(ks, c, n) =~= t);
            lemma_core_weight_pos(ks, d as int, ks[d as int].antecedents@.len() as int);
        } else {
            assert(open_antecedents(ks, c, n) == open_antecedents(ks, c, n - 1) + seq![d]);
            assert(s + open_antecedents(ks, c, n) =~= t.push(d));
            assert(t.push(d).drop_last() =~= t);
            assert(t.push(d).last() == d);
            assert(d != INVALID);
            assert(stack_weight(ks, t.push(d)) == klause_weight(ks, d as int) + stack_weight(ks, t));
        }
    }
}

/// The open antecedents are klauses before `c`.
proof fn lemma_open_antecedents_below(ks: Seq<Klause>, c: int, n: int, a: int)
    requires
        0 <= c < ks.len(),
        ks.len() <= MAX_KLAUSES,
        0 <= n <= ks[c].antecedents@.len(),
        forall|x: int| 0 <= x < ks[c].antecedents@.len() ==> (#[trigger] ks[c].antecedents@[x] as int) < c,
        0 <= a < open_antecedents(ks, c, n).len(),
    ensures
        (open_antecedents(ks, c, n)[a] as int) < c,
        open_antecedents(ks, c, n)[a] != INVALID,
    decreases n,
{
    if n > 0 {
        let d = ks[c].antecedents@[n - 1];
        assert((d as int) < c);
        if a < open_antecedents(ks, c, n - 1).len() {
            lemma_open_antecedents_below(ks, c, n - 1, a);
            if ks[d as int].flags % 2 == 1 {
                assert(open_antecedents(ks, c, n) == open_antecedents(ks, c, n - 1) + Seq::<u32>::empty());
            } else {
                assert(open_antecedents(ks, c, n) == open_antecedents(ks, c, n - 1) + seq![d]);
            }
            assert(open_antecedents(ks, c, n)[a] == open_antecedents(ks, c, n - 1)[a]);
        } else {
            if ks[d as int].flags % 2 == 1 {
                assert(open_antecedents(ks, c, n) == open_antecedents(ks, c, n - 1) + Seq::<u32>::empty());
            } else {
                assert(open_antecedents(ks, c, n) == open_antecedents(ks, c, n - 1) + seq![d]);
            }
        }
    }
}

/// The watches stay well formed when klauses enter the core.
proof fn lemma_watches_more_core(watches: Seq<Vec<Katch>>, ks: Seq<Klause>, ks2: Seq<Klause>, lits: int)
    requires
        watches_ok(watches, ks, lits),
        more_core(ks, ks2),
    ensures
        watches_ok(watches, ks2, lits),
{
    assert forall|l: int| 0 <= l < watches.len() implies {
        &&& (l >= lits ==> (#[trigger] watches[l])@.len() == 0)
        &&& watch_list_ok(watches[l]@, l, ks2, lits)
    } by {
        let ws = watches[l]@;
        assert(watch_list_ok(ws, l, ks, lits));
        assert forall|j: int| 0 <= j < ws.len() implies katch_ok(#[trigger] ws[j], l, ks2, lits) by {
            assert(katch_ok(ws[j], l, ks, lits));
            let r = ws[j].spec_ref() as int;
            assert(ks2[r].lits@ == ks[r].lits@);
        }
    }
}

/// Antecedents are references of earlier klauses.
proof fn lemma_antecedents_in_range(ks: Seq<Klause>, lits: int, antecedents: bool)
    requires
        klauses_ok(ks, lits, antecedents),
    ensures
        forall|x: int, a: int| 0 <= x < ks.len() && 0 <= a < ks[x].antecedents@.len() ==> (#[trigger] ks[x].antecedents@[a] as int) < ks.len(),
{
    assert forall|x: int, a: int| 0 <= x < ks.len() && 0 <= a < ks[x].antecedents@.len() implies (#[trigger] ks[x].antecedents@[a] as int) < ks.len() by {
        assert(klause_ok(ks[x], x, lits, antecedents));
    }
}

/// Klause `x` is klause `a` or is reached from it through antecedents
/// (each antecedent comes before its klause).
pub open spec fn reaches(ks: Seq<Klause>, a: int, x: int) -> bool
    decreases a,
{
    a == x || (0 <= a < ks.len() && exists|i: int|
        0 <= i < ks[a].antecedents@.len() && 0 <= #[trigger] ks[a].antecedents@[i] < a
            && reaches(ks, ks[a].antecedents@[i] as int, x))
}

/// What an antecedent of a reached klause reaches is reached too.
proof fn lemma_reaches_antecedent(ks: Seq<Klause>, a: int, c: int, i: int)
    requires
        reaches(ks, a, c),
        0 <= c < ks.len(),
        0 <= i < ks[c].antecedents@.len(),
        0 <= ks[c].antecedents@[i] < c,
    ensures
        reaches(ks, a, ks[c].antecedents@[i] as int),
    decreases a,
{
    let d = ks[c].antecedents@[i] as int;
    if a == c {
        assert(reaches(ks, d, d));
    } else {
        let j = choose|j: int| 0 <= j < ks[a].antecedents@.len() && 0 <= #[trigger] ks[a].antecedents@[j] < a
            && reaches(ks, ks[a].antecedents@[j] as int, c);
        lemma_reaches_antecedent(ks, ks[a].antecedents@[j] as int, c, i);
    }
}

/// How many of the klauses `ids` are learned (for `learned`) or original
/// (otherwise).
pub open spec fn count_kind(ks: Seq<Klause>, ids: Seq<u32>, learned: bool) -> int
    decreases ids.len(),
{
    if ids.len() == 0 {
        0
    } else {
        count_kind(ks, ids.drop_last(), learned) + if (((ks[ids.last() as int].flags / 2) % 2 == 1) == learned) { 1int } else { 0int }
    }
}

/// Antecedent `a` of klause `x` is in the core.
pub open spec fn antecedent_in_core(ks: Seq<Klause>, x: int, a: int) -> bool {
    ks[ks[x].antecedents@[a] as int].flags % 2 == 1
}

/// Every klause put into the core since `k0` has all its antecedents in
/// the core.
pub open spec fn closed_since(k0: Seq<Klause>, ks: Seq<Klause>) -> bool {
    forall|x: int, a: int|
        0 <= x < ks.len() && ks[x].flags % 2 == 1 && k0[x].flags % 2 == 0 && 0 <= a < ks[x].antecedents@.len()
            ==> #[trigger] antecedent_in_core(ks, x, a)
}

/// Antecedent `a` of the klause at position `m` of the stack, whose
/// antecedents are being visited, is in the core or still above it.
spec fn awaited(ks: Seq<Klause>, stack: Seq<u32>, m: int, a: int) -> bool {
    let x = ks[stack[m] as int].antecedents@[a];
    ks[x as int].flags % 2 == 1 || stack.subrange(m + 2, stack.len() as int).contains(x)
}

/// Below every marker lies a klause whose antecedents are all in the core
/// or still on the stack above the marker.
spec fn markers_ok(ks: Seq<Klause>, stack: Seq<u32>) -> bool {
    forall|m: int, a: int|
        0 <= m && m + 1 < stack.len() && stack[m + 1] == INVALID && 0 <= a < ks[stack[m] as int].antecedents@.len()
            ==> #[trigger] awaited(ks, stack, m, a)
}

/// Popping a klause that is in the core keeps the markers' promises.
proof fn lemma_markers_pop_core(ks: Seq<Klause>, s: Seq<u32>)
    requires
        markers_ok(ks, s),
        s.len() > 0,
        s.last() != INVALID,
        ks[s.last() as int].flags % 2 == 1,
    ensures
        markers_ok(ks, s.drop_last()),
{
    let t = s.drop_last();
    assert forall|m: int, a: int|
        0 <= m && m + 1 < t.len() && t[m + 1] == INVALID && 0 <= a < ks[t[m] as int].antecedents@.len()
        implies #[trigger] awaited(ks, t, m, a) by {
        assert(t[m] == s[m] && t[m + 1] == s[m + 1]);
        assert(awaited(ks, s, m, a));
        let x = ks[s[m] as int].antecedents@[a];
        if ks[x as int].flags % 2 != 1 {
            let sub = s.subrange(m + 2, s.len() as int);
            let j = choose|j: int| 0 <= j < sub.len() && #[trigger] sub[j] == x;
            assert(s[m + 2 + j] == x);
            assert(m + 2 + j != s.len() - 1);
            assert(t.subrange(m + 2, t.len() as int)[j] == x);
        }
    }
}

/// Popping a marker and the klause below it, now in the core: the klause's
/// antecedents were all in the core, and the markers below keep their
/// promises in any klauses with more in the core.
proof fn lemma_markers_pop_done(ks: Seq<Klause>, ks2: Seq<Klause>, s: Seq<u32>)
    requires
        markers_ok(ks, s),
        s.len() >= 2,
        s.last() == INVALID,
        s[s.len() - 2] != INVALID,
        (s[s.len() - 2] as int) < ks.len(),
        more_core(ks, ks2),
        ks.len() <= MAX_KLAUSES,
        ks2[s[s.len() - 2] as int].flags % 2 == 1,
        forall|i: int| 0 <= i < s.len() ==> (#[trigger] s[i] == INVALID ==> i > 0 && s[i - 1] != INVALID)
            && (s[i] != INVALID ==> (s[i] as int) < ks.len()),
        forall|x: int, a: int| 0 <= x < ks.len() && 0 <= a < ks[x].antecedents@.len() ==> (#[trigger] ks[x].antecedents@[a] as int) < ks.len(),
    ensures
        forall|a: int| 0 <= a < ks[s[s.len() - 2] as int].antecedents@.len() ==> #[trigger] antecedent_in_core(ks, s[s.len() - 2] as int, a),
        markers_ok(ks2, s.drop_last().drop_last()),
{
    let n = s.len() as int;
    let d = s[n - 2] as int;
    assert forall|a: int| 0 <= a < ks[d].antecedents@.len() implies #[trigger] antecedent_in_core(ks, d, a) by {
        assert(awaited(ks, s, n - 2, a));
        assert(s.subrange(n, n) =~= Seq::<u32>::empty());
    }
    let t = s.drop_last().drop_last();
    assert forall|m: int, a: int|
        0 <= m && m + 1 < t.len() && t[m + 1] == INVALID && 0 <= a < ks2[t[m] as int].antecedents@.len()
        implies #[trigger] awaited(ks2, t, m, a) by {
        assert(t[m] == s[m] && t[m + 1] == s[m + 1]);
        assert(s[m + 1] == INVALID);
        assert(s[m] != INVALID);
        assert((s[m] as int) < ks.len());
        assert(ks2[s[m] as int].antecedents@ == ks[s[m] as int].antecedents@);
        assert(awaited(ks, s, m, a));
        let x = ks[s[m] as int].antecedents@[a];
        assert((x as int) < ks.len());
        if ks2[x as int].flags % 2 != 1 {
            assert(ks[x as int].flags % 2 != 1);
            let sub = s.subrange(m + 2, s.len() as int);
            let j = choose|j: int| 0 <= j < sub.len() && #[trigger] sub[j] == x;
            assert(s[m + 2 + j] == x);
            assert(m + 2 + j != n - 2 && m + 2 + j != n - 1);
            assert(t.subrange(m + 2, t.len() as int)[j] == x);
        }
    }
}

/// Every antecedent among the first `n` is in the core or among the open
/// ones.
proof fn lemma_open_antecedents_cover(ks: Seq<Klause>, c: int, n: int, a: int)
    requires
        0 <= c < ks.len(),
        0 <= a < n <= ks[c].antecedents@.len(),
    ensures
        ks[ks[c].antecedents@[a] as int].flags % 2 == 1 || open_antecedents(ks, c, n).contains(ks[c].antecedents@[a]),
    decreases n,
{
    let d = ks[c].antecedents@[n - 1];
    let tail = if ks[d as int].flags % 2 == 1 { Seq::<u32>::empty() } else { seq![d] };
    assert(open_antecedents(ks, c, n) == open_antecedents(ks, c, n - 1) + tail);
    if a < n - 1 {
        lemma_open_antecedents_cover(ks, c, n - 1, a);
        if open_antecedents(ks, c, n - 1).contains(ks[c].antecedents@[a]) {
            let prev = open_antecedents(ks, c, n - 1);
            let j = choose|j: int| 0 <= j < prev.len() && #[trigger] prev[j] == ks[c].antecedents@[a];
            assert(open_antecedents(ks, c, n)[j] == ks[c].antecedents@[a]);
        }
    } else if ks[d as int].flags % 2 != 1 {
        assert(open_antecedents(ks, c, n)[open_antecedents(ks, c, n - 1).len() as int] == d);
    }
}

/// Replacing the top klause by itself, a marker and its open antecedents
/// keeps the markers' promises, the new marker's included.
proof fn lemma_markers_push(ks: Seq<Klause>, s: Seq<u32>, c: int)
    requires
        markers_ok(ks, s),
        s.len() > 0,
        s.last() as int == c,
        0 <= c < ks.len(),
        ks.len() <= MAX_KLAUSES,
        forall|a: int| 0 <= a < ks[c].antecedents@.len() ==> (#[trigger] ks[c].antecedents@[a] as int) < c,
    ensures
        markers_ok(ks, s + seq![INVALID] + open_antecedents(ks, c, ks[c].antecedents@.len() as int)),
{
    let len = ks[c].antecedents@.len() as int;
    let o = open_antecedents(ks, c, len);
    let t = s + seq![INVALID] + o;
    let n = s.len() as int;
    assert forall|i: int| 0 <= i < o.len() implies (#[trigger] o[i] as int) < c by {
        lemma_open_antecedents_below(ks, c, len, i);
    }
    assert forall|m: int, a: int|
        0 <= m && m + 1 < t.len() && t[m + 1] == INVALID && 0 <= a < ks[t[m] as int].antecedents@.len()
        implies #[trigger] awaited(ks, t, m, a) by {
        if m + 1 > n {
            assert(t[m + 1] == o[m + 1 - n - 1]);
        } else if m + 1 == n {
            assert(t[m] == c);
            lemma_open_antecedents_cover(ks, c, len, a);
            let x = ks[c].antecedents@[a];
            if ks[x as int].flags % 2 != 1 {
                let j = choose|j: int| 0 <= j < o.len() && #[trigger] o[j] == x;
                assert(t.subrange(m + 2, t.len() as int)[j] == x);
            }
        } else {
            assert(t[m] == s[m] && t[m + 1] == s[m + 1]);
            assert(awaited(ks, s, m, a));
            let x = ks[s[m] as int].antecedents@[a];
            if ks[x as int].flags % 2 != 1 {
                let sub = s.subrange(m + 2, s.len() as int);
            let j = choose|j: int| 0 <= j < sub.len() && #[trigger] sub[j] == x;
                assert(t.subrange(m + 2, t.len() as int)[j] == x);
            }
        }
    }
}

/// Computes the clausal core after unsatisfiability was proved with
/// antecedents tracked: from the klause recording the inconsistency (or
/// else the failing one), every klause reached through antecedents is put
/// into the core, each after its antecedents. Returns the numbers of
/// original and of learned klauses put into the core; the status becomes 21.
#[verifier::rlimit(100)]
pub fn kitten_compute_clausal_core(kitten: &mut Kitten) -> (r: (u32, u64))
    requires
        old(kitten).wf(),
        old(kitten).status == 20,
        old(kitten).antecedents,
    ensures
        final(kitten).wf(),
        final(kitten).status == 21,
        more_core(old(kitten).klauses@, final(kitten).klauses@),
        closed_since(old(kitten).klauses@, final(kitten).klauses@),
        forall|x: int| 0 <= x < final(kitten).klauses@.len() && #[trigger] final(kitten).klauses@[x].flags % 2 == 1
            && old(kitten).klauses@[x].flags % 2 == 0 ==> reaches(old(kitten).klauses@,
                (if old(kitten).inconsistent != INVALID { old(kitten).inconsistent } else { old(kitten).failing }) as int, x),
        (forall|x: int| 0 <= x < old(kitten).klauses@.len() ==> #[trigger] old(kitten).klauses@[x].flags % 2 == 0) ==>
            forall|x: int, a: int| 0 <= x < final(kitten).klauses@.len() && final(kitten).klauses@[x].flags % 2 == 1
                && 0 <= a < final(kitten).klauses@[x].antecedents@.len() ==> #[trigger] antecedent_in_core(final(kitten).klauses@, x, a),
        final(kitten).core@.len() >= old(kitten).core@.len(),
        final(kitten).core@.subrange(0, old(kitten).core@.len() as int) == old(kitten).core@,
        r.0 as int + r.1 as int == final(kitten).core@.len() - old(kitten).core@.len(),
        r.0 as int == count_kind(old(kitten).klauses@, final(kitten).core@.subrange(old(kitten).core@.len() as int, final(kitten).core@.len() as int), false),
        r.1 as int == count_kind(old(kitten).klauses@, final(kitten).core@.subrange(old(kitten).core@.len() as int, final(kitten).core@.len() as int), true),
        forall|i: int| old(kitten).core@.len() <= i < final(kitten).core@.len() ==>
            final(kitten).klauses@[#[trigger] final(kitten).core@[i] as int].flags % 2 == 1,
        old(kitten).inconsistent != INVALID ==> final(kitten).klauses@[old(kitten).inconsistent as int].flags % 2 == 1,
        old(kitten).inconsistent == INVALID && old(kitten).failing != INVALID
            ==> final(kitten).klauses@[old(kitten).failing as int].flags % 2 == 1,
        *final(kitten) == (Kitten { klauses: final(kitten).klauses, core: final(kitten).core, status: 21, ..*old(kitten) }),
{
    proof {
        reveal(Kitten::wf_core);
        lemma_wf_sizes(kitten);
    }
    let ghost k0 = *kitten;
    let mut original: u32 = 0;
    let mut learned: u64 = 0;
    let mut root = kitten.inconsistent;
    if root == INVALID {
        root = kitten.failing;
    }
    if root != INVALID {
        let mut stack: Vec<u32> = Vec::new();
        stack.push(root);
        proof {
            assert(stack@[0] == root);
        }
        while stack.len() > 0
            invariant
                k0.wf_core(),
                k0 == *old(kitten),
                *kitten == (Kitten { klauses: kitten.klauses, core: kitten.core, ..k0 }),
                more_core(k0.klauses@, kitten.klauses@),
                klauses_ok(kitten.klauses@, kitten.lits as int, kitten.antecedents),
                markers_ok(kitten.klauses@, stack@),
                closed_since(k0.klauses@, kitten.klauses@),
                forall|j: int| 0 <= j < stack@.len() && #[trigger] stack@[j] != INVALID ==> reaches(k0.klauses@, root as int, stack@[j] as int),
                forall|x: int| 0 <= x < kitten.klauses@.len() && #[trigger] kitten.klauses@[x].flags % 2 == 1
                    && k0.klauses@[x].flags % 2 == 0 ==> reaches(k0.klauses@, root as int, x),
                (root as int) < kitten.klauses@.len(),
                root == (if k0.inconsistent != INVALID { k0.inconsistent } else { k0.failing }),
                kitten.klauses@[root as int].flags % 2 == 1 || stack@.contains(root),
                forall|i: int| 0 <= i < stack@.len() ==> (#[trigger] stack@[i] == INVALID ==> i > 0 && stack@[i - 1] != INVALID)
                    && (stack@[i] != INVALID ==> (stack@[i] as int) < kitten.klauses@.len()),
                kitten.core@.len() >= k0.core@.len(),
                kitten.core@.subrange(0, k0.core@.len() as int) == k0.core@,
                original as int + learned as int == kitten.core@.len() - k0.core@.len(),
                original as int == count_kind(k0.klauses@, kitten.core@.subrange(k0.core@.len() as int, kitten.core@.len() as int), false),
                learned as int == count_kind(k0.klauses@, kitten.core@.subrange(k0.core@.len() as int, kitten.core@.len() as int), true),
                forall|i: int| 0 <= i < kitten.core@.len() ==> (#[trigger] kitten.core@[i] as int) < kitten.klauses@.len(),
                forall|i: int| k0.core@.len() <= i < kitten.core@.len() ==>
                    kitten.klauses@[#[trigger] kitten.core@[i] as int].flags % 2 == 1,
                forall|i: int, j: int| k0.core@.len() <= i < j < kitten.core@.len() ==> #[trigger] kitten.core@[i] != #[trigger] kitten.core@[j],
            decreases stack_weight(kitten.klauses@, stack@),
        {
            let ghost ks = kitten.klauses@;
            let ghost s0 = stack@;
            proof {
                lemma_stack_weight_nonneg(ks, s0);
            }
            let n = stack.len();
            let c = stack[n - 1];
            let _ = stack.pop();
            proof {
                assert(stack@ == s0.drop_last());
            }
            if c == INVALID {
                let m = stack.len();
                let d = stack[m - 1];
                let _ = stack.pop();
                proof {
                    assert(s0[n - 1] == INVALID);
                    assert(stack@ == s0.drop_last().drop_last());
                    assert(stack_weight(ks, s0) == 2 + stack_weight(ks, stack@));
                }
                if !kitten.is_core_klause(d) {
                    let ghost kb = *kitten;
                    kitten.core.push(d);
                    proof {
                        assert(klause_ok(kitten.klauses@[d as int], d as int, kitten.lits as int, kitten.antecedents));
                    }
                    kitten.set_core_klause(d);
                    let is_learned = kitten.is_learned_klause(d);
                    proof {
                        let k = *kitten;
                        assert(s0[n - 1] == INVALID);
                        lemma_antecedents_in_range(ks, k.lits as int, k.antecedents);
                        assert(more_core(ks, k.klauses@)) by {
                            assert forall|x: int| 0 <= x < ks.len() implies {
                                &&& (#[trigger] k.klauses@[x]).antecedents@ == ks[x].antecedents@
                                &&& k.klauses@[x].lits@ == ks[x].lits@
                                &&& k.klauses@[x].aux == ks[x].aux
                                &&& k.klauses@[x].flags / 2 == ks[x].flags / 2
                                &&& (ks[x].flags % 2 == 1 ==> k.klauses@[x].flags % 2 == 1)
                            } by {
                                assert(kb.klauses@[x] == ks[x]);
                            }
                        }
                        lemma_markers_pop_done(ks, k.klauses@, s0);
                        assert(stack@ == s0.drop_last().drop_last());
                        assert(closed_since(k0.klauses@, k.klauses@)) by {
                            assert forall|x: int, a: int|
                                0 <= x < k.klauses@.len() && k.klauses@[x].flags % 2 == 1 && k0.klauses@[x].flags % 2 == 0
                                    && 0 <= a < k.klauses@[x].antecedents@.len()
                                implies #[trigger] antecedent_in_core(k.klauses@, x, a) by {
                                let y = ks[x].antecedents@[a];
                                assert(k.klauses@[x].antecedents@ == ks[x].antecedents@);
                                assert((y as int) < ks.len());
                                if x == d as int {
                                    assert(antecedent_in_core(ks, d as int, a));
                                } else {
                                    assert(k.klauses@[x] == ks[x]);
                                    assert(antecedent_in_core(ks, x, a));
                                }
                                assert(ks[y as int].flags % 2 == 1);
                            }
                        }
                        let nc = k.core@.subrange(k0.core@.len() as int, k.core@.len() as int);
                        assert forall|i: int| k0.core@.len() <= i < k.core@.len() implies
                            k.klauses@[#[trigger] k.core@[i] as int].flags % 2 == 1 by {
                            if i < kb.core@.len() {
                                assert(k.core@[i] == kb.core@[i]);
                                if kb.core@[i] != d {
                                    assert(k.klauses@[kb.core@[i] as int] == kb.klauses@[kb.core@[i] as int]);
                                }
                            }
                        }
                        assert forall|i: int, j: int| k0.core@.len() <= i < j < k.core@.len() implies #[trigger] k.core@[i] != #[trigger] k.core@[j] by {
                            if j == k.core@.len() - 1 {
                                assert(kb.klauses@[kb.core@[i] as int].flags % 2 == 1);
                            } else {
                                assert(k.core@[i] == kb.core@[i] && k.core@[j] == kb.core@[j]);
                            }
                        }
                        let t = Seq::new(nc.len(), |i: int| nc[i] as int);
                        assert forall|a: int, b: int| 0 <= a < t.len() && 0 <= b < t.len() && a != b implies t[a] != t[b] by {
                            if a < b {
                                assert(k.core@[k0.core@.len() + a] != k.core@[k0.core@.len() + b]);
                            } else {
                                assert(k.core@[k0.core@.len() + b] != k.core@[k0.core@.len() + a]);
                            }
                        }
                        assert forall|a: int| 0 <= a < t.len() implies 0 <= #[trigger] t[a] < k.klauses@.len() by {
                            assert(t[a] == k.core@[k0.core@.len() + a] as int);
                        }
                        crate::seqs::lemma_distinct_bounded(t, k.klauses@.len() as int);
                        assert(more_core(kb.klauses@, k.klauses@));
                        assert(more_core(k0.klauses@, k.klauses@)) by {
                            assert forall|x: int| 0 <= x < k0.klauses@.len() implies {
                                &&& (#[trigger] k.klauses@[x]).antecedents@ == k0.klauses@[x].antecedents@
                                &&& k.klauses@[x].lits@ == k0.klauses@[x].lits@
                                &&& k.klauses@[x].aux == k0.klauses@[x].aux
                                &&& k.klauses@[x].flags / 2 == k0.klauses@[x].flags / 2
                                &&& (k0.klauses@[x].flags % 2 == 1 ==> k.klauses@[x].flags % 2 == 1)
                            } by {
                                assert(kb.klauses@[x] == kb.klauses@[x]);
                            }
                        }
                        assert(klauses_ok(k.klauses@, k.lits as int, k.antecedents)) by {
                            assert forall|x: int| 0 <= x < k.klauses@.len() implies klause_ok(#[trigger] k.klauses@[x], x, k.lits as int, k.antecedents) by {
                                assert(klause_ok(kb.klauses@[x], x, kb.lits as int, kb.antecedents));
                            }
                        }
                        lemma_stack_weight_mono(ks, k.klauses@, stack@);
                        assert forall|i: int| 0 <= i < k.core@.len() implies (#[trigger] k.core@[i] as int) < k.klauses@.len() by {
                            if i < kb.core@.len() {
                                assert(k.core@[i] == kb.core@[i]);
                            }
                        }
                        assert(k.core@.subrange(0, k0.core@.len() as int) =~= kb.core@.subrange(0, k0.core@.len() as int));
                        if !stack@.contains(root) && d != root {
                            assert(s0.contains(root) || kb.klauses@[root as int].flags % 2 == 1);
                            if s0.contains(root) {
                                let j = choose|j: int| 0 <= j < s0.len() && s0[j] == root;
                                assert(j < n - 2);
                                assert(stack@[j] == root);
                            }
                        }
                    }
                    let ghost nc0 = kb.core@.subrange(k0.core@.len() as int, kb.core@.len() as int);
                    if is_learned {
                        learned = learned + 1;
                    } else {
                        original = original + 1;
                    }
                    proof {
                        let nc = kitten.core@.subrange(k0.core@.len() as int, kitten.core@.len() as int);
                        assert(nc.drop_last() =~= nc0);
                        assert(nc.last() == d);
                        assert(kitten.klauses@[d as int].flags / 2 == k0.klauses@[d as int].flags / 2);
                    }
                } else {
                    proof {
                        assert(s0[n - 1] == INVALID);
                        lemma_antecedents_in_range(ks, kitten.lits as int, kitten.antecedents);
                        lemma_markers_pop_done(ks, ks, s0);
                        assert(stack@ == s0.drop_last().drop_last());
                        if !stack@.contains(root) && d != root && kitten.klauses@[root as int].flags % 2 != 1 {
                            let j = choose|j: int| 0 <= j < s0.len() && s0[j] == root;
                            assert(j < n - 2);
                            assert(stack@[j] == root);
                        }
                    }
                }
            } else {
                proof {
                    assert(stack_weight(ks, s0) == klause_weight(ks, c as int) + stack_weight(ks, stack@));
                }
                if kitten.is_core_klause(c) {
                    proof {
                        lemma_markers_pop_core(ks, s0);
                        if !stack@.contains(root) && c != root && kitten.klauses@[root as int].flags % 2 != 1 {
                            let j = choose|j: int| 0 <= j < s0.len() && s0[j] == root;
                            assert(j != n - 1);
                            assert(stack@[j] == root);
                        }
                        assert(klause_weight(ks, c as int) == 1);
                        lemma_stack_weight_nonneg(ks, stack@);
                    }
                    continue;
                }
                proof {
                    if !stack@.contains(root) && c != root && kitten.klauses@[root as int].flags % 2 != 1 {
                        let j = choose|j: int| 0 <= j < s0.len() && s0[j] == root;
                        assert(j != n - 1);
                        assert(stack@[j] == root);
                    }
                    assert(klause_ok(kitten.klauses@[c as int], c as int, kitten.lits as int, kitten.antecedents));
                }
                let ghost rest = stack@;
                stack.push(c);
                stack.push(INVALID);
                let ghost base = stack@;
                proof {
                    assert(base.drop_last().drop_last() == rest);
                    assert(stack_weight(ks, base) == 2 + stack_weight(ks, rest));
                    assert(base[base.len() - 2] == c);
                }
                let mut aux: u32 = 0;
                if kitten.is_learned_klause(c) {
                    aux = kitten.k_aux(c);
                }
                let mut i: u32 = 0;
                while i < aux
                    invariant
                        *kitten == (Kitten { ..*kitten }),
                        kitten.klauses@ == ks,
                        (c as int) < ks.len(),
                        ks[c as int].flags % 2 == 0,
                        aux == 0 || aux as int == ks[c as int].antecedents@.len(),
                        klause_ok(ks[c as int], c as int, kitten.lits as int, kitten.antecedents),
                        i <= aux,
                        stack@ == base + open_antecedents(ks, c as int, i as int),
                        forall|j: int| 0 <= j < stack@.len() && #[trigger] stack@[j] != INVALID ==> reaches(k0.klauses@, root as int, stack@[j] as int),
                        reaches(k0.klauses@, root as int, c as int),
                        more_core(k0.klauses@, ks),
                    decreases aux - i,
                {
                    let d = kitten.k_antecedent(c, i);
                    proof {
                        assert((d as int) < c);
                    }
                    let ghost before = stack@;
                    proof {
                        assert(k0.klauses@[c as int].antecedents@ == ks[c as int].antecedents@);
                        lemma_reaches_antecedent(k0.klauses@, root as int, c as int, i as int);
                    }
                    if !kitten.is_core_klause(d) {
                        stack.push(d);
                    }
                    i += 1;
                    proof {
                        assert(open_antecedents(ks, c as int, i as int) == open_antecedents(ks, c as int, i - 1) + if ks[d as int].flags % 2 == 1 { Seq::<u32>::empty() } else { seq![d] });
                        assert(stack@ =~= base + open_antecedents(ks, c as int, i as int));
                    }
                }
                proof {
                    let k = *kitten;
                    lemma_push_antecedents(ks, base, c as int, aux as int);
                    assert(aux as int == ks[c as int].antecedents@.len()) by {
                        if ks[c as int].flags < 2 {
                            assert(aux == 0);
                        }
                    }
                    assert(base =~= s0 + seq![INVALID]);
                    lemma_markers_push(ks, s0, c as int);
                    if aux == 0 {
                        lemma_core_weight_pos(ks, c as int, ks[c as int].antecedents@.len() as int);
                        assert(open_antecedents(ks, c as int, 0) =~= Seq::<u32>::empty());
                        assert(stack@ =~= base);
                        if ks[c as int].antecedents@.len() > 0 {
                            assert(ks[c as int].flags >= 2);
                        }
                    }
                    assert(stack@.contains(c)) by {
                        assert(stack@[base.len() - 2] == c);
                    }
                    assert forall|j: int| 0 <= j < stack@.len() implies (#[trigger] stack@[j] == INVALID ==> j > 0 && stack@[j - 1] != INVALID)
                        && (stack@[j] != INVALID ==> (stack@[j] as int) < k.klauses@.len()) by {
                        if j < rest.len() {
                            assert(stack@[j] == s0[j]);
                            assert(s0[j] == INVALID ==> s0[j - 1] != INVALID);
                            if j > 0 {
                                assert(stack@[j - 1] == s0[j - 1]);
                            }
                        } else if j == rest.len() {
                        } else if j == rest.len() + 1 {
                        } else {
                            let a = j - base.len();
                            let oa = open_antecedents(ks, c as int, aux as int);
                            assert(stack@[j] == oa[a]);
                            lemma_open_antecedents_below(ks, c as int, aux as int, a);
                        }
                    }
                    if !stack@.contains(root) && k.klauses@[root as int].flags % 2 != 1 {
                        assert(rest.contains(root) || c == root);
                        if rest.contains(root) {
                            let j = choose|j: int| 0 <= j < rest.len() && rest[j] == root;
                            assert(stack@[j] == root);
                        }
                    }
                }
            }
            proof {
                lemma_stack_weight_nonneg(kitten.klauses@, stack@);
            }
        }
    }
    kitten.status = 21;
    proof {
        let k = *kitten;
        lemma_watches_more_core(k0.watches@, k0.klauses@, k.klauses@, k.lits as int);
        assert forall|i: int| 0 <= i < k.units@.len() implies (#[trigger] k.units@[i] as int) < k.klauses@.len()
            && k.klauses@[k.units@[i] as int].lits@.len() == 1 by {
            assert(k0.klauses@[k0.units@[i] as int].lits@.len() == 1);
        }
        assert(k.wf_core());
    }
    (original, learned)
}

/// The identifiers of the original klauses in the core, among the first
/// `n` klauses, in klause order.
pub open spec fn core_ids(ks: Seq<Klause>, n: int) -> Seq<u32>
    decreases n,
{
    if n <= 0 {
        Seq::empty()
    } else {
        core_ids(ks, n - 1) + if ks[n - 1].flags % 2 == 1 && (ks[n - 1].flags / 2) % 2 == 0 {
            seq![ks[n - 1].aux]
        } else {
            Seq::empty()
        }
    }
}

/// The external literal of internal literal `l`.
pub open spec fn exported(k: &Kitten, l: u32) -> u32 {
    (2 * k.export_@[(l / 2) as int] + l % 2) as u32
}

/// The identifiers of the original klauses in the core (status 21), in
/// klause order.
pub fn kitten_traverse_core_ids(kitten: &Kitten) -> (r: Vec<u32>)
    requires
        kitten.wf(),
        kitten.status == 21,
    ensures
        r@ == core_ids(kitten.klauses@, kitten.end_original_ref as int),
{
    proof {
        lemma_wf_sizes(kitten);
    }
    let mut ids: Vec<u32> = Vec::new();
    let end = kitten.end_original_ref;
    let mut c: usize = 0;
    while c != end
        invariant
            kitten.wf(),
            end == kitten.end_original_ref,
            end <= kitten.klauses@.len() < MAX_KLAUSES,
            c <= end,
            ids@ == core_ids(kitten.klauses@, c as int),
        decreases end - c,
    {
        let next = kitten.next_klause(c as u32) as usize;
        if !kitten.is_learned_klause(c as u32) && kitten.is_core_klause(c as u32) {
            ids.push(kitten.k_aux(c as u32));
        }
        proof {
            assert(core_ids(kitten.klauses@, c + 1) == core_ids(kitten.klauses@, c as int) + if kitten.klauses@[c as int].flags % 2 == 1
                && (kitten.klauses@[c as int].flags / 2) % 2 == 0 {
                seq![kitten.klauses@[c as int].aux]
            } else {
                Seq::<u32>::empty()
            });
            assert(ids@ =~= core_ids(kitten.klauses@, c + 1));
        }
        c = next;
    }
    ids
}

/// The klauses of the core (status 21), in the order they entered it,
/// each as whether it was learned and its literals as external literals.
pub fn kitten_traverse_core_clauses(kitten: &Kitten) -> (r: Vec<(bool, Vec<u32>)>)
    requires
        kitten.wf(),
        kitten.status == 21,
    ensures
        r@.len() == kitten.core@.len(),
        forall|i: int| 0 <= i < r@.len() ==> {
            let c = kitten.klauses@[kitten.core@[i] as int];
            &&& (#[trigger] r@[i]).0 == ((c.flags / 2) % 2 == 1)
            &&& r@[i].1@ == c.lits@.map_values(|l: u32| exported(kitten, l))
        },
{
    proof {
        reveal(Kitten::wf_core);
    }
    let mut res: Vec<(bool, Vec<u32>)> = Vec::new();
    let mut i: usize = 0;
    while i < kitten.core.len()
        invariant
            kitten.wf(),
            kitten.tables_ok(),
            forall|j: int| 0 <= j < kitten.core@.len() ==> (#[trigger] kitten.core@[j] as int) < kitten.klauses@.len(),
            i <= kitten.core@.len(),
            res@.len() == i,
            forall|j: int| 0 <= j < i ==> {
                let c = kitten.klauses@[kitten.core@[j] as int];
                &&& (#[trigger] res@[j]).0 == ((c.flags / 2) % 2 == 1)
                &&& res@[j].1@ == c.lits@.map_values(|l: u32| exported(kitten, l))
            },
        decreases kitten.core@.len() - i,
    {
        let r = kitten.core[i];
        let learned = kitten.is_learned_klause(r);
        proof {
            assert(klause_ok(kitten.klauses@[r as int], r as int, kitten.lits as int, kitten.antecedents));
        }
        let size = kitten.klauses[r as usize].lits.len();
        let mut eclause: Vec<u32> = Vec::new();
        let mut j: usize = 0;
        while j < size
            invariant
                kitten.wf(),
                (r as int) < kitten.klauses@.len(),
                size == kitten.klauses@[r as int].lits@.len(),
                lits_below(kitten.klauses@[r as int].lits@, kitten.lits as int),
                j <= size,
                eclause@ == kitten.klauses@[r as int].lits@.take(j as int).map_values(|l: u32| exported(kitten, l)),
            decreases size - j,
        {
            let ilit = kitten.klauses[r as usize].lits[j];
            let elit = export_literal(kitten, ilit);
            eclause.push(elit);
            proof {
                let c = kitten.klauses@[r as int].lits@;
                assert(c.take(j + 1) == c.take(j as int).push(ilit));
                assert(eclause@ =~= c.take(j + 1).map_values(|l: u32| exported(kitten, l)));
            }
            j += 1;
        }
        proof {
            let c = kitten.klauses@[r as int].lits@;
            assert(c.take(size as int) == c);
        }
        res.push((learned, eclause));
        i += 1;
    }
    res
}

/// Whether klause `c` is an original klause in the core.
pub open spec fn original_core(c: Klause) -> bool {
    c.flags % 2 == 1 && (c.flags / 2) % 2 == 0
}

/// The literals of the original klauses in the core among the first `n`,
/// in klause order.
pub open spec fn core_lits(ks: Seq<Klause>, n: int) -> Seq<Seq<u32>>
    decreases n,
{
    if n <= 0 {
        Seq::empty()
    } else {
        core_lits(ks, n - 1) + if original_core(ks[n - 1]) { seq![ks[n - 1].lits@] } else { Seq::empty() }
    }
}

proof fn lemma_core_lits_len(ks: Seq<Klause>, n: int)
    ensures
        core_lits(ks, n).len() == core_ids(ks, n).len(),
        core_lits(ks, n).len() <= if n < 0 { 0 } else { n },
    decreases n,
{
    if n > 0 {
        lemma_core_lits_len(ks, n - 1);
    }
}

proof fn lemma_count_all(values: Seq<i8>, n: int)
    requires
        n >= 0,
        forall|v: int| 0 <= v < n ==> #[trigger] values[2 * v] == 0,
    ensures
        count_unassigned(values, n) == n,
    decreases n,
{
    if n > 0 {
        lemma_count_all(values, n - 1);
    }
}

/// Unassigns every variable, with the search cursor at the end of the
/// queue, and empties the watch lists.
#[verifier::rlimit(60)]
fn clear_assignment(kitten: &mut Kitten)
    requires
        old(kitten).wf(),
    ensures
        final(kitten).wf(),
        final(kitten).trail@.len() == 0,
        final(kitten).level == 0,
        final(kitten).propagated == 0,
        final(kitten).unassigned == final(kitten).nvars(),
        forall|l: int| 0 <= l < final(kitten).values@.len() ==> #[trigger] final(kitten).values@[l] == 0,
        forall|l: int| 0 <= l < final(kitten).watches@.len() ==> (#[trigger] final(kitten).watches@[l])@.len() == 0,
        *final(kitten) == (Kitten {
            trail: final(kitten).trail,
            unassigned: final(kitten).unassigned,
            propagated: 0,
            level: 0,
            queue: final(kitten).queue,
            values: final(kitten).values,
            watches: final(kitten).watches,
            ..*old(kitten)
        }),
{
    proof {
        reveal(Kitten::wf_core);
        lemma_wf_sizes(kitten);
    }
    let ghost k0 = *kitten;
    kitten.trail.clear();
    kitten.unassigned = (kitten.lits / 2) as u32;
    kitten.propagated = 0;
    kitten.level = 0;
    let last = kitten.queue.last;
    update_search(&mut kitten.queue, last);
    let ghost kb = *kitten;
    let mut i: usize = 0;
    while i < kitten.lits
        invariant
            *kitten == (Kitten { values: kitten.values, ..kb }),
            i <= kitten.lits,
            kitten.lits == k0.lits,
            kitten.values@.len() == k0.values@.len(),
            k0.lits <= k0.values@.len(),
            forall|l: int| 0 <= l < i ==> #[trigger] kitten.values@[l] == 0,
            forall|l: int| k0.lits <= l < kitten.values@.len() ==> #[trigger] kitten.values@[l] == 0,
            values_ok(k0.values@, k0.lits as int),
        decreases kitten.lits - i,
    {
        kitten.values.set(i, 0);
        i += 1;
    }
    let ghost kc = *kitten;
    let mut l: usize = 0;
    while l < kitten.lits
        invariant
            *kitten == (Kitten { watches: kitten.watches, ..kc }),
            l <= kitten.lits,
            kitten.lits == k0.lits,
            kitten.watches@.len() == k0.watches@.len(),
            k0.lits <= k0.watches@.len(),
            forall|m: int| 0 <= m < l ==> (#[trigger] kitten.watches@[m])@.len() == 0,
            forall|m: int| k0.lits <= m < kitten.watches@.len() ==> (#[trigger] kitten.watches@[m])@.len() == 0,
            watches_ok(k0.watches@, k0.klauses@, k0.lits as int),
        decreases kitten.lits - l,
    {
        kitten.watches[l].clear();
        l += 1;
    }
    proof {
        let k = *kitten;
        lemma_count_all(k.values@, k.nvars());
        lemma_queue_search_frame(k.links@, k0.queue, k.queue, k.order@);
        lemma_linked_empty(k.links@, k0.queue, k.order@);
        if k.order@.len() > 0 {
            lemma_linked_at(k.links@, k0.queue, k.order@, k.order@.len() - 1);
        }
        assert forall|m: int| 0 <= m < k.watches@.len() implies (#[trigger] k.watches@[m])@.len() == 0 by {
            if m >= k0.lits {
                assert(watches_ok(k0.watches@, k0.klauses@, k0.lits as int));
            }
        }
        assert(watches_ok(k.watches@, k.klauses@, k.lits as int));
        assert(k.wf_core());
    }
}

/// Shrinks the klauses to the original klauses of the clausal core (status
/// 21), in order, out of the core again, with everything unassigned, and
/// resets the status. The recorded inconsistency is kept only when it is an
/// original empty klause, and is then moved to the first empty klause kept
/// when it was klause 0; a reference beyond the klauses kept is dropped.
#[verifier::rlimit(100)]
pub fn kitten_shrink_to_clausal_core(kitten: &mut Kitten)
    requires
        old(kitten).wf(),
        old(kitten).status == 21,
        old(kitten).inconsistent != INVALID,
    ensures
        final(kitten).wf(),
        final(kitten).status == 0,
        final(kitten).level == 0,
        final(kitten).trail@.len() == 0,
        final(kitten).unassigned == final(kitten).nvars(),
        forall|l: int| 0 <= l < final(kitten).values@.len() ==> #[trigger] final(kitten).values@[l] == 0,
        final(kitten).lits == old(kitten).lits,
        final(kitten).klauses@.len() == core_ids(old(kitten).klauses@, old(kitten).end_original_ref as int).len(),
        final(kitten).end_original_ref == final(kitten).klauses@.len(),
        final(kitten).core@.len() == 0,
        forall|j: int| 0 <= j < final(kitten).klauses@.len() ==> {
            &&& (#[trigger] final(kitten).klauses@[j]).aux == core_ids(old(kitten).klauses@, old(kitten).end_original_ref as int)[j]
            &&& final(kitten).klauses@[j].lits@ == core_lits(old(kitten).klauses@, old(kitten).end_original_ref as int)[j]
            &&& final(kitten).klauses@[j].flags == 0
        },
{
    proof {
        lemma_wf_sizes(kitten);
        reveal(Kitten::wf_core);
    }
    let ghost k0 = *kitten;
    clear_assignment(kitten);
    let inc = kitten.inconsistent;
    if kitten.is_learned_klause(inc) || kitten.klauses[inc as usize].lits.len() != 0 {
        kitten.inconsistent = INVALID;
    }
    let ghost k1 = *kitten;
    let mut units: Vec<u32> = Vec::new();
    let mut nk: Vec<Klause> = Vec::new();
    let end = kitten.end_original_ref;
    let mut c: usize = 0;
    while c != end
        invariant
            k1.wf_core(),
            *kitten == (Kitten { watches: kitten.watches, inconsistent: kitten.inconsistent, ..k1 }),
            end == k1.end_original_ref,
            end <= k1.klauses@.len() < MAX_KLAUSES,
            c <= end,
            kitten.watches@.len() == k1.watches@.len(),
            k1.lits <= k1.watches@.len(),
            forall|m: int| k1.lits <= m < kitten.watches@.len() ==> (#[trigger] kitten.watches@[m])@.len() == 0,
            nk@.len() == core_ids(k1.klauses@, c as int).len(),
            nk@.len() <= c,
            forall|j: int| 0 <= j < nk@.len() ==> {
                &&& (#[trigger] nk@[j]).aux == core_ids(k1.klauses@, c as int)[j]
                &&& nk@[j].lits@ == core_lits(k1.klauses@, c as int)[j]
                &&& nk@[j].flags == 0
                &&& nk@[j].antecedents@.len() == 0
                &&& klause_ok(nk@[j], j, k1.lits as int, k1.antecedents)
            },
            watches_ok(kitten.watches@, nk@, k1.lits as int),
            forall|i: int| 0 <= i < units@.len() ==> (#[trigger] units@[i] as int) < nk@.len() && nk@[units@[i] as int].lits@.len() == 1,
            kitten.inconsistent == INVALID || (kitten.inconsistent as int) < k1.klauses@.len(),
        decreases end - c,
    {
        proof {
            reveal(Kitten::wf_core);
            lemma_core_lits_len(k1.klauses@, c as int);
            assert(klause_ok(k1.klauses@[c as int], c as int, k1.lits as int, k1.antecedents));
        }
        let learned = kitten.is_learned_klause(c as u32);
        let core = kitten.is_core_klause(c as u32);
        if !learned && core {
            let dst = nk.len() as u32;
            let lits = copy_vec(&kitten.klauses[c].lits);
            let size = lits.len();
            if size == 0 {
                if kitten.inconsistent == 0 {
                    kitten.inconsistent = dst;
                }
            } else if size == 1 {
                units.push(dst);
            }
            let aux = kitten.klauses[c].aux;
            let ghost nk0 = nk@;
            let ghost w0 = kitten.watches@;
            nk.push(Klause { aux, flags: 0, lits, antecedents: Vec::new() });
            proof {
                assert(watches_ok(w0, nk@, k1.lits as int)) by {
                    assert forall|m: int| 0 <= m < w0.len() implies {
                        &&& (m >= k1.lits ==> (#[trigger] w0[m])@.len() == 0)
                        &&& watch_list_ok(w0[m]@, m, nk@, k1.lits as int)
                    } by {
                        assert(watch_list_ok(w0[m]@, m, nk0, k1.lits as int));
                        assert forall|j: int| 0 <= j < w0[m]@.len() implies katch_ok(#[trigger] w0[m]@[j], m, nk@, k1.lits as int) by {
                            assert(katch_ok(w0[m]@[j], m, nk0, k1.lits as int));
                            assert(nk@[w0[m]@[j].spec_ref() as int] == nk0[w0[m]@[j].spec_ref() as int]);
                        }
                    }
                }
            }
            if size >= 2 {
                let lit0 = nk[dst as usize].lits[0];
                let lit1 = nk[dst as usize].lits[1];
                let binary = size == 2;
                let ghost w1 = kitten.watches@;
                kitten.watches[lit0 as usize].push(Katch::new(lit1, dst, binary));
                kitten.watches[lit1 as usize].push(Katch::new(lit0, dst, binary));
                proof {
                    let ncl = nk@[dst as int].lits@;
                    assert(ncl == k1.klauses@[c as int].lits@);
                    assert(lit0 / 2 != lit1 / 2);
                    let w = kitten.watches@;
                    assert forall|m: int| 0 <= m < w.len() implies {
                        &&& (m >= k1.lits ==> (#[trigger] w[m])@.len() == 0)
                        &&& watch_list_ok(w[m]@, m, nk@, k1.lits as int)
                    } by {
                        assert(watch_list_ok(w1[m]@, m, nk@, k1.lits as int));
                        if m == lit0 || m == lit1 {
                            let ws = w[m]@;
                            let n = ws.len() - 1;
                            assert(ws == w1[m]@.push(ws[n]));
                            assert forall|j: int| 0 <= j < ws.len() implies katch_ok(#[trigger] ws[j], m, nk@, k1.lits as int) by {
                                if j < n {
                                    assert(ws[j] == w1[m]@[j]);
                                }
                            }
                            assert forall|a: int, b: int| 0 <= a < ws.len() && 0 <= b < ws.len() && a != b implies
                                #[trigger] ws[a].spec_ref() != #[trigger] ws[b].spec_ref() by {
                                if a < n && b < n {
                                    assert(ws[a] == w1[m]@[a] && ws[b] == w1[m]@[b]);
                                } else if a < n {
                                    assert(ws[a] == w1[m]@[a]);
                                    assert(katch_ok(w1[m]@[a], m, nk@, k1.lits as int));
                                } else {
                                    assert(ws[b] == w1[m]@[b]);
                                    assert(katch_ok(w1[m]@[b], m, nk@, k1.lits as int));
                                }
                            }
                        } else {
                            assert(w[m] == w1[m]);
                        }
                    }
                }
            }
            proof {
                let ids = core_ids(k1.klauses@, c + 1);
                assert(ids == core_ids(k1.klauses@, c as int) + seq![k1.klauses@[c as int].aux]);
                assert(core_lits(k1.klauses@, c + 1) == core_lits(k1.klauses@, c as int) + seq![k1.klauses@[c as int].lits@]);
                assert forall|j: int| 0 <= j < nk@.len() implies {
                    &&& (#[trigger] nk@[j]).aux == core_ids(k1.klauses@, c + 1)[j]
                    &&& nk@[j].lits@ == core_lits(k1.klauses@, c + 1)[j]
                    &&& nk@[j].flags == 0
                    &&& nk@[j].antecedents@.len() == 0
                    &&& klause_ok(nk@[j], j, k1.lits as int, k1.antecedents)
                } by {
                    if j < nk0.len() {
                        assert(nk@[j] == nk0[j]);
                    }
                }
                assert forall|i: int| 0 <= i < units@.len() implies (#[trigger] units@[i] as int) < nk@.len() && nk@[units@[i] as int].lits@.len() == 1 by {
                }
            }
        } else {
            proof {
                assert(core_ids(k1.klauses@, c + 1) == core_ids(k1.klauses@, c as int) + Seq::<u32>::empty());
                assert(core_lits(k1.klauses@, c + 1) == core_lits(k1.klauses@, c as int) + Seq::<Seq<u32>>::empty());
                assert(core_ids(k1.klauses@, c + 1) =~= core_ids(k1.klauses@, c as int));
                assert(core_lits(k1.klauses@, c + 1) =~= core_lits(k1.klauses@, c as int));
            }
        }
        c = c + 1;
    }
    kitten.klauses = nk;
    kitten.units = units;
    kitten.end_original_ref = kitten.klauses.len();
    kitten.core.clear();
    kitten.status = 0;
    if kitten.inconsistent != INVALID && (kitten.inconsistent as usize) >= kitten.klauses.len() {
        kitten.inconsistent = INVALID;
    }
    if kitten.failing != INVALID && (kitten.failing as usize) >= kitten.klauses.len() {
        kitten.failing = INVALID;
    }
    proof {
        let k = *kitten;
        assert(klauses_ok(k.klauses@, k.lits as int, k.antecedents));
        assert(k.wf_core());
    }
}

/// The parts of the core invariant about the queue, the watches and the
/// unit klauses.
pub(crate) proof fn lemma_wf_parts(k: &Kitten)
    requires
        k.wf_core(),
    ensures
        queue_ok(k.links@, k.queue, k.order@, k.nvars()),
        watches_ok(k.watches@, k.klauses@, k.lits as int),
        forall|i: int| 0 <= i < k.units@.len() ==> (#[trigger] k.units@[i] as int) < k.klauses@.len()
            && k.klauses@[k.units@[i] as int].lits@.len() == 1,
{
    reveal(Kitten::wf_core);
}

/// The core invariant holds after a change of the watches alone that keeps
/// them well formed.
pub(crate) proof fn lemma_wf_core_watches(a: Kitten, b: Kitten)
    requires
        a.wf_core(),
        b == (Kitten { watches: b.watches, generator: b.generator, ..a }),
        b.watches@.len() == a.watches@.len(),
        watches_ok(b.watches@, b.klauses@, b.lits as int),
    ensures
        b.wf_core(),
{
    reveal(Kitten::wf_core);
}

/// The core invariant holds after a change of the decision queue alone that
/// keeps it well formed.
pub(crate) proof fn lemma_wf_core_queue(a: Kitten, b: Kitten)
    requires
        a.wf_core(),
        b == (Kitten { links: b.links, queue: b.queue, order: b.order, generator: b.generator, ..a }),
        b.links@.len() == a.links@.len(),
        queue_ok(b.links@, b.queue, b.order@, b.nvars()),
        search_ok(b.queue, b.order@, b.values@),
    ensures
        b.wf_core(),
{
    reveal(Kitten::wf_core);
}

/// The core invariant holds after a change of the unit klauses alone that
/// keeps them unit klauses.
pub(crate) proof fn lemma_wf_core_units(a: Kitten, b: Kitten)
    requires
        a.wf_core(),
        b == (Kitten { units: b.units, generator: b.generator, ..a }),
        forall|i: int| 0 <= i < b.units@.len() ==> (#[trigger] b.units@[i] as int) < b.klauses@.len()
            && b.klauses@[b.units@[i] as int].lits@.len() == 1,
    ensures
        b.wf_core(),
{
    reveal(Kitten::wf_core);
}

} // verus!
