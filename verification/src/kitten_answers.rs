//! What the answers of the embedded solver mean, and the checks behind
//! them: a total assignment that satisfies a formula and makes the
//! assumptions true, a refutation by unit propagation, reverse unit
//! propagation for learned klauses, and a complete search over all
//! assignments.
use vstd::prelude::*;
use crate::kitten::{Kitten, Klause, KittenStatistics, klause_satisfied, klause_ok, lemma_wf_sizes, lits_below,
    completely_backtrack_to_root_level, lemma_count_zero, values_ok, lemma_all_assigned};
use crate::literal::spec_not;

verus! {

/// A total assignment of the first `lits` literals: each variable true
/// (1) or false (-1), and its two literals opposite.
pub open spec fn total(a: Seq<i8>, lits: int) -> bool {
    forall|v: int| 0 <= v && 2 * v + 1 < lits ==> (#[trigger] a[2 * v] == 1 || a[2 * v] == -1) && a[2 * v + 1] == -a[2 * v]
}

/// The literals of each klause, in order.
pub open spec fn klause_lits(ks: Seq<Klause>) -> Seq<Seq<u32>> {
    Seq::new(ks.len(), |r: int| ks[r].lits@)
}

/// The clauses held in a vector of literal vectors.
pub open spec fn formula_view(f: Seq<Vec<u32>>) -> Seq<Seq<u32>> {
    Seq::new(f.len(), |r: int| f[r]@)
}

/// The assignment satisfies every clause of `f`.
pub open spec fn holds(a: Seq<i8>, f: Seq<Seq<u32>>) -> bool {
    forall|r: int| 0 <= r < f.len() ==> klause_satisfied(a, #[trigger] f[r])
}

/// The assignment makes every literal of `xs` true.
pub open spec fn all_true(a: Seq<i8>, xs: Seq<u32>) -> bool {
    forall|i: int| 0 <= i < xs.len() ==> a[#[trigger] xs[i] as int] > 0
}

/// No total assignment of `n` entries over the first `lits` literals
/// satisfies the clauses `f` and makes every literal of `xs` true.
pub open spec fn refuted(f: Seq<Seq<u32>>, xs: Seq<u32>, n: int, lits: int) -> bool {
    forall|a: Seq<i8>| a.len() == n && total(a, lits) && #[trigger] holds(a, f) ==> !all_true(a, xs)
}

/// Every literal of every clause of `f` is below `lits`.
pub open spec fn formula_below(f: Seq<Seq<u32>>, lits: int) -> bool {
    forall|r: int| 0 <= r < f.len() ==> lits_below(#[trigger] f[r], lits)
}

/// The sizes the checks work with: literal pairs, and a value per literal.
pub open spec fn sizes_ok(n: int, lits: int) -> bool {
    &&& lits % 2 == 0
    &&& 0 <= lits <= n
    &&& lits <= 0x4000_0000
}

/// The partial assignment `p` agrees with `a` wherever it assigns.
pub open spec fn agrees(p: Seq<i8>, a: Seq<i8>, lits: int) -> bool {
    forall|l: int| 0 <= l < lits && #[trigger] p[l] != 0 ==> p[l] == a[l]
}

/// Every total assignment that satisfies `f` and makes `xs` true agrees
/// with `p`.
pub open spec fn forced(p: Seq<i8>, f: Seq<Seq<u32>>, xs: Seq<u32>, n: int, lits: int) -> bool {
    forall|a: Seq<i8>| a.len() == n && total(a, lits) && #[trigger] holds(a, f) && all_true(a, xs)
        ==> agrees(p, a, lits)
}

/// The partial assignment gives the two literals of a variable opposite
/// values.
pub open spec fn paired(p: Seq<i8>, lits: int) -> bool {
    &&& forall|l: int| 0 <= l < p.len() ==> -1 <= #[trigger] p[l] <= 1
    &&& forall|v: int| 0 <= v && 2 * v + 1 < lits ==> #[trigger] p[2 * v + 1] == -p[2 * v]
}

/// A literal in a total assignment is 1 or -1, the opposite of its
/// negation.
proof fn lemma_total_lit(a: Seq<i8>, lits: int, l: int)
    requires
        total(a, lits),
        0 <= l < lits,
        lits % 2 == 0,
        lits <= 0x4000_0000,
    ensures
        a[l] == 1 || a[l] == -1,
        a[spec_not(l as u32) as int] == -a[l],
{
    crate::literal::lemma_xor_one(l as u32);
    let v = l / 2;
    assert(l == 2 * v || l == 2 * v + 1);
    assert(a[2 * v] == 1 || a[2 * v] == -1);
    assert(a[2 * v + 1] == -a[2 * v]);
    if l == 2 * v {
        assert(spec_not(l as u32) as int == 2 * v + 1);
    } else {
        assert(spec_not(l as u32) as int == 2 * v);
    }
}

/// Setting literal `x` true keeps the assignment forced when every
/// assignment it is forced by makes `x` true.
proof fn lemma_force(p: Seq<i8>, f: Seq<Seq<u32>>, xs: Seq<u32>, n: int, lits: int, x: int)
    requires
        forced(p, f, xs, n, lits),
        paired(p, lits),
        p.len() == n,
        sizes_ok(n, lits),
        0 <= x < lits,
        p[x] == 0,
        forall|a: Seq<i8>| a.len() == n && total(a, lits) && #[trigger] holds(a, f) && all_true(a, xs) ==> a[x] > 0,
    ensures
        forced(p.update(x, 1i8).update(spec_not(x as u32) as int, -1i8), f, xs, n, lits),
        paired(p.update(x, 1i8).update(spec_not(x as u32) as int, -1i8), lits),
{
    crate::literal::lemma_xor_one(x as u32);
    let y = spec_not(x as u32) as int;
    let q = p.update(x, 1i8).update(y, -1i8);
    assert forall|a: Seq<i8>| a.len() == n && total(a, lits) && #[trigger] holds(a, f) && all_true(a, xs)
        implies agrees(q, a, lits) by {
        lemma_total_lit(a, lits, x);
        assert(agrees(p, a, lits));
        assert forall|l: int| 0 <= l < lits && #[trigger] q[l] != 0 implies q[l] == a[l] by {
            if l != x && l != y {
                assert(q[l] == p[l]);
            }
        }
    }
    let w = x / 2;
    assert(x == 2 * w || x == 2 * w + 1);
    assert(y == 2 * w || y == 2 * w + 1);
    assert(x != y);
    assert forall|v: int| 0 <= v && 2 * v + 1 < lits implies #[trigger] q[2 * v + 1] == -q[2 * v] by {
        if v != w {
            assert(2 * v != x && 2 * v != y && 2 * v + 1 != x && 2 * v + 1 != y);
            assert(q[2 * v + 1] == p[2 * v + 1] && q[2 * v] == p[2 * v]);
            assert(p[2 * v + 1] == -p[2 * v]);
        }
    }
    assert forall|l: int| 0 <= l < q.len() implies -1 <= #[trigger] q[l] <= 1 by {
        if l != x && l != y {
            assert(q[l] == p[l]);
        }
    }
}

/// Unit propagation over the clauses `f` from the literals `xs` set true:
/// `true` only when it runs into a contradiction, so that no total
/// assignment satisfies `f` and makes `xs` true.
pub fn propagate_refutes(f: &Vec<Vec<u32>>, xs: &Vec<u32>, n: usize, lits: usize) -> (b: bool)
    requires
        sizes_ok(n as int, lits as int),
        formula_below(formula_view(f@), lits as int),
        lits_below(xs@, lits as int),
    ensures
        b ==> refuted(formula_view(f@), xs@, n as int, lits as int),
{
    let ghost fv = formula_view(f@);
    let mut p: Vec<i8> = Vec::new();
    while p.len() < n
        invariant
            p@.len() <= n,
            forall|l: int| 0 <= l < p@.len() ==> #[trigger] p@[l] == 0,
        decreases n - p@.len(),
    {
        p.push(0);
    }
    let m = xs.len();
    let mut i: usize = 0;
    while i < m
        invariant
            sizes_ok(n as int, lits as int),
            fv == formula_view(f@),
            lits_below(xs@, lits as int),
            m == xs@.len(),
            i <= m,
            p@.len() == n,
            forced(p@, fv, xs@, n as int, lits as int),
            paired(p@, lits as int),
        decreases m - i,
    {
        let x = xs[i];
        proof {
            assert((x as int) < lits);
            crate::literal::lemma_xor_one(x);
        }
        if p[x as usize] < 0 {
            proof {
                assert forall|a: Seq<i8>| a.len() == n && total(a, lits as int) && #[trigger] holds(a, fv)
                    implies !all_true(a, xs@) by {
                    if all_true(a, xs@) {
                        assert(agrees(p@, a, lits as int));
                        assert(a[xs@[i as int] as int] > 0);
                        assert(p@[x as int] == a[x as int]);
                    }
                }
            }
            return true;
        }
        if p[x as usize] == 0 {
            proof {
                assert forall|a: Seq<i8>| a.len() == n && total(a, lits as int) && #[trigger] holds(a, fv) && all_true(a, xs@)
                    implies a[x as int] > 0 by {
                    assert(a[xs@[i as int] as int] > 0);
                }
                lemma_force(p@, fv, xs@, n as int, lits as int, x as int);
            }
            p.set(x as usize, 1);
            p.set((x ^ 1) as usize, -1);
        }
        i += 1;
    }
    let nk = f.len();
    let rounds: usize = lits / 2 + 1;
    let mut round: usize = 0;
    while round < rounds
        invariant
            sizes_ok(n as int, lits as int),
            fv == formula_view(f@),
            formula_below(fv, lits as int),
            nk == f@.len(),
            p@.len() == n,
            forced(p@, fv, xs@, n as int, lits as int),
            paired(p@, lits as int),
        decreases rounds - round,
    {
        let mut changed = false;
        let mut r: usize = 0;
        while r < nk
            invariant
                sizes_ok(n as int, lits as int),
                fv == formula_view(f@),
                formula_below(fv, lits as int),
                nk == f@.len(),
                r <= nk,
                p@.len() == n,
                forced(p@, fv, xs@, n as int, lits as int),
                paired(p@, lits as int),
            decreases nk - r,
        {
            let ghost c = fv[r as int];
            proof {
                assert(c == f@[r as int]@);
                assert(lits_below(c, lits as int));
            }
            let size = f[r].len();
            let mut j: usize = 0;
            let mut sat = false;
            let mut unknown: usize = 0;
            let mut ulit: u32 = 0;
            while j < size && !sat
                invariant
                    r < nk,
                    nk == f@.len(),
                    c == f@[r as int]@,
                    size == c.len(),
                    lits_below(c, lits as int),
                    lits <= n,
                    p@.len() == n,
                    j <= size,
                    unknown <= 2,
                    sat ==> exists|t: int| 0 <= t < j && p@[#[trigger] c[t] as int] > 0,
                    !sat ==> forall|t: int| 0 <= t < j ==> p@[#[trigger] c[t] as int] <= 0,
                    unknown == 0 ==> forall|t: int| 0 <= t < j ==> p@[#[trigger] c[t] as int] != 0,
                    unknown == 1 ==> (ulit as int) < lits && p@[ulit as int] == 0 && forall|t: int| 0 <= t < j
                        ==> p@[#[trigger] c[t] as int] != 0 || c[t] == ulit,
                decreases size - j,
            {
                let l = f[r][j];
                let v = p[l as usize];
                if v > 0 {
                    sat = true;
                } else if v == 0 {
                    if unknown == 0 {
                        ulit = l;
                        unknown = 1;
                    } else {
                        unknown = 2;
                    }
                }
                j += 1;
            }
            if !sat {
                if unknown == 0 {
                    proof {
                        assert forall|a: Seq<i8>| a.len() == n && total(a, lits as int) && #[trigger] holds(a, fv)
                            implies !all_true(a, xs@) by {
                            if all_true(a, xs@) {
                                assert(agrees(p@, a, lits as int));
                                assert(klause_satisfied(a, fv[r as int]));
                                let t = choose|t: int| 0 <= t < c.len() && a[#[trigger] c[t] as int] > 0;
                                assert(p@[c[t] as int] != 0);
                            }
                        }
                    }
                    return true;
                }
                if unknown == 1 {
                    proof {
                        assert forall|a: Seq<i8>| a.len() == n && total(a, lits as int) && #[trigger] holds(a, fv) && all_true(a, xs@)
                            implies a[ulit as int] > 0 by {
                            assert(agrees(p@, a, lits as int));
                            assert(klause_satisfied(a, fv[r as int]));
                            let t = choose|t: int| 0 <= t < c.len() && a[#[trigger] c[t] as int] > 0;
                            if c[t] != ulit {
                                assert(p@[c[t] as int] != 0);
                            }
                        }
                        crate::literal::lemma_xor_one(ulit);
                        lemma_force(p@, fv, xs@, n as int, lits as int, ulit as int);
                    }
                    p.set(ulit as usize, 1);
                    p.set((ulit ^ 1) as usize, -1);
                    changed = true;
                }
            }
            r += 1;
        }
        if !changed {
            return false;
        }
        round += 1;
    }
    false
}

/// A copy of the literals `c`.
fn copy_lits(c: &Vec<u32>) -> (r: Vec<u32>)
    ensures
        r@ == c@,
{
    let mut r: Vec<u32> = Vec::new();
    let mut i: usize = 0;
    while i < c.len()
        invariant
            i <= c@.len(),
            r@ == c@.take(i as int),
        decreases c@.len() - i,
    {
        r.push(c[i]);
        proof {
            assert(c@.take(i + 1) == c@.take(i as int).push(c@[i as int]));
        }
        i += 1;
    }
    proof {
        assert(c@.take(c@.len() as int) == c@);
    }
    r
}

/// A copy of the clauses `f`.
fn copy_formula(f: &Vec<Vec<u32>>) -> (g: Vec<Vec<u32>>)
    ensures
        formula_view(g@) == formula_view(f@),
{
    let mut g: Vec<Vec<u32>> = Vec::new();
    let mut r: usize = 0;
    while r < f.len()
        invariant
            r <= f@.len(),
            g@.len() == r,
            forall|q: int| 0 <= q < r ==> (#[trigger] g@[q])@ == f@[q]@,
        decreases f@.len() - r,
    {
        g.push(copy_lits(&f[r]));
        r += 1;
    }
    proof {
        assert(formula_view(g@) =~= formula_view(f@));
    }
    g
}

/// The literals of every klause of `kitten`, in order.
pub fn snapshot(kitten: &Kitten) -> (f: Vec<Vec<u32>>)
    ensures
        formula_view(f@) == klause_lits(kitten.klauses@),
{
    let mut f: Vec<Vec<u32>> = Vec::new();
    let nk = kitten.klauses.len();
    let mut r: usize = 0;
    while r < nk
        invariant
            nk == kitten.klauses@.len(),
            r <= nk,
            f@.len() == r,
            forall|q: int| 0 <= q < r ==> (#[trigger] f@[q])@ == kitten.klauses@[q].lits@,
        decreases nk - r,
    {
        f.push(copy_lits(&kitten.klauses[r].lits));
        r += 1;
    }
    proof {
        assert(formula_view(f@) =~= klause_lits(kitten.klauses@));
    }
    f
}

/// Reverse unit propagation: `true` only when setting every literal of
/// `c` false and propagating over `f` runs into a contradiction, so that
/// every total assignment that satisfies `f` satisfies `c`.
pub fn implied(f: &Vec<Vec<u32>>, c: &Vec<u32>, n: usize, lits: usize) -> (b: bool)
    requires
        sizes_ok(n as int, lits as int),
        formula_below(formula_view(f@), lits as int),
        lits_below(c@, lits as int),
    ensures
        b ==> forall|a: Seq<i8>| a.len() == n && total(a, lits as int) && #[trigger] holds(a, formula_view(f@))
            ==> klause_satisfied(a, c@),
{
    let mut xs: Vec<u32> = Vec::new();
    let mut i: usize = 0;
    while i < c.len()
        invariant
            sizes_ok(n as int, lits as int),
            lits_below(c@, lits as int),
            i <= c@.len(),
            xs@.len() == i,
            forall|k: int| 0 <= k < i ==> #[trigger] xs@[k] == spec_not(c@[k]),
            lits_below(xs@, lits as int),
        decreases c@.len() - i,
    {
        proof {
            crate::literal::lemma_xor_one(c@[i as int]);
            assert((c@[i as int] as int) < lits);
        }
        xs.push(c[i] ^ 1);
        i += 1;
    }
    let b = propagate_refutes(f, &xs, n, lits);
    proof {
        if b {
            let fv = formula_view(f@);
            assert forall|a: Seq<i8>| a.len() == n && total(a, lits as int) && #[trigger] holds(a, fv)
                implies klause_satisfied(a, c@) by {
                assert(!all_true(a, xs@));
                let k = choose|k: int| 0 <= k < xs@.len() && !(a[#[trigger] xs@[k] as int] > 0);
                lemma_total_lit(a, lits as int, c@[k] as int);
                assert(a[c@[k] as int] > 0);
            }
        }
    }
    b
}

/// Confirms that no total assignment satisfies the clauses `f0` and makes
/// the assumptions of `kitten` true. The klauses of `kitten` from
/// `f0.len()` on (those learned since `f0` was taken) must each follow from
/// the clauses before them by reverse unit propagation, and unit
/// propagation from the assumptions over all of them must run into a
/// contradiction.
pub fn confirm_refuted(f0: &Vec<Vec<u32>>, kitten: &Kitten) -> (b: bool)
    requires
        kitten.wf_core(),
        f0@.len() <= kitten.klauses@.len(),
        formula_below(formula_view(f0@), kitten.lits as int),
    ensures
        b ==> refuted(formula_view(f0@), kitten.assumptions@, kitten.values@.len() as int, kitten.lits as int),
{
    proof {
        reveal(Kitten::wf_core);
        lemma_wf_sizes(kitten);
    }
    let n = kitten.values.len();
    let lits = kitten.lits;
    let ghost g0 = formula_view(f0@);
    let mut f = copy_formula(f0);
    let nk = kitten.klauses.len();
    let mut r = f0.len();
    while r < nk
        invariant
            kitten.tables_ok(),
            sizes_ok(n as int, lits as int),
            n == kitten.values@.len(),
            lits == kitten.lits,
            nk == kitten.klauses@.len(),
            r <= nk,
            formula_below(formula_view(f@), lits as int),
            forall|a: Seq<i8>| a.len() == n && total(a, lits as int) && #[trigger] holds(a, g0) ==> holds(a, formula_view(f@)),
        decreases nk - r,
    {
        proof {
            assert(klause_ok(kitten.klauses@[r as int], r as int, kitten.lits as int, kitten.antecedents));
        }
        let c = copy_lits(&kitten.klauses[r].lits);
        if !implied(&f, &c, n, lits) {
            return false;
        }
        let ghost fv = formula_view(f@);
        f.push(c);
        proof {
            let fw = formula_view(f@);
            assert(fw =~= fv.push(c@));
            assert forall|a: Seq<i8>| a.len() == n && total(a, lits as int) && #[trigger] holds(a, g0) implies holds(a, fw) by {
                assert(holds(a, fv));
                assert(klause_satisfied(a, c@));
                assert forall|q: int| 0 <= q < fw.len() implies klause_satisfied(a, #[trigger] fw[q]) by {
                    if q < fv.len() {
                        assert(fw[q] == fv[q]);
                    }
                }
            }
            assert forall|q: int| 0 <= q < fw.len() implies lits_below(#[trigger] fw[q], lits as int) by {
                if q < fv.len() {
                    assert(fw[q] == fv[q]);
                }
            }
        }
        r += 1;
    }
    let b = propagate_refutes(&f, &kitten.assumptions, n, lits);
    proof {
        if b {
            assert forall|a: Seq<i8>| a.len() == n && total(a, lits as int) && #[trigger] holds(a, g0)
                implies !all_true(a, kitten.assumptions@) by {
                assert(holds(a, formula_view(f@)));
            }
        }
    }
    b
}

/// `b` agrees with `a` on the variables below `v`.
pub open spec fn same_below(a: Seq<i8>, b: Seq<i8>, v: int) -> bool {
    forall|l: int| 0 <= l < 2 * v ==> #[trigger] b[l] == a[l]
}

/// Whether the assignment `a` satisfies the clauses `f` and makes `xs`
/// true.
fn fulfils(f: &Vec<Vec<u32>>, xs: &Vec<u32>, a: &Vec<i8>, lits: usize) -> (b: bool)
    requires
        formula_below(formula_view(f@), lits as int),
        lits_below(xs@, lits as int),
        lits <= a@.len(),
    ensures
        b == (holds(a@, formula_view(f@)) && all_true(a@, xs@)),
{
    let ghost fv = formula_view(f@);
    let nk = f.len();
    let mut r: usize = 0;
    while r < nk
        invariant
            fv == formula_view(f@),
            formula_below(fv, lits as int),
            lits <= a@.len(),
            nk == f@.len(),
            r <= nk,
            forall|q: int| 0 <= q < r ==> klause_satisfied(a@, #[trigger] fv[q]),
        decreases nk - r,
    {
        let ghost c = fv[r as int];
        proof {
            assert(c == f@[r as int]@);
            assert(lits_below(c, lits as int));
        }
        let size = f[r].len();
        let mut j: usize = 0;
        let mut sat = false;
        while j < size && !sat
            invariant
                r < nk,
                nk == f@.len(),
                c == f@[r as int]@,
                size == c.len(),
                lits_below(c, lits as int),
                lits <= a@.len(),
                j <= size,
                sat ==> klause_satisfied(a@, c),
                !sat ==> forall|t: int| 0 <= t < j ==> a@[#[trigger] c[t] as int] <= 0,
            decreases size - j,
        {
            let l = f[r][j];
            if a[l as usize] > 0 {
                sat = true;
            }
            j += 1;
        }
        if !sat {
            proof {
                assert(!klause_satisfied(a@, fv[r as int]));
            }
            return false;
        }
        r += 1;
    }
    let m = xs.len();
    let mut i: usize = 0;
    while i < m
        invariant
            lits_below(xs@, lits as int),
            lits <= a@.len(),
            m == xs@.len(),
            i <= m,
            holds(a@, fv),
            forall|q: int| 0 <= q < i ==> a@[#[trigger] xs@[q] as int] > 0,
        decreases m - i,
    {
        if a[xs[i] as usize] <= 0 {
            return false;
        }
        i += 1;
    }
    true
}

/// Whether an assignment satisfies the clauses and makes `xs` true
/// depends only on its first `lits` entries.
proof fn lemma_fulfils_prefix(f: Seq<Seq<u32>>, xs: Seq<u32>, lits: int, a: Seq<i8>, b: Seq<i8>)
    requires
        formula_below(f, lits),
        lits_below(xs, lits),
        forall|l: int| 0 <= l < lits ==> #[trigger] b[l] == a[l],
    ensures
        holds(a, f) == holds(b, f),
        all_true(a, xs) == all_true(b, xs),
{
    assert forall|r: int| 0 <= r < f.len() implies klause_satisfied(a, #[trigger] f[r]) == klause_satisfied(b, f[r]) by {
        let c = f[r];
        assert(lits_below(c, lits));
        if klause_satisfied(a, c) {
            let t = choose|t: int| 0 <= t < c.len() && a[#[trigger] c[t] as int] > 0;
            assert(b[c[t] as int] > 0);
        }
        if klause_satisfied(b, c) {
            let t = choose|t: int| 0 <= t < c.len() && b[#[trigger] c[t] as int] > 0;
            assert(a[c[t] as int] > 0);
        }
    }
    assert forall|i: int| 0 <= i < xs.len() implies a[#[trigger] xs[i] as int] == b[xs[i] as int] by {
    }
}

/// Tries every assignment of the variables from `v` on, keeping those
/// below: 10 with a total assignment in `a` that satisfies `f` and makes
/// `xs` true, 20 when no total assignment agreeing with `a` below `v`
/// does, and 0 once the ticks reach `limit` or termination is requested
/// (a tick counts per step).
fn exhaust(f: &Vec<Vec<u32>>, xs: &Vec<u32>, lits: usize, limit: u64, stats: &mut KittenStatistics,
    a: &mut Vec<i8>, v: usize) -> (r: i32)
    requires
        formula_below(formula_view(f@), lits as int),
        lits_below(xs@, lits as int),
        lits <= old(a)@.len(),
        lits % 2 == 0,
        2 * v <= lits,
        forall|w: int| 0 <= w < v ==> (#[trigger] old(a)@[2 * w] == 1 || old(a)@[2 * w] == -1)
            && old(a)@[2 * w + 1] == -old(a)@[2 * w],
    ensures
        final(a)@.len() == old(a)@.len(),
        same_below(old(a)@, final(a)@, v as int),
        forall|l: int| lits <= l < old(a)@.len() ==> #[trigger] final(a)@[l] == old(a)@[l],
        r == 0 || r == 10 || r == 20,
        r == 0 ==> final(stats).terminate || final(stats).kitten_ticks >= limit,
        r == 10 ==> total(final(a)@, lits as int) && holds(final(a)@, formula_view(f@)) && all_true(final(a)@, xs@),
        r == 20 ==> forall|b: Seq<i8>| b.len() == old(a)@.len() && total(b, lits as int)
            && same_below(old(a)@, b, v as int) && #[trigger] holds(b, formula_view(f@)) ==> !all_true(b, xs@),
        final(stats).kitten_ticks >= old(stats).kitten_ticks,
        *final(stats) == (KittenStatistics { kitten_ticks: final(stats).kitten_ticks, ..*old(stats) }),
    decreases lits - 2 * v,
{
    stats.kitten_ticks = stats.kitten_ticks.saturating_add(1);
    if stats.kitten_ticks >= limit || stats.terminate {
        return 0;
    }
    let ghost fv = formula_view(f@);
    let ghost a0 = a@;
    if 2 * v == lits {
        let ok = fulfils(f, xs, a, lits);
        proof {
            if ok {
                assert(total(a@, lits as int)) by {
                    assert forall|w: int| 0 <= w && 2 * w + 1 < lits implies (#[trigger] a@[2 * w] == 1 || a@[2 * w] == -1)
                        && a@[2 * w + 1] == -a@[2 * w] by {
                        assert(w < v);
                    }
                }
            } else {
                assert forall|b: Seq<i8>| b.len() == a0.len() && total(b, lits as int)
                    && same_below(a0, b, v as int) && #[trigger] holds(b, fv) implies !all_true(b, xs@) by {
                    assert forall|l: int| 0 <= l < lits implies #[trigger] a0[l] == b[l] by {
                        assert(b[l] == a0[l]);
                    }
                    lemma_fulfils_prefix(fv, xs@, lits as int, b, a0);
                }
            }
        }
        if ok {
            return 10;
        }
        return 20;
    }
    a.set(2 * v, 1);
    a.set(2 * v + 1, -1);
    let ghost a1 = a@;
    proof {
        assert forall|w: int| 0 <= w < v + 1 implies (#[trigger] a1[2 * w] == 1 || a1[2 * w] == -1) && a1[2 * w + 1] == -a1[2 * w] by {
            if w < v {
                assert(a1[2 * w] == a0[2 * w] && a1[2 * w + 1] == a0[2 * w + 1]);
            }
        }
    }
    let r1 = exhaust(f, xs, lits, limit, stats, a, v + 1);
    if r1 != 20 {
        proof {
            assert forall|l: int| 0 <= l < 2 * v implies #[trigger] a@[l] == a0[l] by {
                assert(a@[l] == a1[l]);
            }
        }
        return r1;
    }
    let ghost b1 = a@;
    a.set(2 * v, -1);
    a.set(2 * v + 1, 1);
    let ghost a2 = a@;
    proof {
        assert forall|w: int| 0 <= w < v + 1 implies (#[trigger] a2[2 * w] == 1 || a2[2 * w] == -1) && a2[2 * w + 1] == -a2[2 * w] by {
            if w < v {
                assert(b1[2 * w] == a1[2 * w] && b1[2 * w + 1] == a1[2 * w + 1]);
                assert(a2[2 * w] == b1[2 * w] && a2[2 * w + 1] == b1[2 * w + 1]);
            }
        }
    }
    let r2 = exhaust(f, xs, lits, limit, stats, a, v + 1);
    proof {
        assert forall|l: int| 0 <= l < 2 * v implies #[trigger] a@[l] == a0[l] by {
            assert(a@[l] == a2[l]);
            assert(a2[l] == b1[l]);
            assert(b1[l] == a1[l]);
        }
        if r2 == 20 {
            assert forall|b: Seq<i8>| b.len() == a0.len() && total(b, lits as int)
                && same_below(a0, b, v as int) && #[trigger] holds(b, fv) implies !all_true(b, xs@) by {
                assert(b[2 * v as int] == 1 || b[2 * v as int] == -1);
                assert(b[2 * v + 1] == -b[2 * v as int]);
                if b[2 * v as int] == 1 {
                    assert forall|l: int| 0 <= l < 2 * (v + 1) implies #[trigger] b[l] == a1[l] by {
                        if l < 2 * v {
                            assert(b[l] == a0[l]);
                        }
                    }
                    assert(same_below(a1, b, v + 1));
                } else {
                    assert forall|l: int| 0 <= l < 2 * (v + 1) implies #[trigger] b[l] == a2[l] by {
                        if l < 2 * v {
                            assert(b[l] == a0[l]);
                            assert(a2[l] == b1[l]);
                            assert(b1[l] == a1[l]);
                        }
                    }
                    assert(same_below(a2, b, v + 1));
                }
            }
        }
    }
    r2
}

/// Decides the clauses `f` under the assumptions of `kitten` by trying
/// every assignment from the root level: 10 with the satisfying assignment
/// as the values, 20 when none exists, 0 once the ticks limit is reached
/// or termination is requested.
pub(crate) fn search_exhaustively(kitten: &mut Kitten, stats: &mut KittenStatistics, f: &Vec<Vec<u32>>) -> (r: i32)
    requires
        old(kitten).wf(),
        formula_below(formula_view(f@), old(kitten).lits as int),
    ensures
        final(kitten).wf(),
        final(kitten).klauses == old(kitten).klauses,
        final(kitten).assumptions == old(kitten).assumptions,
        final(kitten).lits == old(kitten).lits,
        final(kitten).import == old(kitten).import,
        final(kitten).evars == old(kitten).evars,
        final(kitten).status == old(kitten).status,
        final(kitten).limits == old(kitten).limits,
        final(kitten).values@.len() == old(kitten).values@.len(),
        r == 0 || r == 10 || r == 20,
        r == 0 ==> final(stats).terminate || final(stats).kitten_ticks >= final(kitten).limits.ticks,
        r == 10 ==> {
            &&& total(final(kitten).values@, final(kitten).lits as int)
            &&& holds(final(kitten).values@, formula_view(f@))
            &&& all_true(final(kitten).values@, final(kitten).assumptions@)
            &&& final(kitten).unassigned == 0
        },
        r == 20 ==> refuted(formula_view(f@), final(kitten).assumptions@, final(kitten).values@.len() as int,
            final(kitten).lits as int),
        final(stats).kitten_ticks >= old(stats).kitten_ticks,
        *final(stats) == (KittenStatistics { kitten_ticks: final(stats).kitten_ticks, ..*old(stats) }),
{
    proof {
        reveal(Kitten::wf_core);
        lemma_wf_sizes(kitten);
    }
    completely_backtrack_to_root_level(kitten);
    proof {
        reveal(Kitten::wf_core);
    }
    let n = kitten.values.len();
    let mut a: Vec<i8> = Vec::new();
    while a.len() < n
        invariant
            a@.len() <= n,
            forall|l: int| 0 <= l < a@.len() ==> #[trigger] a@[l] == 0,
        decreases n - a@.len(),
    {
        a.push(0);
    }
    let ghost a0 = a@;
    let r = exhaust(f, &kitten.assumptions, kitten.lits, kitten.limits.ticks, stats, &mut a, 0);
    proof {
        if r == 20 {
            assert forall|b: Seq<i8>| b.len() == kitten.values@.len() && total(b, kitten.lits as int)
                && #[trigger] holds(b, formula_view(f@)) implies !all_true(b, kitten.assumptions@) by {
                assert(same_below(a0, b, 0));
            }
        }
    }
    if r == 10 {
        let ghost k0 = *kitten;
        kitten.values = a;
        kitten.unassigned = 0;
        proof {
            let k = *kitten;
            lemma_wf_sizes(&k0);
            assert(forall|w: int| 0 <= w < k.nvars() ==> #[trigger] k.values@[2 * w] != 0) by {
                assert forall|w: int| 0 <= w < k.nvars() implies #[trigger] k.values@[2 * w] != 0 by {
                    assert(2 * w + 1 < k.lits);
                    assert(k.values@[2 * w] == 1 || k.values@[2 * w] == -1);
                }
            }
            lemma_count_zero(k.values@, k.nvars());
            assert(values_ok(k.values@, k.lits as int)) by {
                assert forall|l: int| 0 <= l < k.values@.len() implies -1 <= #[trigger] k.values@[l] <= 1 by {
                    if l < k.lits {
                        let w = l / 2;
                        assert(2 * w + 1 < k.lits);
                        assert(k.values@[2 * w] == 1 || k.values@[2 * w] == -1);
                        assert(k.values@[2 * w + 1] == -k.values@[2 * w]);
                        assert(l == 2 * w || l == 2 * w + 1);
                    } else {
                        assert(k.values@[l] == a0[l]);
                    }
                }
                assert forall|l: int| k.lits <= l < k.values@.len() implies #[trigger] k.values@[l] == 0 by {
                    assert(k.values@[l] == a0[l]);
                }
            }
            assert(k.wf_core());
        }
    }
    r
}

/// Every variable of a well-formed solver with nothing unassigned is true
/// or false, its two literals opposite.
pub proof fn lemma_assigned_total(k: &Kitten)
    requires
        k.wf_core(),
        k.unassigned == 0,
    ensures
        total(k.values@, k.lits as int),
{
    reveal(Kitten::wf_core);
    lemma_wf_sizes(k);
    lemma_all_assigned(k);
    let a = k.values@;
    assert forall|v: int| 0 <= v && 2 * v + 1 < k.lits implies (#[trigger] a[2 * v] == 1 || a[2 * v] == -1)
        && a[2 * v + 1] == -a[2 * v] by {
        assert(a[2 * v] != 0);
        assert(-1 <= a[2 * v] <= 1);
        assert(a[2 * v + 1] == -a[2 * v]);
    }
}

/// A total assignment that satisfies the clauses and makes the assumptions
/// true (what a 10 answer reports) shows they are not refuted: the answers
/// 10 and 20 exclude each other.
pub proof fn lemma_model_excludes_refutation(a: Seq<i8>, f: Seq<Seq<u32>>, xs: Seq<u32>, lits: int)
    requires
        total(a, lits),
        holds(a, f),
        all_true(a, xs),
    ensures
        !refuted(f, xs, a.len() as int, lits),
{
}

} // verus!
