//! The decision at the heart of fast variable elimination: what resolving
//! two large clauses on a pivot variable comes to under the current
//! values.
use vstd::prelude::*;
use crate::literal::spec_not;

verus! {

/// What resolving two large clauses on the pivot comes to, and so what
/// the caller does with them.
pub enum FastResolution {
    /// A literal of the first clause other than the pivot is true: that
    /// clause is satisfied and becomes garbage.
    FirstSatisfied,
    /// A literal of the second clause is true (met before any clash): that
    /// clause is satisfied and becomes garbage.
    SecondSatisfied,
    /// The resolvent holds a literal and its negation.
    Tautological,
    /// The resolvent is empty: the formula is inconsistent.
    Empty,
    /// The resolvent is this unit, which is learned.
    Unit(u32),
    /// The resolvent, added as an irredundant clause, subsumes the first
    /// clause, the second clause, or both, which then become garbage.
    Strengthened(Vec<u32>, bool, bool),
    /// The clauses resolve to a clause that strengthens neither: the only
    /// outcome in which the pivot can still be eliminated this way.
    Resolvable,
}

/// A literal that goes into the resolvent: not of the pivot, unassigned.
pub open spec fn kept(values: Seq<i8>, pivot: u32, l: u32) -> bool {
    l / 2 != pivot && values[l as int] == 0
}

/// A true literal other than the pivot's.
pub open spec fn true_other(values: Seq<i8>, pivot: u32, l: u32) -> bool {
    l / 2 != pivot && values[l as int] > 0
}

/// Some literal of `c` other than the pivot's is true.
pub open spec fn any_true(c: Seq<u32>, pivot: u32, values: Seq<i8>) -> bool {
    exists|j: int| 0 <= j < c.len() && true_other(values, pivot, #[trigger] c[j])
}

/// The literals of `c` that go into the resolvent, in order.
pub open spec fn kept_part(c: Seq<u32>, pivot: u32, values: Seq<i8>) -> Seq<u32>
    decreases c.len(),
{
    if c.len() == 0 {
        seq![]
    } else {
        let p = kept_part(c.drop_last(), pivot, values);
        if kept(values, pivot, c.last()) { p.push(c.last()) } else { p }
    }
}

/// The literals of `d` that the resolvent adds to `first`, in order.
pub open spec fn added_part(d: Seq<u32>, pivot: u32, values: Seq<i8>, first: Seq<u32>) -> Seq<u32>
    decreases d.len(),
{
    if d.len() == 0 {
        seq![]
    } else {
        let p = added_part(d.drop_last(), pivot, values, first);
        let l = d.last();
        if kept(values, pivot, l) && !first.contains(l) { p.push(l) } else { p }
    }
}

/// A literal of the second clause that ends the resolution: true, or
/// unassigned with its negation among the literals of the first clause.
pub open spec fn stops(values: Seq<i8>, pivot: u32, first: Seq<u32>, l: u32) -> bool {
    l / 2 != pivot && (values[l as int] > 0 || (values[l as int] == 0 && first.contains(spec_not(l))))
}

/// `t` is the first literal of `d` that ends the resolution.
pub open spec fn first_stop(d: Seq<u32>, pivot: u32, values: Seq<i8>, first: Seq<u32>, t: int) -> bool {
    &&& 0 <= t < d.len()
    &&& stops(values, pivot, first, d[t])
    &&& forall|s: int| 0 <= s < t ==> !stops(values, pivot, first, #[trigger] d[s])
}

/// How many literals of `c` occur in `s`.
pub open spec fn count_in(c: Seq<u32>, s: Seq<u32>) -> nat
    decreases c.len(),
{
    if c.len() == 0 {
        0
    } else {
        count_in(c.drop_last(), s) + if s.contains(c.last()) { 1nat } else { 0nat }
    }
}

/// The resolvent strengthens clause `c`: it is shorter and every one of
/// its literals is counted in `c`.
pub open spec fn strengthens(c: Seq<u32>, res: Seq<u32>) -> bool {
    res.len() < c.len() && count_in(c, res) >= res.len()
}

/// Whether `s` holds `l`.
pub(crate) fn has_lit(s: &Vec<u32>, l: u32) -> (b: bool)
    ensures
        b == s@.contains(l),
{
    let mut i: usize = 0;
    while i < s.len()
        invariant
            i <= s@.len(),
            forall|k: int| 0 <= k < i ==> s@[k] != l,
        decreases s@.len() - i,
    {
        if s[i] == l {
            return true;
        }
        i += 1;
    }
    false
}

/// How many literals of `c` occur in `s`.
fn count_lits_in(c: &Vec<u32>, s: &Vec<u32>) -> (n: usize)
    ensures
        n == count_in(c@, s@),
{
    let mut n: usize = 0;
    let mut j: usize = 0;
    while j < c.len()
        invariant
            j <= c@.len(),
            n == count_in(c@.take(j as int), s@),
            n <= j,
        decreases c@.len() - j,
    {
        proof {
            assert(c@.take(j + 1).drop_last() == c@.take(j as int));
        }
        if has_lit(s, c[j]) {
            n += 1;
        }
        j += 1;
    }
    proof {
        assert(c@.take(c@.len() as int) == c@);
    }
    n
}

/// Resolves the large clauses `c` and `d` on variable `pivot` under
/// `values`. Literals of the pivot and false literals are left out. A true
/// literal of `c` settles it first; then `d` is scanned in order until a
/// true literal or one whose negation is in the part of `c` kept, and its
/// literals already there are not repeated. An empty or unit resolvent is
/// reported as such; a longer one that strengthens a clause (is shorter
/// and has all its literals in it) is returned with which ones it
/// strengthens.
pub fn can_fast_resolve_large_large(c: &Vec<u32>, d: &Vec<u32>, pivot: u32, values: &Vec<i8>) -> (r: FastResolution)
    requires
        forall|j: int| 0 <= j < c@.len() ==> (#[trigger] c@[j] as int) < values@.len(),
        forall|j: int| 0 <= j < d@.len() ==> (#[trigger] d@[j] as int) < values@.len(),
    ensures
        any_true(c@, pivot, values@) <==> r is FirstSatisfied,
        !any_true(c@, pivot, values@) ==> {
            let first = kept_part(c@, pivot, values@);
            let res = first + added_part(d@, pivot, values@, first);
            &&& forall|t: int| #[trigger] first_stop(d@, pivot, values@, first, t) ==> if values@[d@[t] as int] > 0 {
                r is SecondSatisfied
            } else {
                r is Tautological
            }
            &&& (forall|t: int| 0 <= t < d@.len() ==> !stops(values@, pivot, first, #[trigger] d@[t])) ==> {
                &&& res.len() == 0 ==> r is Empty
                &&& res.len() == 1 ==> r == FastResolution::Unit(res[0])
                &&& res.len() >= 2 && (strengthens(c@, res) || strengthens(d@, res)) ==> (r matches FastResolution::Strengthened(v, a, b)
                    && v@ == res && a == strengthens(c@, res) && b == strengthens(d@, res))
                &&& res.len() >= 2 && !strengthens(c@, res) && !strengthens(d@, res) ==> r is Resolvable
            }
        },
{
    let mut first: Vec<u32> = Vec::new();
    let mut j: usize = 0;
    while j < c.len()
        invariant
            j <= c@.len(),
            forall|k: int| 0 <= k < c@.len() ==> (#[trigger] c@[k] as int) < values@.len(),
            first@ == kept_part(c@.take(j as int), pivot, values@),
            forall|k: int| 0 <= k < j ==> !true_other(values@, pivot, #[trigger] c@[k]),
        decreases c@.len() - j,
    {
        proof {
            assert(c@.take(j + 1).drop_last() == c@.take(j as int));
            assert(c@.take(j + 1).last() == c@[j as int]);
        }
        let l = c[j];
        if l / 2 != pivot {
            let v = values[l as usize];
            if v > 0 {
                proof {
                    assert(true_other(values@, pivot, c@[j as int]));
                }
                return FastResolution::FirstSatisfied;
            }
            if v == 0 {
                first.push(l);
            }
        }
        j += 1;
    }
    proof {
        assert(c@.take(c@.len() as int) == c@);
        assert(!any_true(c@, pivot, values@)) by {
            if any_true(c@, pivot, values@) {
                let k = choose|k: int| 0 <= k < c@.len() && true_other(values@, pivot, #[trigger] c@[k]);
                assert(!true_other(values@, pivot, c@[k]));
            }
        }
    }
    let ghost fs = first@;
    let mut res: Vec<u32> = Vec::new();
    let mut i: usize = 0;
    while i < first.len()
        invariant
            i <= first@.len(),
            res@ == first@.take(i as int),
            fs == first@,
            !any_true(c@, pivot, values@),
            fs == kept_part(c@, pivot, values@),
        decreases first@.len() - i,
    {
        res.push(first[i]);
        proof {
            assert(first@.take(i + 1) == first@.take(i as int).push(first@[i as int]));
        }
        i += 1;
    }
    proof {
        assert(first@.take(first@.len() as int) == first@);
    }
    let mut j: usize = 0;
    while j < d.len()
        invariant
            j <= d@.len(),
            first@ == fs,
            !any_true(c@, pivot, values@),
            fs == kept_part(c@, pivot, values@),
            forall|k: int| 0 <= k < d@.len() ==> (#[trigger] d@[k] as int) < values@.len(),
            res@ == fs + added_part(d@.take(j as int), pivot, values@, fs),
            forall|s: int| 0 <= s < j ==> !stops(values@, pivot, fs, #[trigger] d@[s]),
        decreases d@.len() - j,
    {
        proof {
            assert(d@.take(j + 1).drop_last() == d@.take(j as int));
            assert(d@.take(j + 1).last() == d@[j as int]);
        }
        let l = d[j];
        if l / 2 != pivot {
            let v = values[l as usize];
            if v > 0 {
                proof {
                    assert(first_stop(d@, pivot, values@, fs, j as int));
                }
                return FastResolution::SecondSatisfied;
            }
            if v == 0 {
                proof {
                    crate::literal::lemma_xor_one(l);
                }
                if has_lit(&first, l ^ 1) {
                    proof {
                        assert(first_stop(d@, pivot, values@, fs, j as int));
                    }
                    return FastResolution::Tautological;
                }
                if !has_lit(&first, l) {
                    res.push(l);
                }
            }
        }
        j += 1;
    }
    proof {
        assert(d@.take(d@.len() as int) == d@);
        assert forall|t: int| !#[trigger] first_stop(d@, pivot, values@, fs, t) by {
            if 0 <= t < d@.len() {
                assert(!stops(values@, pivot, fs, d@[t]));
            }
        }
    }
    let size = res.len();
    if size == 0 {
        return FastResolution::Empty;
    }
    if size == 1 {
        return FastResolution::Unit(res[0]);
    }
    let mut c_subsumed = false;
    if size < c.len() {
        c_subsumed = count_lits_in(c, &res) >= size;
    }
    let mut d_subsumed = false;
    if size < d.len() {
        d_subsumed = count_lits_in(d, &res) >= size;
    }
    if c_subsumed || d_subsumed {
        return FastResolution::Strengthened(res, c_subsumed, d_subsumed);
    }
    FastResolution::Resolvable
}

} // verus!
