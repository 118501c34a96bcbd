//! The literals of a DIMACS clause as the embedded solver takes them:
//! each variable once, and no clause at all when it holds a literal and
//! its negation.
use vstd::prelude::*;
use crate::kitten::{distinct_vars, MAX_ELIT};
use crate::literal::spec_not;

verus! {

/// The external literal of the non-zero DIMACS literal `l`: twice the
/// variable index (counted from 0) plus one when negated.
pub open spec fn elit_of(l: int) -> int {
    if l < 0 { 2 * (-l - 1) + 1 } else { 2 * (l - 1) }
}

/// A DIMACS literal the solver can take.
pub open spec fn importable(l: i32) -> bool {
    l != 0 && -0x2000_0000 <= l <= 0x2000_0000
}

/// Some literal of `lits` is the negation of another.
pub open spec fn tautological(lits: Seq<i32>) -> bool {
    exists|a: int, b: int| 0 <= a < lits.len() && 0 <= b < lits.len() && #[trigger] lits[a] == -#[trigger] lits[b]
}

/// `x` is the external literal of one of the first `n` literals.
pub open spec fn from_prefix(lits: Seq<i32>, n: int, x: int) -> bool {
    exists|k: int| 0 <= k < n && x == elit_of(#[trigger] lits[k] as int)
}

/// `x` is one of the literals of `c`.
pub open spec fn in_clause(c: Seq<u32>, x: int) -> bool {
    exists|j: int| 0 <= j < c.len() && #[trigger] c[j] as int == x
}

/// The external literal of one DIMACS literal.
pub fn external_literal(l: i32) -> (e: u32)
    requires
        importable(l),
    ensures
        e as int == elit_of(l as int),
        e < MAX_ELIT,
{
    if l < 0 {
        let v = (-(l as i64) - 1) as u32;
        2 * v + 1
    } else {
        let v = (l - 1) as u32;
        2 * v
    }
}

proof fn lemma_elit_of(a: int, b: int)
    requires
        a != 0,
        b != 0,
    ensures
        (elit_of(a) / 2 == elit_of(b) / 2) <==> (a == b || a == -b),
        elit_of(a) == elit_of(b) <==> a == b,
        elit_of(a) >= 0,
{
}

/// The external literals of the DIMACS clause `lits`, each once; `None`
/// when the clause holds a literal and its negation.
pub fn clause_literals(lits: &[i32]) -> (r: Option<Vec<u32>>)
    requires
        forall|i: int| 0 <= i < lits@.len() ==> importable(#[trigger] lits@[i]),
    ensures
        r is None <==> tautological(lits@),
        r matches Some(c) ==> {
            &&& distinct_vars(c@)
            &&& forall|j: int| 0 <= j < c@.len() ==> #[trigger] c@[j] < MAX_ELIT
            &&& forall|j: int| 0 <= j < c@.len() ==> from_prefix(lits@, lits@.len() as int, #[trigger] c@[j] as int)
            &&& forall|i: int| 0 <= i < lits@.len() ==> in_clause(c@, elit_of(#[trigger] lits@[i] as int))
        },
{
    let mut c: Vec<u32> = Vec::new();
    let mut i: usize = 0;
    while i < lits.len()
        invariant
            i <= lits@.len(),
            forall|k: int| 0 <= k < lits@.len() ==> importable(#[trigger] lits@[k]),
            distinct_vars(c@),
            forall|j: int| 0 <= j < c@.len() ==> #[trigger] c@[j] < MAX_ELIT,
            forall|j: int| 0 <= j < c@.len() ==> from_prefix(lits@, i as int, #[trigger] c@[j] as int),
            forall|k: int| 0 <= k < i ==> in_clause(c@, elit_of(#[trigger] lits@[k] as int)),
            forall|a: int, b: int| 0 <= a < i && 0 <= b < i ==> #[trigger] lits@[a] != -#[trigger] lits@[b],
        decreases lits@.len() - i,
    {
        let l = lits[i];
        let e = external_literal(l);
        let mut j: usize = 0;
        let mut seen = false;
        while j < c.len()
            invariant_except_break
                !seen,
            invariant
                j <= c@.len(),
                e as int == elit_of(l as int),
                i < lits@.len(),
                l == lits@[i as int],
                forall|k: int| 0 <= k < lits@.len() ==> importable(#[trigger] lits@[k]),
                forall|m: int| 0 <= m < c@.len() ==> from_prefix(lits@, i as int, #[trigger] c@[m] as int),
                forall|m: int| 0 <= m < j ==> #[trigger] c@[m] / 2 != e / 2,
            ensures
                seen ==> j < c@.len() && c@[j as int] == e,
                !seen ==> forall|m: int| 0 <= m < c@.len() ==> #[trigger] c@[m] / 2 != e / 2,
            decreases c@.len() - j,
        {
            if c[j] / 2 == e / 2 {
                if c[j] != e {
                    proof {
                        let cj = c@[j as int];
                        assert(from_prefix(lits@, i as int, cj as int));
                        let k = choose|k: int| 0 <= k < i && cj as int == elit_of(#[trigger] lits@[k] as int);
                        lemma_elit_of(lits@[k] as int, l as int);
                        assert(lits@[k] == -lits@[i as int]);
                        assert(tautological(lits@));
                    }
                    return None;
                }
                seen = true;
                break;
            }
            j += 1;
        }
        let ghost c0 = c@;
        if !seen {
            c.push(e);
        }
        proof {
            let n = i as int;
            if !seen {
                assert(c@ == c0.push(e));
                assert forall|a: int, b: int| 0 <= a < c@.len() && 0 <= b < c@.len() && a != b implies #[trigger] (c@[a] / 2) != #[trigger] (c@[b] / 2) by {
                    if a < c0.len() && b < c0.len() {
                        assert(c@[a] == c0[a] && c@[b] == c0[b]);
                    } else if a < c0.len() {
                        assert(c@[a] == c0[a]);
                    } else {
                        assert(c@[b] == c0[b]);
                    }
                }
            }
            assert forall|m: int| 0 <= m < c@.len() implies from_prefix(lits@, n + 1, #[trigger] c@[m] as int) by {
                if m < c0.len() {
                    assert(c@[m] == c0[m]);
                    assert(from_prefix(lits@, n, c0[m] as int));
                    let k = choose|k: int| 0 <= k < n && c0[m] as int == elit_of(#[trigger] lits@[k] as int);
                    assert(c@[m] as int == elit_of(lits@[k] as int));
                } else {
                    assert(c@[m] as int == elit_of(lits@[n] as int));
                }
            }
            assert forall|k: int| 0 <= k < n + 1 implies in_clause(c@, elit_of(#[trigger] lits@[k] as int)) by {
                if k < n {
                    assert(in_clause(c0, elit_of(lits@[k] as int)));
                    let m = choose|m: int| 0 <= m < c0.len() && #[trigger] c0[m] as int == elit_of(lits@[k] as int);
                    assert(c@[m] == c0[m]);
                } else if seen {
                    assert(c@[j as int] as int == elit_of(lits@[k] as int));
                } else {
                    assert(c@[c0.len() as int] as int == elit_of(lits@[k] as int));
                }
            }
            assert forall|a: int, b: int| 0 <= a < n + 1 && 0 <= b < n + 1 implies #[trigger] lits@[a] != -#[trigger] lits@[b] by {
                if a == n || b == n {
                    let o = if a == n { b } else { a };
                    if o < n && lits@[o] == -l {
                        assert(in_clause(c0, elit_of(lits@[o] as int)));
                        let m = choose|m: int| 0 <= m < c0.len() && #[trigger] c0[m] as int == elit_of(lits@[o] as int);
                        lemma_elit_of(lits@[o] as int, l as int);
                        if seen {
                            assert(c0[m] / 2 == c0[j as int] / 2);
                            assert(c0[m] != c0[j as int]);
                        } else {
                            assert(c0[m] / 2 != e / 2);
                        }
                    }
                }
            }
        }
        i += 1;
    }
    proof {
        if tautological(lits@) {
            let (a, b) = choose|a: int, b: int| 0 <= a < lits@.len() && 0 <= b < lits@.len() && #[trigger] lits@[a] == -#[trigger] lits@[b];
            assert(lits@[a] != -lits@[b]);
        }
    }
    Some(c)
}

} // verus!
