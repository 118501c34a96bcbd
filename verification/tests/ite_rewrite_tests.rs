use std::collections::VecDeque;

use kissat::congruence::{
    classify_matching_clause, ite_case, matchable_variables, rewrite_ite_gate, Closure, Gate, IteCase, IteRewrite, MatchCandidate, AND_GATE,
    INVALID, ITE_GATE, XOR_GATE,
};

fn closure_with_ite(lhs: u32, c: u32, t: u32, e: u32) -> Closure {
    Closure {
        scheduled: Vec::new(),
        occurrences: Vec::new(),
        garbage: Vec::new(),
        lits: Vec::new(),
        rhs: Vec::new(),
        unsimplified: Vec::new(),
        binaries: Vec::new(),
        schedule: VecDeque::new(),
        repr: Vec::new(),
        hash_table: Vec::new(),
        hash_entries: 0,
        nonces: [0; 16],
        units: 0,
        negbincount: Vec::new(),
        largecount: Vec::new(),
        condbin: Vec::new(),
        condeq: Vec::new(),
        chain: Vec::new(),
        gates: vec![Gate {
            lhs,
            hash: 7,
            tag: ITE_GATE,
            garbage: false,
            indexed: true,
            marked: false,
            shrunken: false,
            arity: 3,
            rhs: vec![c, t, e],
        }],
    }
}

// Gate x0 = x1 ? x2 : x3, literals 2 * var + sign.

#[test]
fn condition_equal_to_then_gives_or() {
    // x1 == x2: x1 ? x2 : x3 == x2 | x3 == !(!x2 & !x3)
    let mut cl = closure_with_ite(0, 2, 4, 6);
    assert!(matches!(rewrite_ite_gate(&mut cl, 0, 4, 2), IteRewrite::Shrunken));
    let g = &cl.gates[0];
    assert_eq!((g.lhs, g.tag, g.arity, g.rhs.clone()), (1, AND_GATE, 2, vec![5, 7, INVALID]));
    assert!(g.shrunken);
    assert_eq!(g.hash, 7);
}

#[test]
fn then_equal_to_negated_else_gives_xor() {
    // x2 == !x3: x1 ? !x3 : x3 == x1 ^ x3
    let mut cl = closure_with_ite(0, 2, 4, 6);
    assert!(matches!(rewrite_ite_gate(&mut cl, 0, 7, 4), IteRewrite::Shrunken));
    let g = &cl.gates[0];
    assert_eq!((g.lhs, g.tag, g.rhs.clone()), (0, XOR_GATE, vec![2, 6, INVALID]));
}

#[test]
fn equal_branches_merge() {
    // x3 == x2: x1 ? x2 : x2 == x2
    let mut cl = closure_with_ite(0, 2, 4, 6);
    assert!(matches!(rewrite_ite_gate(&mut cl, 0, 4, 6), IteRewrite::Merge(0, 4)));
    assert_eq!(cl.gates[0].rhs, vec![2, 4, 6]);
}

#[test]
fn other_literal_substituted() {
    let mut cl = closure_with_ite(0, 2, 4, 6);
    assert!(matches!(rewrite_ite_gate(&mut cl, 0, 8, 4), IteRewrite::Substituted));
    assert_eq!(cl.gates[0].rhs, vec![2, 8, 6]);
    assert_eq!(cl.gates[0].tag, ITE_GATE);
}

#[test]
fn absent_or_garbage_gate_skipped() {
    let mut cl = closure_with_ite(0, 2, 4, 6);
    assert!(matches!(rewrite_ite_gate(&mut cl, 0, 8, 10), IteRewrite::Skipped));
    cl.gates[0].garbage = true;
    assert!(matches!(rewrite_ite_gate(&mut cl, 0, 8, 2), IteRewrite::Skipped));
    assert_eq!(cl.gates[0].rhs, vec![2, 4, 6]);
}

#[test]
fn else_equal_to_negated_then_gives_negated_xor() {
    // x3 == !x2: x1 ? x2 : !x2 == !(x1 ^ x2)
    match ite_case(0, 2, 4, 6, 6, 5) {
        IteCase::Two(o, tag, a, b) => assert_eq!((o, tag, a, b), (1, XOR_GATE, 2, 4)),
        _ => panic!("expected a two-input gate"),
    }
}

#[test]
fn matching_candidates_by_representatives() {
    let mut cl = closure_with_ite(0, 2, 4, 6);
    // variable 2 is merged into variable 0
    cl.repr = vec![0, 1, 2, 3, 0, 1];
    let values = vec![0i8; 6];
    let matchable = vec![true, false, true];
    assert!(matches!(classify_matching_clause(&cl, &vec![0, 4], &values, &matchable), MatchCandidate::Candidate(1)));
    assert!(matches!(classify_matching_clause(&cl, &vec![0, 2, 4], &values, &matchable), MatchCandidate::Candidate(2)));
    assert!(matches!(classify_matching_clause(&cl, &vec![0, 5], &values, &matchable), MatchCandidate::Garbage));
    assert!(matches!(classify_matching_clause(&cl, &vec![2], &values, &matchable), MatchCandidate::Unmatchable));
    let mut assigned = values.clone();
    assigned[2] = 1;
    assigned[3] = -1;
    assert!(matches!(classify_matching_clause(&cl, &vec![0, 2], &assigned, &matchable), MatchCandidate::Garbage));
    assert!(matches!(classify_matching_clause(&cl, &vec![0, 3], &assigned, &matchable), MatchCandidate::Candidate(1)));
}

#[test]
fn matchable_variables_of_merged_literals() {
    let mut cl = closure_with_ite(0, 2, 4, 6);
    // variable 2 is merged into variable 0; variable 3 is inactive but merged into variable 1
    cl.repr = vec![0, 1, 2, 3, 0, 1, 2, 3];
    let (m, count) = matchable_variables(&cl, &vec![true, true, true, false]);
    assert_eq!(m, vec![true, false, true, false]);
    assert_eq!(count, 2);
}
