use std::collections::VecDeque;

use kissat::congruence::{
    dequeue_next_scheduled_literal, find_binary, find_litpair_second_literal, find_repr, gate_contains, hash_lits,
    inc_lits, less_litpair, match_lits, normalize_ite_lits, parity_lits, rank_litpair, reduce_hash, schedule_literal,
    search_condeq, smaller_negated_bin_count, extract_condeq_pairs, sort_references_by_clause_size, Closure, Gate,
    LitPair, OffsetSize, RefSize, AND_GATE, XOR_GATE,
};

fn closure(vars: usize) -> Closure {
    Closure {
        scheduled: vec![false; vars],
        occurrences: Vec::new(),
        garbage: Vec::new(),
        lits: Vec::new(),
        rhs: Vec::new(),
        unsimplified: Vec::new(),
        binaries: Vec::new(),
        schedule: VecDeque::new(),
        repr: Vec::new(),
        hash_table: Vec::new(),
        hash_entries: 0,
        nonces: [0; 16],
        units: 0,
        negbincount: Vec::new(),
        largecount: Vec::new(),
        condbin: Vec::new(),
        condeq: Vec::new(),
        chain: Vec::new(),
        gates: Vec::new(),
    }
}

fn pair(a: u32, b: u32) -> LitPair {
    LitPair { lits: [a, b] }
}

#[test]
fn parity_counts_negative_literals() {
    assert_eq!(parity_lits(&[2, 3, 5]), 0);
    assert_eq!(parity_lits(&[3]), 1);
    assert_eq!(parity_lits(&[]), 0);
}

#[test]
fn inc_lits_counts_in_binary() {
    let mut lits = [3, 5, 4, 6];
    inc_lits(&mut lits);
    assert_eq!(lits, [2, 4, 5, 6]);
    let mut lits = [2, 4];
    inc_lits(&mut lits);
    assert_eq!(lits, [3, 4]);
}

#[test]
fn ite_condition_and_then_branch_become_positive() {
    let mut lits = [3, 4, 7];
    assert!(normalize_ite_lits(&mut lits));
    assert_eq!(lits, [2, 6, 5]);
    let mut lits = [2, 4, 7];
    assert!(!normalize_ite_lits(&mut lits));
    assert_eq!(lits, [2, 4, 7]);
}

#[test]
fn reduced_hash_is_in_range() {
    assert_eq!(reduce_hash(13, 5, 8), 0);
    assert_eq!(reduce_hash(3, 5, 8), 3);
    assert_eq!(reduce_hash(0xffff_ffff, 8, 8), 7);
}

#[test]
fn hash_depends_on_kind_and_order() {
    let mut nonces = [0u64; 16];
    for (i, n) in nonces.iter_mut().enumerate() {
        *n = ((i as u64) + 1).wrapping_mul(0x9e3779b97f4a7c15);
    }
    assert_eq!(hash_lits(&nonces, 0, &[2, 4]), 61635567);
    assert_eq!(hash_lits(&nonces, 1, &[2, 4]), 1767647004);
    assert_eq!(hash_lits(&nonces, 0, &[4, 2]), 1766545549);
}

#[test]
fn representatives_follow_the_chain() {
    let mut c = closure(3);
    c.repr = vec![0, 0, 2, 2, 1, 5];
    assert_eq!(find_repr(&c, 4), 0);
    assert_eq!(find_repr(&c, 3), 2);
    assert_eq!(find_repr(&c, 5), 5);
}

#[test]
fn schedule_is_first_in_first_out() {
    let mut c = closure(4);
    schedule_literal(&mut c, 4);
    schedule_literal(&mut c, 7);
    schedule_literal(&mut c, 5);
    assert_eq!(c.schedule.len(), 2);
    assert_eq!(dequeue_next_scheduled_literal(&mut c), 4);
    assert!(!c.scheduled[2]);
    assert!(c.scheduled[3]);
    assert_eq!(dequeue_next_scheduled_literal(&mut c), 7);
    assert!(c.schedule.is_empty());
}

#[test]
fn binary_lookup_under_the_smaller_literal() {
    let binaries = vec![pair(2, 5), pair(2, 7), pair(2, 9)];
    let offsetsize = vec![
        OffsetSize { offset: 0, size: 0 },
        OffsetSize { offset: 0, size: 0 },
        OffsetSize { offset: 0, size: 3 },
    ];
    assert!(find_binary(&binaries, &offsetsize, 7, 2));
    assert!(find_binary(&binaries, &offsetsize, 2, 9));
    assert!(!find_binary(&binaries, &offsetsize, 2, 8));
}

#[test]
fn pairs_order_lexicographically() {
    assert_eq!(rank_litpair(&pair(1, 2)), (1u64 << 32) + 2);
    assert!(less_litpair(&pair(1, 9), &pair(2, 0)));
    assert!(less_litpair(&pair(2, 3), &pair(2, 4)));
    assert!(!less_litpair(&pair(2, 4), &pair(2, 4)));
    assert!(smaller_negated_bin_count(&[3, 1, 1], 1, 2));
    assert!(!smaller_negated_bin_count(&[3, 1, 1], 0, 1));
    assert!(!smaller_negated_bin_count(&[3, 1, 1], 2, 1));
}

#[test]
fn second_literal_search() {
    let pairs = [pair(4, 3), pair(4, 7), pair(4, 10)];
    assert!(find_litpair_second_literal(7, &pairs));
    assert!(find_litpair_second_literal(3, &pairs));
    assert!(!find_litpair_second_literal(8, &pairs));
    assert!(!find_litpair_second_literal(0, &[]));
}

#[test]
fn conditional_equivalences_from_binary_clauses() {
    let pos = [pair(4, 6), pair(4, 9)];
    let neg = [pair(5, 7), pair(5, 10)];
    let mut condeq = Vec::new();
    search_condeq(4, &pos, 5, &neg, &mut condeq);
    assert_eq!(condeq.len(), 2);
    assert_eq!(condeq[0].lits, [4, 7]);
    assert_eq!(condeq[1].lits, [6, 5]);
}

#[test]
fn gate_matching() {
    let gate = Gate {
        lhs: 10,
        hash: 77,
        tag: AND_GATE,
        garbage: false,
        indexed: true,
        marked: false,
        shrunken: false,
        arity: 2,
        rhs: vec![2, 4, 99],
    };
    assert!(match_lits(&gate, AND_GATE, 77, 2, &[2, 4]));
    assert!(!match_lits(&gate, XOR_GATE, 77, 2, &[2, 4]));
    assert!(!match_lits(&gate, AND_GATE, 77, 2, &[2, 5]));
    assert!(!match_lits(&gate, AND_GATE, 78, 2, &[2, 4]));
    assert!(gate_contains(&gate, 4));
    assert!(!gate_contains(&gate, 99));
}

#[test]
fn condeqs_of_literal_and_negation_runs() {
    // runs: 4 -> {6, 9}, 5 -> {7, 10}, 8 -> {2}, 11 -> {3}
    let condbin = [pair(4, 6), pair(4, 9), pair(5, 7), pair(5, 10), pair(8, 2), pair(11, 3)];
    let mut condeq = Vec::new();
    extract_condeq_pairs(0, &condbin, &mut condeq);
    assert_eq!(condeq.len(), 2);
    assert_eq!(condeq[0].lits, [4, 7]);
    assert_eq!(condeq[1].lits, [6, 5]);
}

#[test]
fn references_sorted_by_size_stably() {
    let mut refs = [
        RefSize { ref_: 1, size: 3 },
        RefSize { ref_: 2, size: 2 },
        RefSize { ref_: 3, size: 3 },
        RefSize { ref_: 4, size: 1 },
        RefSize { ref_: 5, size: 2 },
    ];
    sort_references_by_clause_size(&mut refs);
    let order: Vec<u32> = refs.iter().map(|r| r.ref_).collect();
    assert_eq!(order, vec![4, 2, 5, 1, 3]);
}
