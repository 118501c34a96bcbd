use kissat::kitten::{
    kitten_assume, kitten_binary, kitten_clause, kitten_clause_with_id_and_exception, kitten_clear,
    kitten_compute_clausal_core, kitten_embedded, kitten_failed, kitten_fixed, kitten_flip_literal,
    kitten_no_ticks_limit, kitten_randomize_phases, kitten_set_ticks_limit, kitten_shrink_to_clausal_core,
    kitten_solve, kitten_status, kitten_track_antecedents, kitten_traverse_core_clauses, kitten_traverse_core_ids,
    kitten_unit, kitten_value, status_to_string, KittenStatistics, INVALID,
};
use kissat::kitten::export_literal;
use kissat::kitten_shuffle::kitten_shuffle_clauses;

// External literal of variable `var`, negated or not.
fn elit(var: u32, negated: bool) -> u32 {
    2 * var + negated as u32
}

#[test]
fn sat_simple() {
    let mut stats = KittenStatistics::new();
    let mut kitten = kitten_embedded();
    // (v0 | v1) & (~v0 | v1)  =>  v1 true
    kitten_clause(&mut kitten, &mut stats, &[elit(0, false), elit(1, false)]).unwrap();
    kitten_clause(&mut kitten, &mut stats, &[elit(0, true), elit(1, false)]).unwrap();
    let res = kitten_solve(&mut kitten, &mut stats).unwrap();
    assert_eq!(res, 10);
    assert_eq!(kitten_status(&kitten), 10);
    assert_eq!(kitten_value(&kitten, elit(1, false)), 1);
    assert_eq!(kitten_value(&kitten, elit(1, true)), -1);
    assert!(stats.kitten_solved == 1);
    assert!(stats.kitten_ticks > 0);
}

#[test]
fn unsat_units_with_core() {
    let mut stats = KittenStatistics::new();
    let mut kitten = kitten_embedded();
    kitten_track_antecedents(&mut kitten);
    // v0 & ~v0
    kitten_clause_with_id_and_exception(&mut kitten, &mut stats, 7, &[elit(0, false)], INVALID).unwrap();
    kitten_clause_with_id_and_exception(&mut kitten, &mut stats, 8, &[elit(0, true)], INVALID).unwrap();
    let res = kitten_solve(&mut kitten, &mut stats).unwrap();
    assert_eq!(res, 20);
    let (original, _learned) = kitten_compute_clausal_core(&mut kitten);
    assert_eq!(original, 2);
    let mut ids = kitten_traverse_core_ids(&kitten);
    ids.sort_unstable();
    assert_eq!(ids, vec![7, 8]);
}

#[test]
fn unsat_search_with_core() {
    let mut stats = KittenStatistics::new();
    let mut kitten = kitten_embedded();
    kitten_track_antecedents(&mut kitten);
    // All 8 sign combinations over 3 vars: unsatisfiable, needs real search.
    let mut id = 0;
    for mask in 0..8u32 {
        let clause = [elit(0, mask & 1 != 0), elit(1, mask & 2 != 0), elit(2, mask & 4 != 0)];
        kitten_clause_with_id_and_exception(&mut kitten, &mut stats, id, &clause, INVALID).unwrap();
        id += 1;
    }
    let res = kitten_solve(&mut kitten, &mut stats).unwrap();
    assert_eq!(res, 20);
    let (original, learned) = kitten_compute_clausal_core(&mut kitten);
    assert!(original > 0 && original <= 8);
    assert!(learned > 0);
    let mut n_learned = 0u32;
    let mut n_original = 0u32;
    for (is_learned, lits) in kitten_traverse_core_clauses(&kitten) {
        if is_learned {
            n_learned += 1;
        } else {
            n_original += 1;
            assert_eq!(lits.len(), 3);
        }
    }
    assert_eq!(n_original, original);
    assert_eq!(n_learned as u64, learned);
}

#[test]
fn failed_assumptions() {
    let mut stats = KittenStatistics::new();
    let mut kitten = kitten_embedded();
    kitten_track_antecedents(&mut kitten);
    // v0 -> v1  (~v0 | v1)
    kitten_clause(&mut kitten, &mut stats, &[elit(0, true), elit(1, false)]).unwrap();
    kitten_assume(&mut kitten, elit(0, false));
    kitten_assume(&mut kitten, elit(1, true));
    let res = kitten_solve(&mut kitten, &mut stats).unwrap();
    assert_eq!(res, 20);
    assert!(kitten_failed(&kitten, elit(1, true)));
    // Incremental reuse: without assumptions the formula is satisfiable.
    let res = kitten_solve(&mut kitten, &mut stats).unwrap();
    assert_eq!(res, 10);
}

#[test]
fn flip_and_shuffle() {
    let mut stats = KittenStatistics::new();
    let mut kitten = kitten_embedded();
    // Two independent models: (v0 | v1)
    kitten_clause(&mut kitten, &mut stats, &[elit(0, false), elit(1, false)]).unwrap();
    kitten_randomize_phases(&mut kitten);
    let res = kitten_solve(&mut kitten, &mut stats).unwrap();
    assert_eq!(res, 10);
    let v0 = kitten_value(&kitten, elit(0, false));
    let v1 = kitten_value(&kitten, elit(1, false));
    assert!(v0 != 0 && v1 != 0);
    if v0 > 0 && v1 > 0 {
        assert!(kitten_flip_literal(&mut kitten, &mut stats, elit(0, false)));
        assert_eq!(kitten_value(&kitten, elit(0, false)), -1);
        assert!(!kitten_flip_literal(&mut kitten, &mut stats, elit(1, false)));
    } else {
        let sat = if v0 > 0 { elit(0, false) } else { elit(1, false) };
        assert!(!kitten_flip_literal(&mut kitten, &mut stats, sat));
    }
}

#[test]
fn clear_and_reuse() {
    let mut stats = KittenStatistics::new();
    let mut kitten = kitten_embedded();
    kitten_clause(&mut kitten, &mut stats, &[elit(0, false)]).unwrap();
    kitten_clause(&mut kitten, &mut stats, &[elit(0, true)]).unwrap();
    assert_eq!(kitten_solve(&mut kitten, &mut stats).unwrap(), 20);
    kitten_clear(&mut kitten);
    kitten_track_antecedents(&mut kitten);
    kitten_clause(&mut kitten, &mut stats, &[elit(3, false), elit(4, false)]).unwrap();
    assert_eq!(kitten_solve(&mut kitten, &mut stats).unwrap(), 10);
}

#[test]
fn ticks_limit_unknown() {
    let mut stats = KittenStatistics::new();
    let mut kitten = kitten_embedded();
    for mask in 0..8u32 {
        let clause = [elit(0, mask & 1 != 0), elit(1, mask & 2 != 0), elit(2, mask & 4 != 0)];
        kitten_clause(&mut kitten, &mut stats, &clause).unwrap();
    }
    kitten_set_ticks_limit(&mut kitten, &stats, 0);
    let res = kitten_solve(&mut kitten, &mut stats).unwrap();
    assert_eq!(res, 0);
    assert_eq!(kitten_status(&kitten), 0);
    kitten_no_ticks_limit(&mut kitten);
    assert_eq!(kitten_solve(&mut kitten, &mut stats).unwrap(), 20);
}

#[test]
fn status_names() {
    assert_eq!(status_to_string(10), "formula satisfied");
    assert_eq!(status_to_string(20), "formula inconsistent");
    assert_eq!(status_to_string(21), "formula inconsistent and core computed");
    assert_eq!(status_to_string(0), "formula unsolved");
}

#[test]
fn root_level_units_are_fixed() {
    let mut stats = KittenStatistics::new();
    let mut kitten = kitten_embedded();
    kitten_unit(&mut kitten, &mut stats, elit(0, false)).unwrap();
    kitten_binary(&mut kitten, &mut stats, elit(0, true), elit(1, false)).unwrap();
    kitten_clause(&mut kitten, &mut stats, &[elit(2, false), elit(3, false)]).unwrap();
    assert_eq!(kitten_solve(&mut kitten, &mut stats).unwrap(), 10);
    assert_eq!(kitten_fixed(&kitten, elit(0, false)), 1);
    assert_eq!(kitten_fixed(&kitten, elit(0, true)), -1);
    assert_eq!(kitten_fixed(&kitten, elit(1, false)), 1);
    assert_eq!(kitten_fixed(&kitten, elit(9, false)), 0);
    // A fixed literal cannot be flipped; neither can an unknown one.
    assert!(!kitten_flip_literal(&mut kitten, &mut stats, elit(0, false)));
    assert!(!kitten_flip_literal(&mut kitten, &mut stats, elit(9, false)));
}

#[test]
fn shuffled_formula_keeps_its_answers() {
    let mut stats = KittenStatistics::new();
    let mut kitten = kitten_embedded();
    for mask in 0..8u32 {
        if mask == 5 {
            continue;
        }
        let clause = [elit(0, mask & 1 != 0), elit(1, mask & 2 != 0), elit(2, mask & 4 != 0)];
        kitten_clause(&mut kitten, &mut stats, &clause).unwrap();
    }
    kitten_shuffle_clauses(&mut kitten);
    assert_eq!(kitten_solve(&mut kitten, &mut stats).unwrap(), 10);
    // The only model falsifies the missing clause (~v0 | v1 | ~v2).
    assert_eq!(kitten_value(&kitten, elit(0, false)), 1);
    assert_eq!(kitten_value(&kitten, elit(1, false)), -1);
    assert_eq!(kitten_value(&kitten, elit(2, false)), 1);
}

#[test]
fn shrink_keeps_only_the_core() {
    let mut stats = KittenStatistics::new();
    let mut kitten = kitten_embedded();
    kitten_track_antecedents(&mut kitten);
    kitten_clause_with_id_and_exception(&mut kitten, &mut stats, 1, &[elit(0, false), elit(1, false)], INVALID).unwrap();
    kitten_clause_with_id_and_exception(&mut kitten, &mut stats, 2, &[elit(5, false), elit(6, false)], INVALID).unwrap();
    kitten_clause_with_id_and_exception(&mut kitten, &mut stats, 3, &[elit(0, true)], INVALID).unwrap();
    kitten_clause_with_id_and_exception(&mut kitten, &mut stats, 4, &[elit(1, true)], INVALID).unwrap();
    assert_eq!(kitten_solve(&mut kitten, &mut stats).unwrap(), 20);
    let (original, _) = kitten_compute_clausal_core(&mut kitten);
    assert_eq!(original, 3);
    let mut ids = kitten_traverse_core_ids(&kitten);
    ids.sort_unstable();
    assert_eq!(ids, vec![1, 3, 4]);
    kitten_shrink_to_clausal_core(&mut kitten);
    assert_eq!(kitten_status(&kitten), 0);
    assert_eq!(kitten.klauses.len(), 3);
    assert_eq!(kitten_solve(&mut kitten, &mut stats).unwrap(), 20);
}

#[test]
fn negations_take_opposite_values() {
    let mut stats = KittenStatistics::new();
    let mut kitten = kitten_embedded();
    kitten_clause(&mut kitten, &mut stats, &[elit(0, false), elit(1, true)]).unwrap();
    kitten_clause(&mut kitten, &mut stats, &[elit(1, false), elit(2, false)]).unwrap();
    kitten_clause(&mut kitten, &mut stats, &[elit(2, true)]).unwrap();
    assert_eq!(kitten_solve(&mut kitten, &mut stats).unwrap(), 10);
    for var in 0..3 {
        let positive = kitten_value(&kitten, elit(var, false));
        assert_ne!(positive, 0);
        assert_eq!(kitten_value(&kitten, elit(var, true)), -positive);
    }
    // v2 false forces v1 true and then v0 true.
    assert_eq!(kitten_value(&kitten, elit(0, false)), 1);
    // A variable never mentioned has no value.
    assert_eq!(kitten_value(&kitten, elit(7, false)), 0);
}

#[test]
fn core_holds_every_antecedent_of_its_klauses() {
    let mut stats = KittenStatistics::new();
    let mut kitten = kitten_embedded();
    kitten_track_antecedents(&mut kitten);
    for mask in 0..8u32 {
        let clause = [elit(0, mask & 1 != 0), elit(1, mask & 2 != 0), elit(2, mask & 4 != 0)];
        kitten_clause_with_id_and_exception(&mut kitten, &mut stats, mask, &clause, INVALID).unwrap();
    }
    // A satisfiable side clause that the refutation does not need.
    kitten_clause(&mut kitten, &mut stats, &[elit(5, false), elit(6, false)]).unwrap();
    assert_eq!(kitten_solve(&mut kitten, &mut stats).unwrap(), 20);
    kitten_compute_clausal_core(&mut kitten);
    let in_core = |r: usize| kitten.klauses[r].flags & 1 != 0;
    let mut core_size = 0;
    for r in 0..kitten.klauses.len() {
        if in_core(r) {
            core_size += 1;
            for &a in &kitten.klauses[r].antecedents {
                assert!(in_core(a as usize), "antecedent {} of core klause {} is not in the core", a, r);
            }
        }
    }
    assert!(core_size > 0);
    assert!(!in_core(8), "the side clause is not needed");
}

#[test]
fn reported_model_satisfies_every_added_clause() {
    let mut stats = KittenStatistics::new();
    let mut kitten = kitten_embedded();
    // Random 3-literal clauses over 12 variables, each satisfied by the
    // planted assignment "variable v is true iff v is even".
    let mut seed: u64 = 12345;
    let mut next = |n: u64| {
        seed = seed.wrapping_mul(6364136223846793005).wrapping_add(1442695040888963407);
        (seed >> 33) % n
    };
    let mut clauses: Vec<Vec<u32>> = Vec::new();
    while clauses.len() < 50 {
        let mut vars: Vec<u32> = Vec::new();
        while vars.len() < 3 {
            let v = next(12) as u32;
            if !vars.contains(&v) {
                vars.push(v);
            }
        }
        let mut clause: Vec<u32> = vars.iter().map(|&v| elit(v, next(2) == 1)).collect();
        let planted_true = |e: u32| ((e / 2) % 2 == 0) == (e % 2 == 0);
        if !clause.iter().any(|&e| planted_true(e)) {
            clause[0] ^= 1;
        }
        clauses.push(clause);
    }
    for clause in &clauses {
        kitten_clause(&mut kitten, &mut stats, clause).unwrap();
    }
    assert_eq!(kitten_solve(&mut kitten, &mut stats).unwrap(), 10);
    for clause in &clauses {
        assert!(clause.iter().any(|&e| kitten_value(&kitten, e) == 1), "clause {:?} is falsified", clause);
    }
}

#[test]
fn exported_literals_are_the_imported_ones() {
    let mut stats = KittenStatistics::new();
    let mut kitten = kitten_embedded();
    let clause = [elit(9, true), elit(4, false), elit(7, true)];
    kitten_clause(&mut kitten, &mut stats, &clause).unwrap();
    let lits = kitten.klauses[0].lits.clone();
    assert_eq!(lits.len(), 3);
    for (j, &ilit) in lits.iter().enumerate() {
        assert_eq!(export_literal(&kitten, ilit), clause[j]);
    }
}

#[test]
fn assuming_after_solving_starts_afresh() {
    let mut stats = KittenStatistics::new();
    let mut kitten = kitten_embedded();
    kitten_clause(&mut kitten, &mut stats, &[elit(0, true), elit(1, false)]).unwrap();
    kitten_assume(&mut kitten, elit(0, false));
    kitten_assume(&mut kitten, elit(1, true));
    assert_eq!(kitten_solve(&mut kitten, &mut stats).unwrap(), 20);
    assert!(kitten_failed(&kitten, elit(1, true)));
    kitten_assume(&mut kitten, elit(5, false));
    assert_eq!(kitten_status(&kitten), 0);
    assert_eq!(kitten.assumptions.len(), 1);
    assert!(kitten.trail.is_empty());
    assert!(kitten.failed.iter().all(|&f| !f));
    assert_eq!(kitten_solve(&mut kitten, &mut stats).unwrap(), 10);
    assert_eq!(kitten_value(&kitten, elit(5, false)), 1);
}

#[test]
fn core_counts_split_original_and_learned() {
    let mut stats = KittenStatistics::new();
    let mut kitten = kitten_embedded();
    kitten_track_antecedents(&mut kitten);
    kitten_clause_with_id_and_exception(&mut kitten, &mut stats, 7, &[elit(0, false)], INVALID).unwrap();
    kitten_clause_with_id_and_exception(&mut kitten, &mut stats, 8, &[elit(0, true)], INVALID).unwrap();
    assert_eq!(kitten_solve(&mut kitten, &mut stats).unwrap(), 20);
    let (original, learned) = kitten_compute_clausal_core(&mut kitten);
    assert_eq!(original, 2);
    let mut ids = kitten_traverse_core_ids(&kitten);
    ids.sort();
    assert_eq!(ids, vec![7, 8]);
    let n_learned = kitten_traverse_core_clauses(&kitten).iter().filter(|(l, _)| *l).count() as u64;
    assert_eq!(n_learned, learned);
}

#[test]
fn solve_counts_each_answer() {
    let mut stats = KittenStatistics::new();
    let mut kitten = kitten_embedded();
    for mask in 0..8u32 {
        let clause = [elit(0, mask & 1 != 0), elit(1, mask & 2 != 0), elit(2, mask & 4 != 0)];
        kitten_clause(&mut kitten, &mut stats, &clause).unwrap();
    }
    kitten_set_ticks_limit(&mut kitten, &stats, 0);
    assert_eq!(kitten_solve(&mut kitten, &mut stats).unwrap(), 0);
    assert_eq!((stats.kitten_sat, stats.kitten_unsat, stats.kitten_unknown), (0, 0, 1));
    kitten_no_ticks_limit(&mut kitten);
    assert_eq!(kitten_solve(&mut kitten, &mut stats).unwrap(), 20);
    assert_eq!((stats.kitten_sat, stats.kitten_unsat, stats.kitten_unknown), (0, 1, 1));
    assert_eq!(stats.kitten_solved, 2);

    let mut sat = kitten_embedded();
    let mut s2 = KittenStatistics::new();
    kitten_clause(&mut sat, &mut s2, &[elit(0, false), elit(1, false)]).unwrap();
    assert_eq!(kitten_solve(&mut sat, &mut s2).unwrap(), 10);
    assert_eq!((s2.kitten_sat, s2.kitten_unsat, s2.kitten_unknown), (1, 0, 0));
}

#[test]
fn terminate_request_gives_unknown() {
    let mut stats = KittenStatistics::new();
    let mut kitten = kitten_embedded();
    kitten_clause(&mut kitten, &mut stats, &[elit(0, false), elit(1, false)]).unwrap();
    kitten_clause(&mut kitten, &mut stats, &[elit(0, true), elit(1, true)]).unwrap();
    stats.terminate = true;
    assert_eq!(kitten_solve(&mut kitten, &mut stats).unwrap(), 0);
    assert_eq!(kitten_status(&kitten), 0);
    stats.terminate = false;
    assert_eq!(kitten_solve(&mut kitten, &mut stats).unwrap(), 10);
}
