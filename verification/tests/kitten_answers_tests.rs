use kissat::kitten::{kitten_clause, kitten_embedded, KittenStatistics};
use kissat::kitten_answers::{confirm_refuted, implied, propagate_refutes, snapshot};

#[test]
fn unit_propagation_finds_contradiction() {
    // (v0 | v1) & (!v0 | v1) & !v1
    let f = vec![vec![0, 2], vec![1, 2], vec![3]];
    assert!(propagate_refutes(&f, &vec![], 4, 4));
}

#[test]
fn unit_propagation_leaves_satisfiable_formula() {
    let f = vec![vec![0, 2], vec![1, 2]];
    assert!(!propagate_refutes(&f, &vec![], 4, 4));
    assert!(!propagate_refutes(&f, &vec![0], 4, 4));
}

#[test]
fn unit_propagation_from_assumptions() {
    // v0 -> v1, assume v0 and !v1
    let f = vec![vec![1, 2]];
    assert!(propagate_refutes(&f, &vec![0, 3], 4, 4));
    assert!(!propagate_refutes(&f, &vec![0, 2], 4, 4));
    // an assumption and its negation
    assert!(propagate_refutes(&vec![], &vec![0, 1], 4, 4));
}

#[test]
fn reverse_unit_propagation() {
    let f = vec![vec![0, 2], vec![1, 2]];
    assert!(implied(&f, &vec![2], 4, 4));
    assert!(implied(&f, &vec![2, 0], 4, 4));
    assert!(!implied(&f, &vec![0], 4, 4));
    assert!(!implied(&f, &vec![3], 4, 4));
}

#[test]
fn snapshot_and_confirmation() {
    let mut stats = KittenStatistics::new();
    let mut kitten = kitten_embedded();
    kitten_clause(&mut kitten, &mut stats, &[0]).unwrap();
    kitten_clause(&mut kitten, &mut stats, &[1]).unwrap();
    let snap = snapshot(&kitten);
    assert_eq!(snap, vec![vec![0], vec![1]]);
    assert!(confirm_refuted(&snap, &kitten));

    let mut sat = kitten_embedded();
    kitten_clause(&mut sat, &mut stats, &[0, 2]).unwrap();
    let snap = snapshot(&sat);
    assert!(!confirm_refuted(&snap, &sat));
}
