use kissat::fastel::{can_fast_resolve_large_large, FastResolution};

fn unassigned() -> Vec<i8> {
    vec![0; 6]
}

#[test]
fn resolvent_strengthening_nothing() {
    let r = can_fast_resolve_large_large(&vec![0, 2], &vec![1, 4], 0, &unassigned());
    assert!(matches!(r, FastResolution::Resolvable));
}

#[test]
fn resolvent_strengthens_first_clause() {
    let r = can_fast_resolve_large_large(&vec![0, 2, 4], &vec![1, 2], 0, &unassigned());
    match r {
        FastResolution::Strengthened(res, first, second) => {
            assert_eq!(res, vec![2, 4]);
            assert!(first);
            assert!(!second);
        }
        _ => panic!("expected a strengthening resolvent"),
    }
}

#[test]
fn tautological_resolvent() {
    let r = can_fast_resolve_large_large(&vec![0, 2], &vec![1, 3], 0, &unassigned());
    assert!(matches!(r, FastResolution::Tautological));
}

#[test]
fn satisfied_clauses() {
    let mut values = unassigned();
    values[2] = 1;
    values[3] = -1;
    let r = can_fast_resolve_large_large(&vec![0, 2], &vec![1, 4], 0, &values);
    assert!(matches!(r, FastResolution::FirstSatisfied));
    let mut values = unassigned();
    values[4] = 1;
    values[5] = -1;
    let r = can_fast_resolve_large_large(&vec![0, 2], &vec![1, 4], 0, &values);
    assert!(matches!(r, FastResolution::SecondSatisfied));
}

#[test]
fn empty_and_unit_resolvents() {
    let mut values = unassigned();
    values[2] = 1;
    values[3] = -1;
    let r = can_fast_resolve_large_large(&vec![0, 3], &vec![1], 0, &values);
    assert!(matches!(r, FastResolution::Empty));
    let r = can_fast_resolve_large_large(&vec![0, 2], &vec![1], 0, &unassigned());
    assert!(matches!(r, FastResolution::Unit(2)));
}
