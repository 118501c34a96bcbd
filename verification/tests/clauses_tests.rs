use kissat::clauses::{clause_literals, external_literal};

#[test]
fn repeated_literals_are_merged() {
    assert_eq!(clause_literals(&[1, -2, 1, -2]), Some(vec![0, 3]));
    assert_eq!(clause_literals(&[3]), Some(vec![4]));
    assert_eq!(clause_literals(&[]), Some(vec![]));
}

#[test]
fn tautologies_are_left_out() {
    assert_eq!(clause_literals(&[1, 2, -1]), None);
    assert_eq!(clause_literals(&[-5, 5]), None);
}

#[test]
fn external_literals_follow_the_encoding() {
    assert_eq!(external_literal(1), 0);
    assert_eq!(external_literal(-1), 1);
    assert_eq!(external_literal(7), 12);
    assert_eq!(external_literal(-7), 13);
}
