use cdcl_solver::literal::{Literal, SimpleLiteral};
use cdcl_solver::clause::{Clause, ClauseState, TwoPointerClause, same_clause};
use cdcl_solver::cdcl::StackElem;

use SimpleLiteral::{Negative, Positive};

fn clause(lits: Vec<SimpleLiteral>) -> TwoPointerClause {
    TwoPointerClause::new(lits)
}

#[test]
fn literal_value_is_its_variable() {
    assert_eq!(Positive(3).value(), 3);
    assert_eq!(Negative(5).value(), 5);
}

#[test]
fn literal_satisfaction_follows_the_assignment() {
    let vars = vec![Some(true), Some(false), None];
    assert!(Positive(0).is_satisfied(&vars));
    assert!(!Negative(0).is_satisfied(&vars));
    assert!(!Positive(1).is_satisfied(&vars));
    assert!(Negative(1).is_satisfied(&vars));
    assert!(!Positive(2).is_satisfied(&vars));
    assert!(!Negative(2).is_satisfied(&vars));
}

#[test]
fn new_clause_watches_first_two_literals() {
    let c = clause(vec![Positive(0), Negative(1), Positive(2)]);
    assert_eq!(c.pointer, (0, 1));
    assert_eq!(c.state, ClauseState::Open);
    let u = clause(vec![Negative(4)]);
    assert_eq!(u.pointer, (0, 0));
    assert_eq!(u.state, ClauseState::Unit(0));
    let e = clause(vec![]);
    assert_eq!(e.pointer, (0, 0));
    assert_eq!(e.state, ClauseState::Unit(0));
}

#[test]
fn update_all_false_is_unsatisfiable() {
    let mut c = clause(vec![Positive(0), Negative(1), Positive(2)]);
    c.update_clause_state(&vec![Some(false), Some(true), Some(false)]);
    assert_eq!(c.state, ClauseState::Unsatisfiable);
    assert_eq!(c.pointer, (0, 1));
}

#[test]
fn update_single_free_literal_is_unit() {
    let mut c = clause(vec![Positive(0), Negative(1), Positive(2)]);
    c.update_clause_state(&vec![Some(false), Some(true), None]);
    assert_eq!(c.state, ClauseState::Unit(2));
    let mut d = clause(vec![Positive(0), Negative(1), Positive(2)]);
    d.update_clause_state(&vec![Some(false), None, Some(false)]);
    assert_eq!(d.state, ClauseState::Unit(1));
}

#[test]
fn update_two_free_literals_is_open() {
    let mut c = clause(vec![Positive(0), Negative(1), Positive(2)]);
    c.update_clause_state(&vec![Some(false), None, None]);
    assert_eq!(c.state, ClauseState::Open);
}

#[test]
fn update_watched_true_literal_is_satisfied() {
    let mut c = clause(vec![Positive(0), Negative(1), Positive(2)]);
    c.update_clause_state(&vec![None, Some(false), None]);
    assert_eq!(c.state, ClauseState::Satisfied);
}

#[test]
fn update_true_literal_found_by_scan_is_satisfied() {
    let mut c = clause(vec![Positive(0), Negative(1), Positive(2)]);
    c.update_clause_state(&vec![Some(false), Some(true), Some(true)]);
    assert_eq!(c.state, ClauseState::Satisfied);
}

#[test]
fn update_free_literals_before_true_one_leave_clause_open() {
    let mut c = clause(vec![Positive(0), Positive(1), Positive(2), Positive(3), Positive(4)]);
    c.update_clause_state(&vec![Some(false), Some(false), None, None, Some(true)]);
    assert_eq!(c.state, ClauseState::Open);
}

#[test]
fn update_with_equal_watches_looks_at_one_literal() {
    let mut c = TwoPointerClause {
        literals: vec![Positive(0), Positive(1)],
        state: ClauseState::Open,
        pointer: (0, 0),
    };
    c.update_clause_state(&vec![Some(false), Some(true)]);
    assert_eq!(c.state, ClauseState::Unsatisfiable);
    c.update_clause_state(&vec![None, Some(true)]);
    assert_eq!(c.state, ClauseState::Unit(0));
}

#[test]
fn choose_unit_sets_the_literal_true() {
    let mut c = clause(vec![Positive(0), Negative(4)]);
    let mut a = vec![Some(false), None, None, None, None];
    c.update_clause_state(&a);
    assert_eq!(c.state, ClauseState::Unit(1));
    let l = c.chooseUnit(&mut a);
    assert_eq!(l, Negative(4));
    assert_eq!(a, vec![Some(false), None, None, None, Some(false)]);
    c.update_clause_state(&a);
    assert_eq!(c.state, ClauseState::Satisfied);
}

#[test]
fn resolute_merges_and_drops_the_pivot() {
    let mut antecedent = clause(vec![Positive(1), Negative(2)]);
    antecedent.state = ClauseState::Unit(0);
    let elem = StackElem::Implied(Positive(1), 0, antecedent);
    let mut conflict = clause(vec![Negative(1), Positive(3), Negative(2)]);
    let r = conflict.resolute(&elem);
    assert_eq!(r.literals, vec![Negative(2), Positive(3)]);
    assert_eq!(r.state, ClauseState::Unit(0));
    assert_eq!(r.pointer, (0, 1));
    assert_eq!(conflict.literals, vec![Negative(1), Positive(3), Negative(2)]);
}

#[test]
fn clone_and_comparison_agree() {
    let c = clause(vec![Positive(0), Negative(1)]);
    let d = c.clone();
    assert!(same_clause(&c, &d));
    let e = clause(vec![Negative(1), Positive(0)]);
    assert!(!same_clause(&c, &e));
}

#[test]
fn resolvent_holds_under_a_model_of_both_clauses() {
    let antecedent = clause(vec![Positive(1), Negative(2)]);
    let elem = StackElem::Implied(Positive(1), 0, antecedent);
    let mut other = clause(vec![Negative(1), Positive(3)]);
    let r = other.resolute(&elem);
    assert_eq!(r.literals, vec![Negative(2), Positive(3)]);
    let model = vec![Some(false), Some(false), Some(false), Some(true)];
    assert!(r.literals.iter().any(|l| l.is_satisfied(&model)));
    assert!(r.literals.iter().all(|l| l.value() != 1));
}
