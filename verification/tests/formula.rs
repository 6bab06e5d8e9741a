use cdcl_solver::literal::SimpleLiteral;
use cdcl_solver::clause::{Clause, ClauseState, TwoPointerClause};
use cdcl_solver::formula::{Formula, FormulaInstance, FormulaState};

use SimpleLiteral::{Negative, Positive};

fn clause(lits: Vec<SimpleLiteral>) -> TwoPointerClause {
    TwoPointerClause::new(lits)
}

#[test]
fn new_formula_has_unassigned_variables_and_no_repeated_clause() {
    let f = FormulaInstance::new(
        3,
        vec![clause(vec![Positive(0), Negative(1)]), clause(vec![Positive(0), Negative(1)]), clause(vec![Positive(2)])],
    );
    assert_eq!(f.assignments, vec![None, None, None]);
    assert_eq!(f.clauses.len(), 2);
    assert!(f.is_well_formed());
}

#[test]
fn add_and_remove_clause() {
    let mut f = FormulaInstance::new(2, vec![clause(vec![Positive(0), Negative(1)])]);
    f.add_clause(clause(vec![Positive(0), Negative(1)]));
    assert_eq!(f.clauses.len(), 1);
    f.add_clause(clause(vec![Positive(1)]));
    assert_eq!(f.clauses.len(), 2);
    f.remove_clause(&clause(vec![Positive(1)]));
    assert_eq!(f.clauses.len(), 1);
    assert_eq!(f.clauses[0].literals, vec![Positive(0), Negative(1)]);
    f.remove_clause(&clause(vec![Negative(0)]));
    assert_eq!(f.clauses.len(), 1);
}

#[test]
fn unassigned_variables_and_choice() {
    let mut f = FormulaInstance::new(2, vec![]);
    assert!(f.hasUnassignedVars());
    f.choose_variable(0, Some(true));
    assert!(f.hasUnassignedVars());
    f.choose_variable(1, Some(false));
    assert!(!f.hasUnassignedVars());
    assert_eq!(f.assignments, vec![Some(true), Some(false)]);
    f.choose_variable(1, None);
    assert_eq!(f.assignments, vec![Some(true), None]);
}

#[test]
fn form_state_prefers_conflict_over_unit() {
    let mut f = FormulaInstance::new(
        3,
        vec![clause(vec![Positive(0), Positive(1)]), clause(vec![Negative(0), Positive(2)]), clause(vec![Positive(0), Negative(2)])],
    );
    f.choose_variable(0, Some(false));
    f.choose_variable(2, Some(true));
    match f.form_state() {
        FormulaState::Conflict(c) => {
            assert_eq!(c.literals, vec![Positive(0), Negative(2)]);
            assert_eq!(c.state, ClauseState::Unsatisfiable);
        },
        other => panic!("expected a conflict, got {:?}", other),
    }
}

#[test]
fn form_state_reports_unit_then_else() {
    let mut f = FormulaInstance::new(2, vec![clause(vec![Positive(0), Positive(1)])]);
    assert!(matches!(f.form_state(), FormulaState::Else));
    f.choose_variable(0, Some(false));
    match f.form_state() {
        FormulaState::Unit(c) => assert_eq!(c.state, ClauseState::Unit(1)),
        other => panic!("expected a unit clause, got {:?}", other),
    }
    f.choose_variable(1, Some(true));
    assert!(matches!(f.form_state(), FormulaState::Else));
    assert_eq!(f.clauses[0].state, ClauseState::Satisfied);
}

#[test]
fn well_formedness_rejects_out_of_range_variables_and_empty_clauses() {
    let f = FormulaInstance::new(2, vec![clause(vec![Positive(2)])]);
    assert!(!f.is_well_formed());
    let g = FormulaInstance::new(2, vec![clause(vec![])]);
    assert!(!g.is_well_formed());
    let h = FormulaInstance { assignments: vec![None], clauses: vec![clause(vec![Positive(0)]), clause(vec![Positive(0)])] };
    assert!(!h.is_well_formed());
}

#[test]
fn second_form_state_changes_nothing() {
    let mut f = FormulaInstance::new(
        3,
        vec![clause(vec![Positive(0), Positive(1)]), clause(vec![Negative(0), Positive(2)]), clause(vec![Negative(2)])],
    );
    f.choose_variable(0, Some(true));
    let _ = f.form_state();
    let first: Vec<(Vec<SimpleLiteral>, ClauseState, (usize, usize))> =
        f.clauses.iter().map(|c| (c.literals.clone(), c.state, c.pointer)).collect();
    let _ = f.form_state();
    let second: Vec<(Vec<SimpleLiteral>, ClauseState, (usize, usize))> =
        f.clauses.iter().map(|c| (c.literals.clone(), c.state, c.pointer)).collect();
    assert_eq!(first.len(), 3);
    for c in &first {
        assert!(second.contains(c));
    }
    assert_eq!(second.len(), 3);
}

#[test]
fn resetting_a_variable_restores_the_assignment() {
    let mut f = FormulaInstance::new(2, vec![]);
    f.choose_variable(1, Some(true));
    let before = f.assignments.clone();
    f.choose_variable(1, Some(false));
    f.choose_variable(1, before[1]);
    assert_eq!(f.assignments, before);
}
