use std::sync::mpsc::channel;

use cdcl_solver::literal::{Literal, SimpleLiteral};
use cdcl_solver::clause::{Clause, ClauseState, TwoPointerClause};
use cdcl_solver::formula::{Formula, FormulaInstance};
use cdcl_solver::cdcl::{AnalysisOutcome, CdCl, CdClInstance, SearchEnd, StackElem, first_unassigned_in};

use SimpleLiteral::{Negative, Positive};

fn clause(lits: Vec<SimpleLiteral>) -> TwoPointerClause {
    TwoPointerClause::new(lits)
}

fn solver(n: usize, clauses: Vec<Vec<SimpleLiteral>>) -> CdClInstance {
    let f = FormulaInstance::new(n, clauses.into_iter().map(clause).collect());
    assert!(f.is_well_formed());
    CdClInstance::new(f, None, vec![])
}

fn satisfied(assignments: &Vec<Option<bool>>, clauses: &Vec<Vec<SimpleLiteral>>) -> bool {
    clauses.iter().all(|c| c.iter().any(|l| l.is_satisfied(assignments)))
}

#[test]
fn forced_formula_is_satisfied_without_decisions() {
    let clauses = vec![vec![Positive(0)], vec![Negative(0), Positive(1)], vec![Negative(1), Positive(2)]];
    let mut s = solver(3, clauses.clone());
    assert_eq!(s.sat(), Some(true));
    assert_eq!(s.formula.assignments, vec![Some(true), Some(true), Some(true)]);
    assert!(satisfied(&s.formula.assignments, &clauses));
}

#[test]
fn positive_formula_is_satisfied() {
    let clauses = vec![
        vec![Positive(0), Positive(1)],
        vec![Positive(1), Positive(2), Positive(3)],
        vec![Positive(3), Positive(0)],
    ];
    let mut s = solver(4, clauses.clone());
    assert_eq!(s.sat(), Some(true));
    assert!(s.formula.assignments.iter().all(|a| a.is_some()));
    assert!(satisfied(&s.formula.assignments, &clauses));
}

#[test]
fn contradictory_units_are_unsatisfiable() {
    let mut s = solver(1, vec![vec![Positive(0)], vec![Negative(0)]]);
    assert_eq!(s.sat(), Some(false));
}

#[test]
fn four_clauses_over_two_variables_are_unsatisfiable() {
    let mut s = solver(
        2,
        vec![
            vec![Positive(0), Positive(1)],
            vec![Positive(0), Negative(1)],
            vec![Negative(0), Positive(1)],
            vec![Negative(0), Negative(1)],
        ],
    );
    assert_eq!(s.last_ending(), None);
    assert_eq!(s.sat(), Some(false));
    assert_eq!(s.last_ending(), Some(SearchEnd::Unsatisfiable));
    assert!(s.formula.clauses.len() >= 5);
    let learnt = &s.formula.clauses[4];
    assert_eq!(learnt.literals.len(), 1);
    assert_eq!(learnt.pointer, (0, 0));
}

#[test]
fn unit_propagation_records_implied_entries() {
    let mut s = solver(3, vec![vec![Positive(0)], vec![Negative(0), Negative(1)], vec![Positive(1), Positive(2)]]);
    assert!(s.unitPropagation(-1).is_none());
    assert_eq!(s.formula.assignments, vec![Some(true), Some(false), Some(true)]);
    assert_eq!(s.getLevel(1), -1);
    assert_eq!(s.level_on_trail(1), Some(-1));
    match s.findInStack(2, -1) {
        Some(StackElem::Implied(l, level, antecedent)) => {
            assert_eq!(l, Positive(2));
            assert_eq!(level, -1);
            assert_eq!(antecedent.literals, vec![Positive(1), Positive(2)]);
            assert_eq!(antecedent.state, ClauseState::Unit(1));
        },
        other => panic!("expected an implied entry, got {:?}", other),
    }
    assert!(s.findInStack(2, 0).is_none());
    assert_eq!(s.level_on_trail(7), None);
}

#[test]
fn conflict_without_decision_is_unsatisfiable() {
    let mut s = solver(2, vec![vec![Positive(0)], vec![Negative(0), Positive(1)], vec![Negative(1), Negative(0)]]);
    let conflict = s.unitPropagation(-1).expect("a conflict");
    assert_eq!(conflict.state, ClauseState::Unsatisfiable);
    assert!(matches!(s.conflictAnalysis(conflict, -1), AnalysisOutcome::Unsatisfiable));
}

#[test]
fn backtrack_without_a_matching_decision_clears_the_trail() {
    let mut s = solver(2, vec![vec![Positive(0)], vec![Negative(0), Positive(1)]]);
    assert!(s.unitPropagation(-1).is_none());
    assert_eq!(s.formula.assignments, vec![Some(true), Some(true)]);
    assert!(s.backtrack(3, clause(vec![Positive(1)])));
    assert_eq!(s.formula.assignments, vec![None, None]);
    assert_eq!(s.level_on_trail(0), None);
}

#[test]
fn unassigned_variable_is_the_only_free_one() {
    let mut s = solver(3, vec![]);
    s.formula.choose_variable(0, Some(true));
    s.formula.choose_variable(2, Some(false));
    let mut random = rand::thread_rng();
    assert_eq!(s.getUnassignedVariable(&mut random), 1);
}

#[test]
fn first_unassigned_follows_the_order() {
    let a = vec![Some(true), None, None, Some(false)];
    assert_eq!(first_unassigned_in(&vec![3, 2, 1, 0], &a), Some(2));
    assert_eq!(first_unassigned_in(&vec![0, 1, 2], &a), Some(1));
    assert_eq!(first_unassigned_in(&vec![0, 3], &a), None);
}

#[test]
fn new_clause_is_sent_then_added() {
    let (tx, rx) = channel();
    let f = FormulaInstance::new(2, vec![clause(vec![Positive(0), Positive(1)])]);
    let mut s = CdClInstance::new(f, None, vec![tx]);
    let learnt = clause(vec![Negative(1)]);
    assert!(!s.foundNewClause(&learnt));
    assert_eq!(s.formula.clauses.len(), 2);
    let got = rx.try_recv().expect("the clause was sent");
    assert_eq!(got.literals, vec![Negative(1)]);
}

#[test]
fn closed_channel_reports_a_finished_solver() {
    let (tx, rx) = channel::<TwoPointerClause>();
    drop(rx);
    let f = FormulaInstance::new(2, vec![clause(vec![Positive(0), Positive(1)])]);
    let mut s = CdClInstance::new(f, None, vec![tx]);
    assert!(s.foundNewClause(&clause(vec![Negative(1)])));
    assert_eq!(s.formula.clauses.len(), 1);
}

#[test]
fn received_clauses_are_added() {
    let (tx, rx) = channel();
    let f = FormulaInstance::new(3, vec![clause(vec![Positive(0), Positive(1)])]);
    let mut s = CdClInstance::new(f, Some(rx), vec![]);
    assert!(!s.checkReceiverForNewClauses());
    tx.send(clause(vec![Negative(2)])).unwrap();
    tx.send(clause(vec![Positive(1), Negative(0)])).unwrap();
    assert!(s.checkReceiverForNewClauses());
    assert_eq!(s.formula.clauses.len(), 3);
    tx.send(clause(vec![Positive(9)])).unwrap();
    tx.send(clause(vec![Negative(1), Positive(2)])).unwrap();
    assert!(s.checkReceiverForNewClauses());
    assert_eq!(s.formula.clauses.len(), 4);
    assert_eq!(s.formula.clauses[3].literals, vec![Negative(1), Positive(2)]);
}

#[test]
fn solver_without_channel_receives_nothing() {
    let mut s = solver(2, vec![vec![Positive(0), Positive(1)]]);
    assert!(!s.checkReceiverForNewClauses());
    assert_eq!(s.formula.clauses.len(), 1);
}

#[test]
fn solver_without_peers_adds_its_clause() {
    let mut s = solver(2, vec![vec![Positive(0), Positive(1)]]);
    assert!(!s.foundNewClause(&clause(vec![Negative(0)])));
    assert_eq!(s.formula.clauses.len(), 2);
    assert!(!s.foundNewClause(&clause(vec![Negative(0)])));
    assert_eq!(s.formula.clauses.len(), 2);
}

#[test]
fn single_unit_clause_is_satisfied() {
    let mut s = solver(1, vec![vec![Positive(0)]]);
    assert_eq!(s.sat(), Some(true));
    assert_eq!(s.formula.assignments, vec![Some(true)]);
}

#[test]
fn search_names_how_it_ends() {
    let mut s = solver(1, vec![vec![Positive(0)], vec![Negative(0)]]);
    assert_eq!(s.search(), SearchEnd::Unsatisfiable);
    let mut s = solver(2, vec![vec![Positive(0)], vec![Negative(0), Positive(1)]]);
    assert_eq!(s.search(), SearchEnd::Satisfiable);
    let mut s = solver(
        2,
        vec![
            vec![Positive(0), Positive(1)],
            vec![Positive(0), Negative(1)],
            vec![Negative(0), Positive(1)],
            vec![Negative(0), Negative(1)],
        ],
    );
    assert_eq!(s.search(), SearchEnd::Unsatisfiable);
}

#[test]
fn a_stopped_peer_ends_the_search() {
    let (tx, rx) = channel::<TwoPointerClause>();
    drop(rx);
    let clauses = vec![
        vec![Positive(0), Positive(1)],
        vec![Positive(0), Negative(1)],
        vec![Negative(0), Positive(1)],
        vec![Negative(0), Negative(1)],
    ];
    let f = FormulaInstance::new(2, clauses.into_iter().map(clause).collect());
    let mut s = CdClInstance::new(f, None, vec![tx]);
    assert_eq!(s.sat(), None);
    assert_eq!(s.last_ending(), Some(SearchEnd::PeerStopped));
}
