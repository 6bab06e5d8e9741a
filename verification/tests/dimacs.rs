use cdcl_solver::literal::SimpleLiteral;
use cdcl_solver::clause::ClauseState;
use cdcl_solver::dimacs::{parse_cnf, DimacsError};

use SimpleLiteral::{Negative, Positive};

fn chars(s: &str) -> Vec<char> {
    s.chars().collect()
}

#[test]
fn reads_a_simple_formula() {
    let f = parse_cnf(&chars("c example\nc second comment\np cnf 3 2\n1 -3 0\n2 3 -1 0\n")).unwrap();
    assert_eq!(f.assignments, vec![None, None, None]);
    assert_eq!(f.clauses.len(), 2);
    let mut lists: Vec<Vec<SimpleLiteral>> = f.clauses.iter().map(|c| c.literals.clone()).collect();
    lists.sort_by_key(|l| l.len());
    assert_eq!(lists[0], vec![Positive(0), Negative(2)]);
    assert_eq!(lists[1], vec![Positive(1), Positive(2), Negative(0)]);
    assert!(f.clauses.iter().all(|c| c.state == ClauseState::Open && c.pointer == (0, 1)));
}

#[test]
fn clauses_may_span_lines_and_end_at_percent() {
    let f = parse_cnf(&chars("p cnf 2 2\r\n1\n2 0 -1\t0\n%\n0\n5 0\n")).unwrap();
    assert_eq!(f.assignments.len(), 2);
    assert_eq!(f.clauses.len(), 2);
    assert!(f.clauses.iter().any(|c| c.literals == vec![Positive(0), Positive(1)]));
    assert!(f.clauses.iter().any(|c| c.literals == vec![Negative(0)] && c.state == ClauseState::Unit(0)));
}

#[test]
fn repeated_literals_and_clauses_are_kept_once() {
    let f = parse_cnf(&chars("p cnf 2 3\n1 1 -2 0\n1 -2 0\n")).unwrap();
    assert_eq!(f.clauses.len(), 1);
    assert_eq!(f.clauses[0].literals, vec![Positive(0), Negative(1)]);
}

#[test]
fn unfinished_clause_is_dropped() {
    let f = parse_cnf(&chars("p cnf 3 1\n1 2 0\n3")).unwrap();
    assert_eq!(f.clauses.len(), 1);
    assert_eq!(f.clauses[0].literals, vec![Positive(0), Positive(1)]);
}

#[test]
fn plus_signs_are_accepted() {
    let f = parse_cnf(&chars("p cnf +2 1\n+1 -2 0")).unwrap();
    assert_eq!(f.assignments.len(), 2);
    assert_eq!(f.clauses[0].literals, vec![Positive(0), Negative(1)]);
}

#[test]
fn line_before_problem_line_must_be_comment() {
    assert_eq!(parse_cnf(&chars("x\np cnf 1 1\n1 0\n")).err(), Some(DimacsError::WrongFormat));
    assert_eq!(parse_cnf(&chars("c a\n\np cnf 1 1\n1 0\n")).err(), Some(DimacsError::WrongFormat));
}

#[test]
fn text_without_problem_line_is_refused() {
    assert_eq!(parse_cnf(&chars("c only a comment\n")).err(), Some(DimacsError::NoProblemLine));
    assert_eq!(parse_cnf(&chars("")).err(), Some(DimacsError::NoProblemLine));
}

#[test]
fn problem_line_needs_a_variable_count() {
    assert_eq!(parse_cnf(&chars("p cnf\n1 0\n")).err(), Some(DimacsError::BadVariableCount));
    assert_eq!(parse_cnf(&chars("p cnf -3 1\n1 0\n")).err(), Some(DimacsError::BadVariableCount));
    assert_eq!(parse_cnf(&chars("p cnf three 1\n1 0\n")).err(), Some(DimacsError::BadVariableCount));
    assert_eq!(
        parse_cnf(&chars("p cnf 99999999999999999999999 1\n1 0\n")).err(),
        Some(DimacsError::BadVariableCount)
    );
}

#[test]
fn words_that_are_not_literals_are_refused() {
    assert_eq!(parse_cnf(&chars("p cnf 2 1\n1 a 0\n")).err(), Some(DimacsError::BadLiteral));
    assert_eq!(parse_cnf(&chars("p cnf 2 1\n1 -2147483648 0\n")).err(), Some(DimacsError::BadLiteral));
    assert_eq!(parse_cnf(&chars("p cnf 2 1\n1 2147483648 0\n")).err(), Some(DimacsError::BadLiteral));
    assert_eq!(parse_cnf(&chars("p cnf 2 1\n1 - 0\n")).err(), Some(DimacsError::BadLiteral));
}

#[test]
fn largest_literal_is_read() {
    let f = parse_cnf(&chars("p cnf 1 1\n2147483647 -2147483647 0\n")).unwrap();
    assert_eq!(f.clauses[0].literals, vec![Positive(2147483646), Negative(2147483646)]);
    assert!(!f.is_well_formed());
}

#[test]
fn empty_clause_is_read_but_not_well_formed() {
    let f = parse_cnf(&chars("p cnf 1 1\n0\n")).unwrap();
    assert_eq!(f.clauses.len(), 1);
    assert!(f.clauses[0].literals.is_empty());
    assert!(!f.is_well_formed());
}
