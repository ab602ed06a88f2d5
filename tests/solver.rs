use std::collections::VecDeque;

use csp_ac3::solver::{Solver, SolverError};

type Rule = Box<dyn Fn(u32, u32) -> bool>;

fn two_variable_solver() -> Solver<char, u32, Rule> {
    let mut solver: Solver<char, u32, Rule> = Solver::new(vec![1, 2, 3]);
    assert_eq!(solver.add_variable('a'), 0);
    assert_eq!(solver.add_variable('b'), 1);
    solver
}

#[test]
fn constraint_on_unknown_variable_is_refused() {
    let mut solver = two_variable_solver();
    let rule: Rule = Box::new(|a, b| a < b);
    assert_eq!(
        solver.add_binary_constraint('z', 'a', vec![rule]),
        Err(SolverError::FromNotFound('z'))
    );
    let rule: Rule = Box::new(|a, b| a < b);
    assert_eq!(
        solver.add_binary_constraint('a', 'q', vec![rule]),
        Err(SolverError::ToNotFound('q'))
    );
}

#[test]
fn solve_narrows_domains() {
    let mut solver = two_variable_solver();
    let less: Rule = Box::new(|a, b| a < b);
    let more: Rule = Box::new(|a, b| a > b);
    assert_eq!(solver.add_binary_constraint('a', 'b', vec![less]), Ok(()));
    assert_eq!(solver.add_binary_constraint('b', 'a', vec![more]), Ok(()));
    let arcs: VecDeque<(usize, usize)> = VecDeque::from(vec![(0, 1), (1, 0)]);
    assert!(solver.solve(&arcs));
    let unresolved = solver.unresolved_variables();
    assert_eq!(unresolved, vec![('a', vec![1, 2]), ('b', vec![2, 3])]);
}

#[test]
fn pair_without_rule_is_unconstrained() {
    let mut solver = two_variable_solver();
    let arcs: VecDeque<(usize, usize)> = VecDeque::from(vec![(0, 1), (1, 0)]);
    assert!(solver.solve(&arcs));
    assert_eq!(solver.unresolved_variables(), vec![('a', vec![1, 2, 3]), ('b', vec![1, 2, 3])]);
}

#[test]
fn empty_domain_anywhere_fails_the_solve() {
    let mut solver = two_variable_solver();
    solver.set_domain('a', 1);
    let never: Rule = Box::new(|_, _| false);
    assert_eq!(solver.add_binary_constraint('b', 'a', vec![never]), Ok(()));
    assert!(!solver.solve(&VecDeque::from(vec![(1, 0)])));
    let mut other = two_variable_solver();
    assert!(other.solve(&VecDeque::new()));
}

#[test]
fn shrinking_a_variable_requeues_arcs_into_it() {
    let mut solver: Solver<char, u32, Rule> = Solver::new(vec![1, 2, 3]);
    solver.add_variable('a');
    solver.add_variable('b');
    solver.add_variable('c');
    let a_less_b: Rule = Box::new(|a, b| a < b);
    let b_more_a: Rule = Box::new(|b, a| b > a);
    let b_less_c: Rule = Box::new(|b, c| b < c);
    let c_more_b: Rule = Box::new(|c, b| c > b);
    assert_eq!(solver.add_binary_constraint('a', 'b', vec![a_less_b]), Ok(()));
    assert_eq!(solver.add_binary_constraint('b', 'a', vec![b_more_a]), Ok(()));
    assert_eq!(solver.add_binary_constraint('b', 'c', vec![b_less_c]), Ok(()));
    assert_eq!(solver.add_binary_constraint('c', 'b', vec![c_more_b]), Ok(()));
    // (a, b) comes first, before b has been narrowed by (b, c): it must be
    // revisited once b shrinks for a single assignment to remain.
    let arcs: VecDeque<(usize, usize)> = VecDeque::from(vec![(0, 1), (1, 0), (1, 2), (2, 1)]);
    assert!(solver.solve(&arcs));
    assert_eq!(solver.unresolved_variables(), vec![]);
}

#[test]
fn set_domain_fixes_a_known_value_only() {
    let mut solver = two_variable_solver();
    solver.set_domain('a', 2);
    solver.set_domain('b', 7);
    solver.set_domain('z', 1);
    assert_eq!(solver.unresolved_variables(), vec![('b', vec![1, 2, 3])]);
}

#[test]
fn any_of_several_rules_may_allow_a_pair() {
    let mut solver = two_variable_solver();
    let equal: Rule = Box::new(|a, b| a == b && a == 1);
    let three: Rule = Box::new(|a, _| a == 3);
    assert_eq!(solver.add_binary_constraint('a', 'b', vec![equal, three]), Ok(()));
    let arcs: VecDeque<(usize, usize)> = VecDeque::from(vec![(0, 1)]);
    assert!(solver.solve(&arcs));
    assert_eq!(solver.unresolved_variables(), vec![('a', vec![1, 3]), ('b', vec![1, 2, 3])]);
}
