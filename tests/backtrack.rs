use csp_ac3::ac3::{new_constraint, ConstraintProvider, ConstraintTable};
use csp_ac3::backtrack::{reduce, Solution};
use csp_ac3::variable_provider::{Variable, VariableID, VariableProvider};
use rand::rngs::SmallRng;
use rand_seeder::Seeder;

fn simple_rng(seed_str: &str) -> SmallRng {
    Seeder::from(seed_str).make_rng()
}

struct TestCase {
    arcs: Vec<(VariableID, VariableID)>,
    variables: VariableProvider<char, i32>,
}

struct StaticConstraints {}

fn parity_rule(a: i32, a_value: char, b: i32, b_value: char) -> bool {
    if a % 2 == 0 && b % 2 == 0 {
        a_value == b_value
    } else {
        a_value != b_value
    }
}

impl ConstraintProvider<char, i32> for StaticConstraints {
    fn valid(&self) -> bool {
        true
    }

    fn allows(&self, _: VariableID, a_key: i32, a_value: char, _: VariableID, b_key: i32, b_value: char) -> bool {
        parity_rule(a_key, a_value, b_key, b_value)
    }

    fn check(
        &self,
        a: &Variable<char, i32>,
        a_value: &char,
        b: &Variable<char, i32>,
        b_value: &char,
    ) -> bool {
        parity_rule(a.identifier, *a_value, b.identifier, *b_value)
    }
}

fn build_test_case() -> TestCase {
    let tiles = ('a'..='z').collect::<Vec<char>>();

    let mut variables = VariableProvider::default();
    let v1 = variables.add_var(0, tiles.clone()).unwrap();
    let v2 = variables.add_var(1, tiles.clone()).unwrap();
    let v3 = variables.add_var(2, tiles.clone()).unwrap();
    let v4 = variables.add_var(3, tiles.clone()).unwrap();
    let v5 = variables.add_var(4, tiles.clone()).unwrap();
    let v6 = variables.add_var(5, tiles.clone()).unwrap();

    // v1 v2
    // v3 v4
    // v5 v6
    let arcs = vec![
        (v1, v2),
        (v1, v3),
        (v2, v1),
        (v2, v4),
        (v3, v1),
        (v3, v4),
        (v3, v5),
        (v4, v2),
        (v4, v3),
        (v4, v6),
        (v5, v3),
        (v5, v6),
        (v6, v4),
        (v6, v5),
    ];
    TestCase { arcs, variables }
}

#[test]
fn backtrack_backtrack_1() {
    let mut rng = simple_rng("hello ");
    let TestCase { mut arcs, mut variables } = build_test_case();

    assert_eq!(
        Solution::Consistent,
        reduce(&mut variables, &mut arcs, &StaticConstraints {}, &mut rng)
    );
    for key in 0..6 {
        assert_eq!(variables.find_var(key).unwrap().possible_values().len(), 1);
    }
    for (x, y) in &arcs {
        let vx = variables.get_var(*x).unwrap();
        let vy = variables.get_var(*y).unwrap();
        assert!(StaticConstraints {}.check(
            vx,
            &vx.possible_values()[0],
            vy,
            &vy.possible_values()[0]
        ));
    }
}

/// Successor rules along a chain, allowed in either direction:
/// 3 may be followed by 1 or 3; 1 by 1, 3 or 5; 5 by 3 or 6.
struct PigPen;

fn one_way_checks(a: usize, a_value: &u32, b: usize, b_value: &u32) -> bool {
    let a = a as isize;
    let b = b as isize;
    *a_value == 3 && b - a == 1 && [1, 3].contains(b_value)
        || *a_value == 1 && b - a == 1 && [1, 3, 5].contains(b_value)
        || *a_value == 5 && b - a == 1 && [3, 6].contains(b_value)
}

impl ConstraintProvider<u32, usize> for PigPen {
    fn valid(&self) -> bool {
        true
    }

    fn allows(&self, _: VariableID, a: usize, a_value: u32, _: VariableID, b: usize, b_value: u32) -> bool {
        one_way_checks(a, &a_value, b, &b_value) || one_way_checks(b, &b_value, a, &a_value)
    }

    fn check(
        &self,
        a: &Variable<u32, usize>,
        a_value: &u32,
        b: &Variable<u32, usize>,
        b_value: &u32,
    ) -> bool {
        one_way_checks(a.identifier, a_value, b.identifier, b_value)
            || one_way_checks(b.identifier, b_value, a.identifier, a_value)
    }
}

fn new_pen(size: usize, values: std::ops::Range<u32>) -> (Vec<(VariableID, VariableID)>, VariableProvider<u32, usize>) {
    let starting_domain: Vec<u32> = values.collect();
    let mut variables = VariableProvider::new();
    for x in 0..size {
        variables.add_var(x, starting_domain.clone()).unwrap();
    }
    let mut arcs = vec![];
    for a in 1..size {
        let b = a - 1;
        arcs.push((VariableID(a), VariableID(b)));
        arcs.push((VariableID(b), VariableID(a)));
    }
    (arcs, variables)
}

fn pen_values(variables: &VariableProvider<u32, usize>, size: usize) -> Vec<u32> {
    (0..size)
        .map(|k| {
            let values = variables.find_var(k).unwrap().possible_values();
            assert!(values.len() == 1);
            values[0]
        })
        .collect()
}

fn assert_pen_rules(values: &[u32]) {
    for k in 1..values.len() {
        assert!(
            one_way_checks(k - 1, &values[k - 1], k, &values[k])
                || one_way_checks(k, &values[k], k - 1, &values[k - 1])
        );
    }
}

#[test]
fn pig_pen_of_four() {
    let mut rng = simple_rng("hello world oasdf");
    let (arcs, mut variables) = new_pen(4, 1..8);
    assert_eq!(Solution::Consistent, reduce(&mut variables, &arcs, &PigPen, &mut rng));
    let pen = pen_values(&variables, 4);
    assert_pen_rules(&pen);
    assert_eq!(vec!(5, 3, 1, 3), pen);
}

#[test]
fn backtrack_inconsistent() {
    let mut rng = simple_rng("test332");
    let (arcs, mut variables) = new_pen(5, 1..8);
    let reduction = reduce(&mut variables, &arcs, &PigPen, &mut rng);
    assert_eq!(reduction, Solution::Consistent);
    let pen = pen_values(&variables, 5);
    assert_pen_rules(&pen);
    assert_eq!(vec!(1, 1, 1, 1, 3), pen);
}

#[test]
fn same_seed_gives_same_assignment() {
    let run = |seed: &str| {
        let mut rng = simple_rng(seed);
        let TestCase { arcs, mut variables } = build_test_case();
        assert_eq!(Solution::Consistent, reduce(&mut variables, &arcs, &StaticConstraints {}, &mut rng));
        variables.snapshot()
    };
    assert_eq!(run("fixed seed"), run("fixed seed"));
    let pen = |seed: &str| {
        let mut rng = simple_rng(seed);
        let (arcs, mut variables) = new_pen(6, 1..8);
        assert_eq!(Solution::Consistent, reduce(&mut variables, &arcs, &PigPen, &mut rng));
        variables.snapshot()
    };
    assert_eq!(pen("another"), pen("another"));
}

type Rule = Box<dyn Fn(&i32, &i32) -> bool>;

#[test]
fn always_false_constraint_has_no_solution() {
    let mut variables: VariableProvider<i32, char> = VariableProvider::new();
    let a = variables.add_var('a', vec![1, 2, 3]).unwrap();
    let b = variables.add_var('b', vec![1, 2, 3]).unwrap();
    let mut constraints: ConstraintTable<Rule> = ConstraintTable::new();
    constraints.insert(new_constraint(a, b, Box::new(|_: &i32, _: &i32| false)));
    let mut rng = simple_rng("any");
    assert_eq!(
        Solution::NoSolution,
        reduce(&mut variables, &[(a, b), (b, a)], &constraints, &mut rng)
    );
}

/// Three variables, pairwise different, with two values each: no solution,
/// though arc consistency alone removes nothing.
#[test]
fn exhausted_alternatives_report_no_solution() {
    let mut variables: VariableProvider<i32, char> = VariableProvider::new();
    let a = variables.add_var('a', vec![1, 2]).unwrap();
    let b = variables.add_var('b', vec![1, 2]).unwrap();
    let c = variables.add_var('c', vec![1, 2]).unwrap();
    let mut constraints: ConstraintTable<Rule> = ConstraintTable::new();
    let mut arcs = vec![];
    for (x, y) in [(a, b), (b, c), (a, c)] {
        constraints.insert(new_constraint(x, y, Box::new(|p: &i32, q: &i32| p != q)));
        constraints.insert(new_constraint(y, x, Box::new(|p: &i32, q: &i32| p != q)));
        arcs.push((x, y));
        arcs.push((y, x));
    }
    let mut rng = simple_rng("three colours short");
    assert_eq!(Solution::NoSolution, reduce(&mut variables, &arcs, &constraints, &mut rng));
}

/// A problem that needs backtracking when `a` is tried with 1 first: then
/// `b`, `c` and `d` must differ pairwise within {1, 2}, which arc
/// consistency alone does not detect. Only `a` = 2 leads to a solution.
#[test]
fn backtracking_recovers_from_a_bad_first_choice() {
    for seed in ["one", "two", "three", "four", "five", "six"] {
        let mut variables: VariableProvider<i32, char> = VariableProvider::new();
        let a = variables.add_var('a', vec![1, 2]).unwrap();
        let b = variables.add_var('b', vec![1, 2, 3]).unwrap();
        let c = variables.add_var('c', vec![1, 2, 3]).unwrap();
        let d = variables.add_var('d', vec![1, 2, 3]).unwrap();
        let mut constraints: ConstraintTable<Rule> = ConstraintTable::new();
        let mut arcs = vec![];
        for (x, y) in [(b, c), (c, d), (b, d)] {
            constraints.insert(new_constraint(x, y, Box::new(|p: &i32, q: &i32| p != q)));
            constraints.insert(new_constraint(y, x, Box::new(|p: &i32, q: &i32| p != q)));
            arcs.push((x, y));
            arcs.push((y, x));
        }
        for x in [b, c, d] {
            constraints.insert(new_constraint(a, x, Box::new(|p: &i32, q: &i32| *p == 2 || *q <= 2)));
            constraints.insert(new_constraint(x, a, Box::new(|q: &i32, p: &i32| *p == 2 || *q <= 2)));
            arcs.push((a, x));
            arcs.push((x, a));
        }
        let mut rng = simple_rng(seed);
        assert_eq!(Solution::Consistent, reduce(&mut variables, &arcs, &constraints, &mut rng));
        assert_eq!(variables.get_var(a).unwrap().possible_values(), &vec![2]);
        let mut seen: Vec<i32> = [b, c, d]
            .iter()
            .map(|k| variables.get_var(*k).unwrap().possible_values()[0])
            .collect();
        seen.sort();
        assert_eq!(seen, vec![1, 2, 3]);
    }
}
