use csp_ac3::ac3::{ac3, new_constraint, revise, ConstraintProvider, ConstraintTable};
use csp_ac3::variable_provider::{VariableID, VariableProvider};

type Rule = Box<dyn Fn(&i32, &i32) -> bool>;

fn provider(entries: &[(char, Vec<i32>)]) -> VariableProvider<i32, char> {
    VariableProvider::from_entries(entries.to_vec()).unwrap()
}

fn domain(variables: &VariableProvider<i32, char>, id: VariableID) -> Vec<i32> {
    variables.get_var(id).unwrap().possible_values().clone()
}

#[test]
fn ac3_validate_ac3() {
    let mut variables = provider(&[('a', vec![1, 2, 3]), ('b', vec![1, 2, 3])]);
    let a = variables.find_id('a').unwrap();
    let b = variables.find_id('b').unwrap();
    let mut constraints: ConstraintTable<Rule> = ConstraintTable::new();
    constraints.insert(new_constraint(a, b, Box::new(|a: &i32, b: &i32| a == b && *a < 2)));
    constraints.insert(new_constraint(b, a, Box::new(|a: &i32, b: &i32| a == b && *b < 2)));
    let arcs = vec![(a, b), (b, a)];
    ac3(&mut variables, &arcs, &constraints);
    assert!(variables.get_var(a).unwrap().possible_values().eq(&vec!(1)));
    assert!(variables.get_var(b).unwrap().possible_values().eq(&vec!(1)));
}

#[test]
fn ac3_revise_shrinks_domain_based_on_constraints() {
    let mut variables = provider(&[('a', vec![1, 2, 3]), ('b', vec![2, 3])]);
    let a = variables.find_id('a').unwrap();
    let b = variables.find_id('b').unwrap();
    let mut constraints: ConstraintTable<Rule> = ConstraintTable::new();
    constraints.insert(new_constraint(a, b, Box::new(|a: &i32, _: &i32| *a < 3)));

    assert!(revise(&mut variables, &constraints, a, b));
    assert!(variables.get_var(a).unwrap().possible_values().eq(&vec!(1, 2)));
    assert!(variables.get_var(b).unwrap().possible_values().eq(&vec!(2, 3)));
}

#[test]
fn ac3_revise_leaves_domain_unmodified_if_all_constraints_valid() {
    let mut variables = provider(&[('a', vec![1, 2, 3]), ('b', vec![2, 3])]);
    let a = variables.find_id('a').unwrap();
    let b = variables.find_id('b').unwrap();
    let mut constraints: ConstraintTable<Rule> = ConstraintTable::new();
    constraints.insert(new_constraint(a, b, Box::new(|a: &i32, _: &i32| *a < 5)));

    assert!(!revise(&mut variables, &constraints, a, b));
    assert!(variables.get_var(a).unwrap().possible_values().eq(&vec!(1, 2, 3)));
    assert!(variables.get_var(b).unwrap().possible_values().eq(&vec!(2, 3)));
}

#[test]
fn ac3_revise_does_not_change_domain_without_constraints() {
    let mut variables = provider(&[('a', vec![1, 2, 3]), ('b', vec![2, 3])]);
    let constraints: ConstraintTable<Rule> = ConstraintTable::new();
    let a = variables.find_id('a').unwrap();
    let b = variables.find_id('b').unwrap();

    assert!(!revise(&mut variables, &constraints, a, b));
    assert!(variables.get_var(a).unwrap().possible_values().eq(&vec!(1, 2, 3)));
    assert!(variables.get_var(b).unwrap().possible_values().eq(&vec!(2, 3)));
}

#[test]
fn ac3_revise_can_empty_domain_values() {
    let mut variables = provider(&[('a', vec![1, 2, 3]), ('b', vec![2, 3])]);
    let a = variables.find_id('a').unwrap();
    let b = variables.find_id('b').unwrap();
    let mut constraints: ConstraintTable<Rule> = ConstraintTable::new();
    constraints.insert(new_constraint(a, b, Box::new(|_: &i32, _: &i32| false)));

    assert!(revise(&mut variables, &constraints, a, b));
    assert!(
        !variables.get_var(a).unwrap().is_consistent(),
        "is consistent? {:#?}",
        variables.get_var(a)
    );
}

#[test]
fn revise_with_unknown_identity_changes_nothing() {
    let mut variables = provider(&[('a', vec![1, 2, 3])]);
    let a = variables.find_id('a').unwrap();
    let mut constraints: ConstraintTable<Rule> = ConstraintTable::new();
    constraints.insert(new_constraint(a, VariableID(7), Box::new(|_: &i32, _: &i32| false)));
    assert!(!revise(&mut variables, &constraints, a, VariableID(7)));
    assert_eq!(domain(&variables, a), vec![1, 2, 3]);
}

#[test]
fn revise_against_empty_domain_empties_source() {
    let mut variables = provider(&[('a', vec![1, 2]), ('b', vec![])]);
    let a = variables.find_id('a').unwrap();
    let b = variables.find_id('b').unwrap();
    let constraints: ConstraintTable<Rule> = ConstraintTable::new();
    assert!(revise(&mut variables, &constraints, a, b));
    assert_eq!(domain(&variables, a), Vec::<i32>::new());
}

#[test]
fn later_rule_for_same_pair_replaces_earlier() {
    let mut variables = provider(&[('a', vec![1, 2, 3]), ('b', vec![1])]);
    let a = variables.find_id('a').unwrap();
    let b = variables.find_id('b').unwrap();
    let mut constraints: ConstraintTable<Rule> = ConstraintTable::new();
    constraints.insert(new_constraint(a, b, Box::new(|_: &i32, _: &i32| false)));
    constraints.insert(new_constraint(a, b, Box::new(|x: &i32, _: &i32| *x != 2)));
    let va = variables.get_var(a).unwrap();
    let vb = variables.get_var(b).unwrap();
    assert!(constraints.check(va, &1, vb, &1));
    assert!(!constraints.check(va, &2, vb, &1));
    assert!(revise(&mut variables, &constraints, a, b));
    assert_eq!(domain(&variables, a), vec![1, 3]);
}

#[test]
fn table_without_entry_allows_everything() {
    let variables = provider(&[('a', vec![1]), ('b', vec![2])]);
    let a = variables.find_id('a').unwrap();
    let b = variables.find_id('b').unwrap();
    let mut constraints: ConstraintTable<Rule> = ConstraintTable::new();
    constraints.insert(new_constraint(b, a, Box::new(|_: &i32, _: &i32| false)));
    let va = variables.get_var(a).unwrap();
    let vb = variables.get_var(b).unwrap();
    assert!(constraints.check(va, &1, vb, &2));
    assert!(!constraints.check(vb, &2, va, &1));
}

#[test]
fn unconstrained_arcs_leave_domains_alone() {
    let mut variables = provider(&[('a', vec![1, 2, 3]), ('b', vec![4, 5]), ('c', vec![6])]);
    let a = variables.find_id('a').unwrap();
    let b = variables.find_id('b').unwrap();
    let c = variables.find_id('c').unwrap();
    let mut constraints: ConstraintTable<Rule> = ConstraintTable::new();
    constraints.insert(new_constraint(c, a, Box::new(|_: &i32, _: &i32| false)));
    let arcs = vec![(a, b), (b, a), (a, c), (b, c)];
    ac3(&mut variables, &arcs, &constraints);
    assert_eq!(domain(&variables, a), vec![1, 2, 3]);
    assert_eq!(domain(&variables, b), vec![4, 5]);
    assert_eq!(domain(&variables, c), vec![6]);
}

fn chain_fixture() -> (VariableProvider<i32, char>, Vec<(VariableID, VariableID)>, ConstraintTable<Rule>) {
    let variables = provider(&[('a', vec![1, 2, 3, 4]), ('b', vec![1, 2, 3, 4]), ('c', vec![1, 2, 3, 4])]);
    let a = variables.find_id('a').unwrap();
    let b = variables.find_id('b').unwrap();
    let c = variables.find_id('c').unwrap();
    let mut constraints: ConstraintTable<Rule> = ConstraintTable::new();
    constraints.insert(new_constraint(a, b, Box::new(|x: &i32, y: &i32| x < y)));
    constraints.insert(new_constraint(b, a, Box::new(|x: &i32, y: &i32| x > y)));
    constraints.insert(new_constraint(b, c, Box::new(|x: &i32, y: &i32| x < y)));
    constraints.insert(new_constraint(c, b, Box::new(|x: &i32, y: &i32| x > y)));
    let arcs = vec![(a, b), (b, a), (b, c), (c, b)];
    (variables, arcs, constraints)
}

#[test]
fn ac3_reaches_expected_fixpoint_on_chain() {
    let (mut variables, arcs, constraints) = chain_fixture();
    ac3(&mut variables, &arcs, &constraints);
    assert_eq!(domain(&variables, VariableID(0)), vec![1, 2]);
    assert_eq!(domain(&variables, VariableID(1)), vec![2, 3]);
    assert_eq!(domain(&variables, VariableID(2)), vec![3, 4]);
}

#[test]
fn ac3_keeps_domain_order_without_repeats() {
    let mut variables = provider(&[('a', vec![3, 1, 2, 1]), ('b', vec![1])]);
    let a = variables.find_id('a').unwrap();
    let b = variables.find_id('b').unwrap();
    let mut constraints: ConstraintTable<Rule> = ConstraintTable::new();
    constraints.insert(new_constraint(a, b, Box::new(|x: &i32, _: &i32| *x != 2)));
    ac3(&mut variables, &[(a, b)], &constraints);
    assert_eq!(domain(&variables, a), vec![3, 1, 1]);
}

#[test]
fn ac3_twice_changes_nothing_the_second_time() {
    let (mut variables, arcs, constraints) = chain_fixture();
    ac3(&mut variables, &arcs, &constraints);
    let first = variables.snapshot();
    ac3(&mut variables, &arcs, &constraints);
    assert_eq!(variables.snapshot(), first);
}

#[test]
fn ac3_only_removes_values() {
    let (mut variables, arcs, constraints) = chain_fixture();
    let before = variables.snapshot();
    ac3(&mut variables, &arcs, &constraints);
    let after = variables.snapshot();
    for (old, new) in before.iter().zip(after.iter()) {
        assert!(new.len() <= old.len());
        assert!(new.iter().all(|v| old.contains(v)));
    }
}

#[test]
fn ac3_leaves_every_arc_supported() {
    let (mut variables, arcs, constraints) = chain_fixture();
    ac3(&mut variables, &arcs, &constraints);
    for (x, y) in &arcs {
        let vx = variables.get_var(*x).unwrap();
        let vy = variables.get_var(*y).unwrap();
        for v in vx.possible_values() {
            assert!(vy.possible_values().iter().any(|w| constraints.check(vx, v, vy, w)));
        }
    }
}

#[test]
fn ac3_with_always_false_rule_empties_a_domain() {
    let mut variables = provider(&[('a', vec![1, 2]), ('b', vec![1, 2])]);
    let a = variables.find_id('a').unwrap();
    let b = variables.find_id('b').unwrap();
    let mut constraints: ConstraintTable<Rule> = ConstraintTable::new();
    constraints.insert(new_constraint(a, b, Box::new(|_: &i32, _: &i32| false)));
    ac3(&mut variables, &[(a, b), (b, a)], &constraints);
    assert!(domain(&variables, a).is_empty());
    assert!(!variables.is_consistent());
}
