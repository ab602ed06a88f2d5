use csp_ac3::variable_provider::{Variable, VariableError, VariableID, VariableProvider};
use rand::rngs::SmallRng;
use rand_seeder::Seeder;

#[test]
fn duplicate_key_is_refused_and_store_unchanged() {
    let mut variables: VariableProvider<u32, char> = VariableProvider::new();
    assert_eq!(variables.add_var('a', vec![1, 2]), Ok(VariableID(0)));
    assert_eq!(variables.add_var('b', vec![3]), Ok(VariableID(1)));
    assert_eq!(variables.add_var('a', vec![9]), Err(VariableError::DuplicateKey('a')));
    assert_eq!(variables.len(), 2);
    assert_eq!(variables.find_var('a').unwrap().possible_values(), &vec![1, 2]);
}

#[test]
fn lookups_by_key_and_identity() {
    let mut variables: VariableProvider<u32, char> = VariableProvider::new();
    let a = variables.add_var('a', vec![1, 2]).unwrap();
    let b = variables.add_var('b', vec![3]).unwrap();
    assert_eq!(variables.find_id('b'), Some(b));
    assert_eq!(variables.find_id('z'), None);
    assert!(variables.find_var('z').is_none());
    assert!(variables.get_var(VariableID(5)).is_none());
    let va = variables.get_var(a).unwrap();
    assert_eq!(va.identifier, 'a');
    assert_eq!(va.get_identifier(), 'a');
    assert_eq!(va.get_index(), a);
}

#[test]
fn update_var_replaces_and_ignores_unknown() {
    let mut variables: VariableProvider<u32, char> = VariableProvider::new();
    let a = variables.add_var('a', vec![1, 2]).unwrap();
    variables.update_var(a, vec![7]);
    variables.update_var(VariableID(3), vec![8]);
    assert_eq!(variables.get_var(a).unwrap().possible_values(), &vec![7]);
    assert_eq!(variables.len(), 1);
}

#[test]
fn most_constrained_prefers_fewest_values_then_key() {
    let mut variables: VariableProvider<u32, char> = VariableProvider::new();
    variables.add_var('d', vec![1, 2, 3]).unwrap();
    variables.add_var('c', vec![1, 2]).unwrap();
    variables.add_var('b', vec![1]).unwrap();
    variables.add_var('a', vec![4, 5]).unwrap();
    assert_eq!(variables.next_reducable_variable(), variables.find_id('a'));
    let a = variables.find_id('a').unwrap();
    variables.update_var(a, vec![4]);
    assert_eq!(variables.next_reducable_variable(), variables.find_id('c'));
}

#[test]
fn no_reducible_variable_when_all_resolved_or_empty() {
    let mut variables: VariableProvider<u32, char> = VariableProvider::new();
    variables.add_var('a', vec![1]).unwrap();
    variables.add_var('b', vec![]).unwrap();
    assert_eq!(variables.next_reducable_variable(), None);
    assert!(!variables.is_consistent());
    let empty: VariableProvider<u32, char> = VariableProvider::default();
    assert_eq!(empty.next_reducable_variable(), None);
    assert!(empty.is_consistent());
}

#[test]
fn snapshot_and_restore_round_trip() {
    let mut variables: VariableProvider<u32, char> = VariableProvider::new();
    let a = variables.add_var('a', vec![1, 2, 3]).unwrap();
    let b = variables.add_var('b', vec![4]).unwrap();
    let saved = variables.snapshot();
    assert_eq!(saved, vec![vec![1, 2, 3], vec![4]]);
    variables.update_var(a, vec![2]);
    variables.update_var(b, vec![]);
    variables.restore(&saved);
    assert_eq!(variables.snapshot(), saved);
}

#[test]
fn variable_value_operations() {
    let mut variables: VariableProvider<u32, char> = VariableProvider::new();
    let a = variables.add_var('a', vec![1, 2, 3, 4]).unwrap();
    let mut rng: SmallRng = Seeder::from("values").make_rng();
    let var = variables.get_var(a).unwrap();
    assert!(var.is_consistent());
    for _ in 0..20 {
        let v = var.random_value(&mut rng).unwrap();
        assert!([1, 2, 3, 4].contains(&v));
    }
    let mut other: VariableProvider<u32, char> = VariableProvider::new();
    let e = other.add_var('e', vec![]).unwrap();
    let empty = other.get_var(e).unwrap();
    assert!(!empty.is_consistent());
    assert_eq!(empty.random_value(&mut rng), None);
}

#[test]
fn random_value_reaches_more_than_one_value() {
    let mut variables: VariableProvider<u32, char> = VariableProvider::new();
    let a = variables.add_var('a', vec![10, 20, 30]).unwrap();
    let mut rng: SmallRng = Seeder::from("spread").make_rng();
    let var = variables.get_var(a).unwrap();
    let picks: Vec<u32> = (0..50).map(|_| var.random_value(&mut rng).unwrap()).collect();
    assert!(picks.iter().any(|v| *v != picks[0]));
}

#[test]
fn variable_retain_and_replace() {
    let mut var: Variable<u32, char> = Variable::new('x', 0, vec![1, 2, 3, 4, 5]);
    var.retain(|v| v % 2 == 1);
    assert_eq!(var.possible_values(), &vec![1, 3, 5]);
    var.possible_values_mut().push(9);
    assert_eq!(var.possible_values(), &vec![1, 3, 5, 9]);
    var.replace_possible_values(vec![]);
    assert!(!var.is_consistent());
    assert_eq!(var.get_index(), VariableID(0));
}

#[test]
fn from_entries_keeps_order_and_refuses_repeats() {
    let store: VariableProvider<u32, char> =
        VariableProvider::from_entries(vec![('x', vec![1]), ('y', vec![2, 3])]).unwrap();
    assert_eq!(store.find_id('y'), Some(VariableID(1)));
    assert_eq!(store.snapshot(), vec![vec![1], vec![2, 3]]);
    let repeated: Result<VariableProvider<u32, char>, _> =
        VariableProvider::from_entries(vec![('x', vec![1]), ('y', vec![2]), ('x', vec![3])]);
    assert_eq!(repeated.err(), Some(VariableError::DuplicateKey('x')));
}
