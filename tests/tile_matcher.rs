use std::cmp::Ordering;

use csp_ac3::tile_matcher::{build_arcs, Coordinate, Direction, TileSet};

#[test]
fn tile_matcher_cmp_coordinates() {
    assert_eq!(Ordering::Less, Coordinate::new(1, 1).cmp(&Coordinate::new(2, 2)));
}

#[test]
fn tile_matcher_coordinate_is_adjacent() {
    let c0_0 = Coordinate::new(0, 0);
    let c1_1 = Coordinate::new(1, 1);
    let c0_1 = Coordinate::new(0, 1);
    assert_eq!(c0_0.is_adjacent(&c1_1), None);
    assert_eq!(c0_0.is_adjacent(&c0_1), Some(Direction::Up));
    assert_eq!(c0_1.is_adjacent(&c0_0), Some(Direction::Down));
    assert_eq!(c0_1.is_adjacent(&c1_1), Some(Direction::Right));
    assert_eq!(c1_1.is_adjacent(&c0_1), Some(Direction::Left));
}

#[test]
fn tile_matcher_new_tileset() {
    let t = TileSet::default();
    assert_eq!(t.tiles.len(), 10);
}

#[test]
fn tile_matcher_check_ignores_unrelated_coordinates() {
    let t = TileSet::default();
    assert_eq!(t.tiles.len(), 10);
    assert!(!t.check(Coordinate::new(0, 0), &0, Coordinate::new(2, 0), &0));
}

#[test]
fn tile_matcher_check_related() {
    let t = TileSet::default();
    assert_eq!(t.tiles.len(), 10);
    assert!(t.check(Coordinate::new(0, 0), &0, Coordinate::new(1, 0), &0));
}

#[test]
fn tile_matcher_check_for_non_related() {
    let t = TileSet::default();
    assert_eq!(t.tiles.len(), 10);
    assert!(!t.check(Coordinate::new(0, 0), &0, Coordinate::new(1, 0), &5));
}

#[test]
fn tile_matcher_direction_reverse() {
    assert_eq!(Direction::Up.reverse(), Direction::Down);
    assert_eq!(Direction::Down.reverse(), Direction::Up);
    assert_eq!(Direction::Left.reverse(), Direction::Right);
    assert_eq!(Direction::Right.reverse(), Direction::Left);
}

#[test]
fn coordinate_arcs_of_small_grid() {
    let arcs = build_arcs(3, 2);
    assert_eq!(arcs.len(), 14);
    for (i, arc) in arcs.iter().enumerate() {
        assert!(!arcs[i + 1..].contains(arc));
    }
    for (a, b) in &arcs {
        assert!(a.is_adjacent(b).is_some());
        assert!(arcs.contains(&(*b, *a)));
    }
    assert!(build_arcs(0, 5).is_empty());
    assert!(build_arcs(1, 1).is_empty());
}

#[test]
fn neighbours_far_apart_are_not_adjacent() {
    assert_eq!(Coordinate::new(0, 0).is_adjacent(&Coordinate::new(1, 5)), None);
    assert_eq!(Coordinate::new(3, 3).is_adjacent(&Coordinate::new(3, 3)), None);
    assert_eq!(
        Coordinate::new(usize::MAX, 0).is_adjacent(&Coordinate::new(usize::MAX - 1, 0)),
        Some(Direction::Left)
    );
}
