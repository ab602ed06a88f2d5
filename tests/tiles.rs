use std::cmp::Ordering;

use csp_ac3::ac3::ConstraintProvider;
use csp_ac3::tile_matcher::{Coordinate, Direction};
use csp_ac3::tiles::{insert, Tile, TileSet};
use csp_ac3::variable_provider::VariableProvider;

#[test]
fn main_cmp_coordinates() {
    assert_eq!(Ordering::Less, Coordinate::new(1, 1).cmp(&Coordinate::new(2, 2)));
}

#[test]
fn main_coordinate_is_adjacent() {
    let c0_0 = Coordinate::new(0, 0);
    let c1_1 = Coordinate::new(1, 1);
    let c0_1 = Coordinate::new(0, 1);
    assert_eq!(c0_0.is_adjacent(&c1_1), None);
    assert_eq!(c0_0.is_adjacent(&c0_1), Some(Direction::Up));
    assert_eq!(c0_1.is_adjacent(&c0_0), Some(Direction::Down));
    assert_eq!(c0_1.is_adjacent(&c1_1), Some(Direction::Right));
    assert_eq!(c1_1.is_adjacent(&c0_1), Some(Direction::Left));
}

#[test]
fn main_new_tileset() {
    let t = TileSet::default();
    assert!(t.relations.len() > 4);
}

#[test]
fn main_check_ignores_unrelated_coordinates() {
    let t = TileSet::default();
    let mut vars = VariableProvider::<Tile, Coordinate>::default();
    let a = vars.add_var(Coordinate::new(0, 0), vec![]).unwrap();
    let b = vars.add_var(Coordinate::new(2, 0), vec![]).unwrap();
    assert!(!t.check(
        vars.get_var(a).unwrap(),
        &Tile::Inside,
        vars.get_var(b).unwrap(),
        &Tile::Inside
    ));
}

#[test]
fn main_check_related() {
    let t = TileSet::default();
    let mut vars = VariableProvider::<Tile, Coordinate>::default();
    let a = vars
        .add_var(Coordinate::new(0, 0), vec![Tile::VWall, Tile::Outside])
        .unwrap();
    let b = vars
        .add_var(Coordinate::new(1, 0), vec![Tile::VWall, Tile::Outside])
        .unwrap();
    assert!(t.check(
        vars.get_var(a).unwrap(),
        &Tile::Outside,
        vars.get_var(b).unwrap(),
        &Tile::Outside
    ));
}

#[test]
fn main_check_for_non_related() {
    let t = TileSet::default();
    let mut vars = VariableProvider::<Tile, Coordinate>::default();
    let a = vars.add_var(Coordinate::new(0, 0), vec![]).unwrap();
    let b = vars.add_var(Coordinate::new(1, 0), vec![]).unwrap();
    assert!(!t.check(
        vars.get_var(a).unwrap(),
        &Tile::Outside,
        vars.get_var(b).unwrap(),
        &Tile::Inside
    ));
}

#[test]
fn main_direction_reverse() {
    assert_eq!(Direction::Up.reverse(), Direction::Down);
    assert_eq!(Direction::Down.reverse(), Direction::Up);
    assert_eq!(Direction::Left.reverse(), Direction::Right);
    assert_eq!(Direction::Right.reverse(), Direction::Left);
}

#[test]
fn coordinate_display() {
    assert_eq!(Coordinate::new(0, 3).text(), "(0, 3)".to_string());
}

#[test]
fn coordinate_display_many_digits() {
    assert_eq!(Coordinate::new(120, 45).text(), "(120, 45)".to_string());
}

#[test]
fn partial_cmp_coordinate() {
    assert_eq!(
        Coordinate::new(0, 1).partial_cmp(&Coordinate::new(1, 0)),
        Some(Ordering::Less)
    );
}

#[test]
fn display_tile() {
    assert_eq!("▓".to_string(), Tile::Inside.text());
}

#[test]
fn ch_tile() {
    let expected = ['░', '┌', '─', '┐', '│', '▓', '└', '┘'];
    for (i, t) in [
        Tile::Outside,
        Tile::TLCorner,
        Tile::HWall,
        Tile::TRCorner,
        Tile::VWall,
        Tile::Inside,
        Tile::BLCorner,
        Tile::BRCorner,
    ]
    .iter()
    .enumerate()
    {
        assert_eq!(t.ch(), expected[i]);
        assert_eq!(t.idx(), i);
    }
    assert_eq!(Tile::len(), 8);
}

#[test]
fn build_arcs() {
    let mut vars = VariableProvider::<Tile, Coordinate>::default();
    let x_lim = 3;
    let y_lim = 2;

    for x in 0..x_lim {
        for y in 0..y_lim {
            vars.add_var(Coordinate::new(x, y), vec![]).unwrap();
        }
    }

    let arcs = csp_ac3::tiles::build_arcs(&vars, x_lim, y_lim);
    assert_eq!(arcs.len(), 14);
}

#[test]
fn insert_fixes_covered_cells() {
    let mut vars = VariableProvider::<Tile, Coordinate>::default();
    let all = vec![Tile::Outside, Tile::Inside];
    for x in 0..4 {
        for y in 0..3 {
            vars.add_var(Coordinate::new(x, y), all.clone()).unwrap();
        }
    }
    insert(
        &mut vars,
        Coordinate::new(2, 1),
        vec![vec![Tile::Inside, Tile::Inside, Tile::Inside], vec![Tile::VWall]],
    );
    let at = |x: usize, y: usize| vars.find_var(Coordinate::new(x, y)).unwrap().possible_values().clone();
    assert_eq!(at(2, 1), vec![Tile::Inside]);
    assert_eq!(at(3, 1), vec![Tile::Inside]);
    assert_eq!(at(2, 2), vec![Tile::VWall]);
    assert_eq!(at(3, 2), all);
    assert_eq!(at(1, 1), all);
    assert_eq!(at(0, 0), all);
}

#[test]
fn coordinate_display_digit_boundaries() {
    assert_eq!(Coordinate::new(10, 9).text(), "(10, 9)".to_string());
    assert_eq!(Coordinate::new(1000, 18446744073709551615).text(), "(1000, 18446744073709551615)".to_string());
}
