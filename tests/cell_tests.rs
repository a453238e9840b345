use std::collections::HashSet;

use wfc_sudoku::cell::Cell;

fn set_of(values: &[u8]) -> HashSet<u8> {
    values.iter().copied().collect()
}

#[test]
fn blank_cell_has_every_candidate() {
    let cell = Cell::new(0, (2, 3));
    assert_eq!(cell.get_num(), None);
    assert!(!cell.get_fixed());
    assert_eq!(cell.entropy(), 9);
    for v in 1..=9u8 {
        assert!(cell.has_option(v));
    }
    assert!(!cell.has_option(0));
    assert!(!cell.has_option(10));
}

#[test]
fn given_cell_is_fixed_without_candidates() {
    let cell = Cell::new(7, (0, 8));
    assert_eq!(cell.get_num(), Some(7));
    assert!(cell.get_fixed());
    assert_eq!(cell.entropy(), 0);
    for v in 0..=10u8 {
        assert!(!cell.has_option(v));
    }
}

#[test]
fn narrowing_removes_only_listed_values() {
    let mut cell = Cell::new(0, (4, 4));
    cell.collapse(set_of(&[1, 5, 9]));
    assert_eq!(cell.entropy(), 6);
    assert!(!cell.has_option(1));
    assert!(!cell.has_option(5));
    assert!(!cell.has_option(9));
    assert!(cell.has_option(2));
    assert!(cell.has_option(8));
    assert_eq!(cell.get_num(), None);
}

#[test]
fn narrowing_ignores_values_outside_the_domain() {
    let mut cell = Cell::new(0, (1, 1));
    cell.collapse(set_of(&[0, 10, 200]));
    assert_eq!(cell.entropy(), 9);
}

#[test]
fn narrowing_a_given_cell_changes_nothing() {
    let mut cell = Cell::new(3, (1, 1));
    cell.collapse(set_of(&[1, 2, 3]));
    assert_eq!(cell.get_num(), Some(3));
    assert!(cell.get_fixed());
    assert_eq!(cell.entropy(), 0);
}

#[test]
fn collapse_with_one_candidate_takes_it() {
    let mut cell = Cell::new(0, (0, 0));
    cell.collapse(set_of(&[1, 2, 3, 4, 5, 6, 7, 8]));
    assert_eq!(cell.entropy(), 1);
    cell.set_num();
    assert_eq!(cell.get_num(), Some(9));
    assert_eq!(cell.entropy(), 0);
    assert!(!cell.get_fixed());
}

#[test]
fn collapse_picks_one_of_the_candidates() {
    for _ in 0..50 {
        let mut cell = Cell::new(0, (0, 0));
        cell.collapse(set_of(&[1, 3, 5, 7, 9]));
        cell.set_num();
        let v = cell.get_num().unwrap();
        assert!([2, 4, 6, 8].contains(&v));
        assert_eq!(cell.entropy(), 0);
    }
}

#[test]
fn collapse_of_a_dead_end_leaves_it_blank() {
    let mut cell = Cell::new(0, (5, 5));
    cell.collapse(set_of(&[1, 2, 3, 4, 5, 6, 7, 8, 9]));
    assert_eq!(cell.entropy(), 0);
    cell.set_num();
    assert_eq!(cell.get_num(), None);
    assert_eq!(cell.entropy(), 0);
}

#[test]
fn collapse_never_undoes_a_resolution() {
    let mut cell = Cell::new(0, (0, 0));
    cell.collapse(set_of(&[1, 2, 3, 4, 5, 6, 8, 9]));
    cell.set_num();
    assert_eq!(cell.get_num(), Some(7));
    cell.set_num();
    assert_eq!(cell.get_num(), Some(7));
    assert_eq!(cell.entropy(), 0);
}

#[test]
fn collapse_keeps_a_given_value() {
    let mut cell = Cell::new(4, (3, 6));
    cell.set_num();
    assert_eq!(cell.get_num(), Some(4));
    assert!(cell.get_fixed());
}
