use wfc_sudoku::sudoku::Sudoku;

const SOLVED: &str = "534678912\
                      672195348\
                      198342567\
                      859761423\
                      426853791\
                      713924856\
                      961537284\
                      287419635\
                      345286179";

const PUZZLE: &str = "530070000\
                      600195000\
                      098000060\
                      800060003\
                      400803001\
                      700020006\
                      060000280\
                      000419005\
                      000080079";

fn digits(text: &str) -> Vec<u8> {
    text.bytes().map(|b| b - b'0').collect()
}

fn board(text: &str) -> Sudoku {
    Sudoku::new(&digits(text)).unwrap()
}

fn related(x1: usize, y1: usize, x2: usize, y2: usize) -> bool {
    x1 == x2 || y1 == y2 || (x1 / 3 == x2 / 3 && y1 / 3 == y2 / 3)
}

fn candidates(s: &Sudoku) -> Vec<Vec<bool>> {
    let mut all = Vec::new();
    for y in 0..9 {
        for x in 0..9 {
            let cell = s.get_cell(x, y);
            all.push((1..=9u8).map(|v| cell.has_option(v)).collect());
        }
    }
    all
}

fn entropies(s: &Sudoku) -> Vec<usize> {
    let mut all = Vec::new();
    for y in 0..9 {
        for x in 0..9 {
            all.push(s.get_cell(x, y).entropy());
        }
    }
    all
}

#[test]
fn new_rejects_wrong_length() {
    assert!(Sudoku::new(&vec![0u8; 80]).is_err());
    assert!(Sudoku::new(&vec![0u8; 82]).is_err());
    assert!(Sudoku::new(&Vec::new()).is_err());
}

#[test]
fn new_rejects_digit_out_of_range() {
    let mut d = vec![0u8; 81];
    d[40] = 10;
    assert!(Sudoku::new(&d).is_err());
}

#[test]
fn new_places_digits_line_by_line() {
    let s = board(PUZZLE);
    assert_eq!(s.get_cell(0, 0).get_num(), Some(5));
    assert_eq!(s.get_cell(1, 0).get_num(), Some(3));
    assert_eq!(s.get_cell(0, 1).get_num(), Some(6));
    assert_eq!(s.get_cell(8, 8).get_num(), Some(9));
    assert!(s.get_cell(8, 8).get_fixed());
    assert_eq!(s.get_cell(2, 0).get_num(), None);
    assert!(!s.get_cell(2, 0).get_fixed());
    assert_eq!(s.get_cell(2, 0).entropy(), 9);
}

#[test]
fn full_valid_grid_is_left_alone() {
    let mut s = board(SOLVED);
    for y in 0..9 {
        for x in 0..9 {
            assert!(s.get_cell(x, y).get_fixed());
        }
    }
    assert!(s.get_lowest_entropy().is_empty());
    let before = digits(SOLVED);
    for _ in 0..10 {
        s.solve();
    }
    for y in 0..9 {
        for x in 0..9 {
            assert_eq!(s.get_cell(x, y).get_num(), Some(before[y * 9 + x]));
            assert!(s.get_cell(x, y).get_fixed());
        }
    }
    assert!(s.check());
}

#[test]
fn empty_grid_ends_resolved_or_stuck() {
    let mut s = Sudoku::new(&vec![0u8; 81]).unwrap();
    for _ in 0..81 {
        s.solve();
    }
    for y in 0..9 {
        for x in 0..9 {
            let cell = s.get_cell(x, y);
            assert!(cell.get_num().is_some() || cell.entropy() == 0);
        }
    }
    let verdict: bool = s.check();
    assert!(verdict || !verdict);
}

#[test]
fn propagation_removes_a_given_value_from_related_cells() {
    let mut d = vec![0u8; 81];
    d[4 * 9 + 4] = 5;
    let mut s = Sudoku::new(&d).unwrap();
    s.collapse();
    for y in 0..9 {
        for x in 0..9 {
            let cell = s.get_cell(x, y);
            if x == 4 && y == 4 {
                assert_eq!(cell.get_num(), Some(5));
            } else if related(4, 4, x, y) {
                assert!(!cell.has_option(5));
                assert_eq!(cell.entropy(), 8);
            } else {
                assert!(cell.has_option(5));
                assert_eq!(cell.entropy(), 9);
            }
        }
    }
}

#[test]
fn propagation_twice_changes_nothing() {
    let mut s = board(PUZZLE);
    s.collapse();
    let first = candidates(&s);
    s.collapse();
    assert_eq!(candidates(&s), first);
}

#[test]
fn entropy_never_grows_over_a_run() {
    let mut s = board(PUZZLE);
    let mut last = entropies(&s);
    for round in 0..60 {
        if round % 2 == 0 {
            s.collapse();
        } else {
            s.solve();
        }
        let now = entropies(&s);
        for k in 0..81 {
            assert!(now[k] <= last[k]);
        }
        last = now;
    }
}

#[test]
fn lowest_entropy_cells_are_open_and_minimal() {
    let mut s = board(PUZZLE);
    s.collapse();
    let chosen = s.get_lowest_entropy();
    assert!(!chosen.is_empty());
    let mut least = 10;
    for y in 0..9 {
        for x in 0..9 {
            let cell = s.get_cell(x, y);
            if !cell.get_fixed() && cell.entropy() > 0 {
                least = least.min(cell.entropy());
            }
        }
    }
    for &(x, y) in &chosen {
        let cell = s.get_cell(x, y);
        assert!(!cell.get_fixed());
        assert_eq!(cell.entropy(), least);
    }
    for y in 0..9 {
        for x in 0..9 {
            let cell = s.get_cell(x, y);
            if !cell.get_fixed() && cell.entropy() == least {
                assert!(chosen.contains(&(x, y)));
            }
        }
    }
}

#[test]
fn lowest_entropy_of_a_fresh_puzzle_lists_every_blank() {
    let s = board(PUZZLE);
    let chosen = s.get_lowest_entropy();
    let blanks = digits(PUZZLE).iter().filter(|d| **d == 0).count();
    assert_eq!(chosen.len(), blanks);
    assert_eq!(chosen[0], (2, 0));
}

#[test]
fn check_accepts_partial_board_without_repeats() {
    assert!(board(PUZZLE).check());
    assert!(Sudoku::new(&vec![0u8; 81]).unwrap().check());
}

#[test]
fn check_rejects_repeat_in_a_row() {
    let mut d = vec![0u8; 81];
    d[0] = 5;
    d[8] = 5;
    assert!(!Sudoku::new(&d).unwrap().check());
}

#[test]
fn check_rejects_repeat_in_a_column() {
    let mut d = vec![0u8; 81];
    d[3] = 2;
    d[8 * 9 + 3] = 2;
    assert!(!Sudoku::new(&d).unwrap().check());
}

#[test]
fn check_rejects_repeat_in_a_box() {
    let mut d = vec![0u8; 81];
    d[0] = 7;
    d[9 + 1] = 7;
    assert!(!Sudoku::new(&d).unwrap().check());
}

#[test]
fn check_rejects_a_broken_full_grid() {
    let mut d = digits(SOLVED);
    d.swap(0, 1);
    assert!(!Sudoku::new(&d).unwrap().check());
}

#[test]
fn given_cells_survive_every_round() {
    let mut s = board(PUZZLE);
    let given = digits(PUZZLE);
    for _ in 0..100 {
        s.solve();
        for y in 0..9 {
            for x in 0..9 {
                if given[y * 9 + x] != 0 {
                    let cell = s.get_cell(x, y);
                    assert!(cell.get_fixed());
                    assert_eq!(cell.get_num(), Some(given[y * 9 + x]));
                }
            }
        }
    }
}

#[test]
fn resolved_cells_stay_resolved() {
    let mut s = Sudoku::new(&vec![0u8; 81]).unwrap();
    s.solve();
    let mut held: Vec<(usize, usize, u8)> = Vec::new();
    for _ in 0..40 {
        for &(x, y, v) in &held {
            let cell = s.get_cell(x, y);
            assert_eq!(cell.get_num(), Some(v));
            assert_eq!(cell.entropy(), 0);
        }
        for y in 0..9 {
            for x in 0..9 {
                if let Some(v) = s.get_cell(x, y).get_num() {
                    if !held.contains(&(x, y, v)) {
                        held.push((x, y, v));
                    }
                }
            }
        }
        s.solve();
    }
    assert!(!held.is_empty());
}

#[test]
fn one_round_resolves_exactly_one_cell_of_an_empty_board() {
    let mut s = Sudoku::new(&vec![0u8; 81]).unwrap();
    s.solve();
    let mut resolved = Vec::new();
    for y in 0..9 {
        for x in 0..9 {
            if let Some(v) = s.get_cell(x, y).get_num() {
                resolved.push((x, y, v));
            }
        }
    }
    assert_eq!(resolved.len(), 1);
    let (rx, ry, v) = resolved[0];
    for y in 0..9 {
        for x in 0..9 {
            let cell = s.get_cell(x, y);
            if (x, y) != (rx, ry) && related(rx, ry, x, y) {
                assert!(!cell.has_option(v));
                assert_eq!(cell.entropy(), 8);
            }
        }
    }
}
