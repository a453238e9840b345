use std::collections::HashSet;
use vstd::prelude::*;

use crate::cell::Cell;
use crate::rng::choose_one;

verus! {

broadcast use vstd::std_specs::hash::group_hash_axioms;

/// Two coordinates share a row, a column or a 3x3 box (a coordinate is
/// related to itself).
pub open spec fn related(x1: int, y1: int, x2: int, y2: int) -> bool {
    x1 == x2 || y1 == y2 || (x1 / 3 == x2 / 3 && y1 / 3 == y2 / 3)
}

pub open spec fn in_grid(x: int, y: int) -> bool {
    0 <= x < 9 && 0 <= y < 9
}

/// `c` is what `Cell::new` makes of digit `d`.
pub open spec fn from_digit(c: Cell, d: u8) -> bool {
    &&& d == 0 ==> !c.is_fixed() && c.value() is None && forall|v: int|
        1 <= v <= 9 ==> #[trigger] c.has(v)
    &&& d != 0 ==> c.is_fixed() && c.value() == Some(d) && c.no_candidates()
}

pub open spec fn valid_digits(digits: Seq<u8>) -> bool {
    digits.len() == 81 && forall|k: int| 0 <= k < 81 ==> #[trigger] digits[k] <= 9
}

/// Some cell related to `(x, y)` holds `n`; with `include_self` false the cell
/// at `(x, y)` itself does not count.
pub open spec fn seen_value(s: Sudoku, x: int, y: int, n: u8, include_self: bool) -> bool {
    exists|x2: int, y2: int|
        in_grid(x2, y2) && related(x, y, x2, y2) && (include_self || x2 != x || y2 != y)
            && (#[trigger] s.cell(x2, y2)).value() == Some(n)
}

/// `b` is `a` after one propagation round: values are kept, and each cell
/// loses every candidate that a related cell of `a` holds as its value.
pub open spec fn propagated(a: Sudoku, b: Sudoku) -> bool {
    forall|x: int, y: int|
        in_grid(x, y) ==> {
            &&& (#[trigger] b.cell(x, y)).value() == a.cell(x, y).value()
            &&& b.cell(x, y).is_fixed() == a.cell(x, y).is_fixed()
            &&& b.cell(x, y).position() == a.cell(x, y).position()
            &&& forall|v: int| #[trigger]
                b.cell(x, y).has(v) == (a.cell(x, y).has(v) && !seen_value(a, x, y, v as u8, true))
        }
}

/// The value of the cell at `(x, y)`, if any, is held by no other related cell.
pub open spec fn no_conflict_at(s: Sudoku, x: int, y: int) -> bool {
    s.cell(x, y).value() is Some ==> !seen_value(s, x, y, s.cell(x, y).value().unwrap(), false)
}

/// No two distinct related cells hold the same value.
pub open spec fn conflict_free(s: Sudoku) -> bool {
    forall|x: int, y: int| in_grid(x, y) ==> #[trigger] no_conflict_at(s, x, y)
}

pub open spec fn same_values(a: Sudoku, b: Sudoku) -> bool {
    forall|x: int, y: int|
        in_grid(x, y) ==> (#[trigger] b.cell(x, y)).value() == a.cell(x, y).value()
}

pub proof fn lemma_seen_same_values(a: Sudoku, b: Sudoku)
    requires
        same_values(a, b),
    ensures
        forall|x: int, y: int, n: u8, include_self: bool|
            #[trigger] seen_value(a, x, y, n, include_self) == seen_value(b, x, y, n, include_self),
{
    assert forall|x: int, y: int, n: u8, include_self: bool|
        #[trigger] seen_value(a, x, y, n, include_self) == seen_value(b, x, y, n, include_self) by {
        if seen_value(a, x, y, n, include_self) {
            let (x2, y2) = choose|x2: int, y2: int|
                in_grid(x2, y2) && related(x, y, x2, y2) && (include_self || x2 != x || y2 != y)
                    && (#[trigger] a.cell(x2, y2)).value() == Some(n);
            assert(b.cell(x2, y2).value() == Some(n));
        }
        if seen_value(b, x, y, n, include_self) {
            let (x2, y2) = choose|x2: int, y2: int|
                in_grid(x2, y2) && related(x, y, x2, y2) && (include_self || x2 != x || y2 != y)
                    && (#[trigger] b.cell(x2, y2)).value() == Some(n);
            assert(a.cell(x2, y2).value() == Some(n));
        }
    }
}

/// A cell that selection may pick: not given, with candidates left.
pub open spec fn eligible(s: Sudoku, x: int, y: int) -> bool {
    !s.cell(x, y).is_fixed() && s.cell(x, y).entropy_spec() > 0
}

/// An eligible cell whose entropy no eligible cell undercuts.
pub open spec fn lowest(s: Sudoku, x: int, y: int) -> bool {
    &&& in_grid(x, y)
    &&& eligible(s, x, y)
    &&& forall|x2: int, y2: int|
        in_grid(x2, y2) && #[trigger] eligible(s, x2, y2) ==> s.cell(x, y).entropy_spec()
            <= s.cell(x2, y2).entropy_spec()
}

/// `b` is `a` with the cell at `(x, y)` resolved to one of its candidates.
pub open spec fn settled_at(a: Sudoku, b: Sudoku, x: int, y: int) -> bool {
    &&& forall|x2: int, y2: int|
        in_grid(x2, y2) && (x2 != x || y2 != y) ==> #[trigger] b.cell(x2, y2) == a.cell(x2, y2)
    &&& b.cell(x, y).position() == a.cell(x, y).position()
    &&& b.cell(x, y).is_fixed() == a.cell(x, y).is_fixed()
    &&& b.cell(x, y).no_candidates()
    &&& b.cell(x, y).value() is Some
    &&& a.cell(x, y).has(b.cell(x, y).value().unwrap() as int)
}

/// `c` is what one solving round can make of `a`: a propagation round; then,
/// unless no cell is eligible, one lowest-entropy cell resolved and another
/// propagation round.
pub open spec fn stepped(a: Sudoku, c: Sudoku) -> bool {
    exists|m: Sudoku|
        #[trigger] propagated(a, m) && m.wf() && ((c == m && forall|x: int, y: int|
            !#[trigger] lowest(m, x, y)) || exists|m2: Sudoku, x: int, y: int|
            lowest(m, x, y) && #[trigger] settled_at(m, m2, x, y) && propagated(m2, c))
}

/// A 9x9 board of cells. The cell at `grid[x][y]` stands in column `x` of
/// line `y` and records `(x, y)` as its position.
#[derive(Clone, Copy, Debug)]
pub struct Sudoku {
    pub(crate) grid: [[Cell; 9]; 9],
}

impl Sudoku {
    pub open(crate) spec fn cell(self, x: int, y: int) -> Cell {
        self.grid@[x]@[y]
    }

    pub open(crate) spec fn wf(self) -> bool {
        forall|x: int, y: int|
            in_grid(x, y) ==> #[trigger] self.cell(x, y).wf() && self.cell(x, y).position() == (
                x as usize,
                y as usize,
            )
    }

    /// Builds a board from 81 digits, line after line, nine to a line; 0 marks
    /// a blank.
    pub fn new(digits: &Vec<u8>) -> (r: Result<Self, &'static str>)
        ensures
            r is Ok <==> valid_digits(digits@),
            r matches Ok(s) ==> s.wf() && forall|x: int, y: int|
                in_grid(x, y) ==> from_digit(#[trigger] s.cell(x, y), digits@[y * 9 + x]),
    {
        if digits.len() != 81 {
            return Err("expected 81 digits");
        }
        for k in 0..81
            invariant
                digits@.len() == 81,
                forall|m: int| 0 <= m < k ==> #[trigger] digits@[m] <= 9,
        {
            if digits[k] > 9 {
                return Err("digit out of range");
            }
        }
        let blank = Cell::new(0, (0, 0));
        let mut grid: [[Cell; 9]; 9] = [[blank; 9]; 9];
        for j in 0..9
            invariant
                valid_digits(digits@),
                forall|x: int, y: int|
                    in_grid(x, y) && y < j ==> (#[trigger] grid@[x]@[y]).wf() && grid@[x]@[y].position() == (
                        x as usize,
                        y as usize,
                    ) && from_digit(grid@[x]@[y], digits@[y * 9 + x]),
        {
            for i in 0..9
                invariant
                    valid_digits(digits@),
                    j < 9,
                    forall|x: int, y: int|
                        in_grid(x, y) && (y < j || (y == j && x < i)) ==> (#[trigger] grid@[x]@[y]).wf()
                            && grid@[x]@[y].position() == (x as usize, y as usize) && from_digit(
                            grid@[x]@[y],
                            digits@[y * 9 + x],
                        ),
            {
                grid[i][j] = Cell::new(digits[j * 9 + i], (i, j));
            }
        }
        Ok(Sudoku { grid })
    }

    fn get_row(&self, pos: (usize, usize)) -> (r: Vec<Cell>)
        requires
            pos.1 < 9,
        ensures
            r@.len() == 9,
            forall|t: int| 0 <= t < 9 ==> #[trigger] r@[t] == self.cell(t, pos.1 as int),
    {
        let y = pos.1;
        let mut row: Vec<Cell> = Vec::new();
        for x in 0..9
            invariant
                y < 9,
                row@.len() == x,
                forall|t: int| 0 <= t < x ==> #[trigger] row@[t] == self.cell(t, y as int),
        {
            row.push(self.grid[x][y]);
        }
        row
    }

    fn get_column(&self, pos: (usize, usize)) -> (r: Vec<Cell>)
        requires
            pos.0 < 9,
        ensures
            r@.len() == 9,
            forall|t: int| 0 <= t < 9 ==> #[trigger] r@[t] == self.cell(pos.0 as int, t),
    {
        let x = pos.0;
        let mut column: Vec<Cell> = Vec::new();
        for y in 0..9
            invariant
                x < 9,
                column@.len() == y,
                forall|t: int| 0 <= t < y ==> #[trigger] column@[t] == self.cell(x as int, t),
        {
            column.push(self.grid[x][y]);
        }
        column
    }

    fn get_box(&self, pos: (usize, usize)) -> (r: Vec<Cell>)
        requires
            pos.0 < 9,
            pos.1 < 9,
        ensures
            r@.len() == 9,
            forall|di: int, dj: int|
                0 <= di < 3 && 0 <= dj < 3 ==> #[trigger] r@[dj * 3 + di] == self.cell(
                    pos.0 / 3 * 3 + di,
                    pos.1 / 3 * 3 + dj,
                ),
    {
        let (box_x, box_y) = (pos.0 / 3 * 3, pos.1 / 3 * 3);
        let mut sudoku_box: Vec<Cell> = Vec::new();
        for j in 0usize..3
            invariant
                box_x == pos.0 / 3 * 3,
                box_y == pos.1 / 3 * 3,
                box_x <= 6,
                box_y <= 6,
                sudoku_box@.len() == j * 3,
                forall|di: int, dj: int|
                    0 <= di < 3 && 0 <= dj < j ==> #[trigger] sudoku_box@[dj * 3 + di] == self.cell(
                        box_x + di,
                        box_y + dj,
                    ),
        {
            for i in 0usize..3
                invariant
                    box_x == pos.0 / 3 * 3,
                    box_y == pos.1 / 3 * 3,
                    box_x <= 6,
                    box_y <= 6,
                    j < 3,
                    sudoku_box@.len() == j * 3 + i,
                    forall|di: int, dj: int|
                        0 <= di < 3 && 0 <= dj < 3 && (dj < j || (dj == j && di < i))
                            ==> #[trigger] sudoku_box@[dj * 3 + di] == self.cell(
                            box_x + di,
                            box_y + dj,
                        ),
            {
                sudoku_box.push(self.grid[i + box_x][j + box_y]);
            }
        }
        sudoku_box
    }
    /// The values held by the cells related to `pos`.
    fn neighbor_values(&self, pos: (usize, usize), include_self: bool) -> (r: HashSet<u8>)
        requires
            pos.0 < 9,
            pos.1 < 9,
        ensures
            forall|n: u8| #[trigger]
                r@.contains(n) <==> seen_value(*self, pos.0 as int, pos.1 as int, n, include_self),
    {
        let (x, y) = pos;
        let mut neighbors: HashSet<u8> = HashSet::new();
        let row = self.get_row(pos);
        for t in 0usize..9
            invariant
                x < 9,
                y < 9,
                row@.len() == 9,
                forall|k: int| 0 <= k < 9 ==> #[trigger] row@[k] == self.cell(k, y as int),
                forall|n: u8| #[trigger]
                    neighbors@.contains(n) ==> seen_value(*self, x as int, y as int, n, include_self),
                forall|k: int|
                    0 <= k < t && (include_self || k != x) && (#[trigger] row@[k]).value() is Some ==> neighbors@.contains(
                        row@[k].value().unwrap(),
                    ),
        {
            if include_self || t != x {
                match row[t].get_num() {
                    Some(n) => {
                        assert(self.cell(t as int, y as int).value() == Some(n));
                        neighbors.insert(n);
                    },
                    None => {},
                }
            }
        }
        let column = self.get_column(pos);
        for t in 0usize..9
            invariant
                x < 9,
                y < 9,
                row@.len() == 9,
                forall|k: int| 0 <= k < 9 ==> #[trigger] row@[k] == self.cell(k, y as int),
                column@.len() == 9,
                forall|k: int| 0 <= k < 9 ==> #[trigger] column@[k] == self.cell(x as int, k),
                forall|n: u8| #[trigger]
                    neighbors@.contains(n) ==> seen_value(*self, x as int, y as int, n, include_self),
                forall|k: int|
                    0 <= k < 9 && (include_self || k != x) && (#[trigger] row@[k]).value() is Some ==> neighbors@.contains(
                        row@[k].value().unwrap(),
                    ),
                forall|k: int|
                    0 <= k < t && (include_self || k != y) && (#[trigger] column@[k]).value() is Some ==> neighbors@.contains(
                        column@[k].value().unwrap(),
                    ),
        {
            if include_self || t != y {
                match column[t].get_num() {
                    Some(n) => {
                        assert(self.cell(x as int, t as int).value() == Some(n));
                        neighbors.insert(n);
                    },
                    None => {},
                }
            }
        }
        let sudoku_box = self.get_box(pos);
        let (box_x, box_y) = (x / 3 * 3, y / 3 * 3);
        for t in 0usize..9
            invariant
                x < 9,
                y < 9,
                box_x == x / 3 * 3,
                box_y == y / 3 * 3,
                row@.len() == 9,
                forall|k: int| 0 <= k < 9 ==> #[trigger] row@[k] == self.cell(k, y as int),
                column@.len() == 9,
                forall|k: int| 0 <= k < 9 ==> #[trigger] column@[k] == self.cell(x as int, k),
                sudoku_box@.len() == 9,
                forall|di: int, dj: int|
                    0 <= di < 3 && 0 <= dj < 3 ==> #[trigger] sudoku_box@[dj * 3 + di] == self.cell(
                        box_x + di,
                        box_y + dj,
                    ),
                forall|n: u8| #[trigger]
                    neighbors@.contains(n) ==> seen_value(*self, x as int, y as int, n, include_self),
                forall|k: int|
                    0 <= k < 9 && (include_self || k != x) && (#[trigger] row@[k]).value() is Some ==> neighbors@.contains(
                        row@[k].value().unwrap(),
                    ),
                forall|k: int|
                    0 <= k < 9 && (include_self || k != y) && (#[trigger] column@[k]).value() is Some ==> neighbors@.contains(
                        column@[k].value().unwrap(),
                    ),
                forall|di: int, dj: int|
                    0 <= di < 3 && 0 <= dj < 3 && dj * 3 + di < t && (include_self || box_x + di != x
                        || box_y + dj != y) && (#[trigger] sudoku_box@[dj * 3 + di]).value() is Some ==> neighbors@.contains(
                        sudoku_box@[dj * 3 + di].value().unwrap(),
                    ),
        {
            let di: usize = t % 3;
            let dj: usize = t / 3;
            assert(t == dj * 3 + di);
            if include_self || box_x + di != x || box_y + dj != y {
                match sudoku_box[t].get_num() {
                    Some(n) => {
                        assert(sudoku_box@[dj * 3 + di] == self.cell(box_x + di, box_y + dj));
                        assert(self.cell(box_x + di, box_y + dj).value() == Some(n));
                        neighbors.insert(n);
                    },
                    None => {},
                }
            }
        }
        assert forall|n: u8| #[trigger]
            seen_value(*self, x as int, y as int, n, include_self) implies neighbors@.contains(n) by {
            let (x2, y2) = choose|x2: int, y2: int|
                in_grid(x2, y2) && related(x as int, y as int, x2, y2) && (include_self || x2 != x
                    || y2 != y) && (#[trigger] self.cell(x2, y2)).value() == Some(n);
            if y2 == y {
                assert(row@[x2] == self.cell(x2, y2));
            } else if x2 == x {
                assert(column@[y2] == self.cell(x2, y2));
            } else {
                let di = x2 - box_x;
                let dj = y2 - box_y;
                assert(0 <= di < 3 && 0 <= dj < 3);
                assert(sudoku_box@[dj * 3 + di] == self.cell(x2, y2));
            }
        }
        neighbors
    }
    /// One propagation round: every cell drops the candidates held as values
    /// by the cells related to it.
    pub fn collapse(&mut self)
        requires
            old(self).wf(),
        ensures
            final(self).wf(),
            propagated(*old(self), *final(self)),
    {
        let ghost start = *self;
        for j in 0usize..9
            invariant
                self.wf(),
                start.wf(),
                same_values(start, *self),
                forall|x: int, y: int|
                    in_grid(x, y) && y < j ==> {
                        &&& (#[trigger] self.cell(x, y)).is_fixed() == start.cell(x, y).is_fixed()
                        &&& forall|v: int| #[trigger]
                            self.cell(x, y).has(v) == (start.cell(x, y).has(v) && !seen_value(
                                start,
                                x,
                                y,
                                v as u8,
                                true,
                            ))
                    },
                forall|x: int, y: int|
                    in_grid(x, y) && y >= j ==> #[trigger] self.cell(x, y) == start.cell(x, y),
        {
            for i in 0usize..9
                invariant
                    j < 9,
                    self.wf(),
                    start.wf(),
                    same_values(start, *self),
                    forall|x: int, y: int|
                        in_grid(x, y) && (y < j || (y == j && x < i)) ==> {
                            &&& (#[trigger] self.cell(x, y)).is_fixed() == start.cell(x, y).is_fixed()
                            &&& forall|v: int| #[trigger]
                                self.cell(x, y).has(v) == (start.cell(x, y).has(v) && !seen_value(
                                    start,
                                    x,
                                    y,
                                    v as u8,
                                    true,
                                ))
                        },
                    forall|x: int, y: int|
                        in_grid(x, y) && (y > j || (y == j && x >= i)) ==> #[trigger] self.cell(x, y)
                            == start.cell(x, y),
            {
                let neighbors = self.neighbor_values((i, j), true);
                proof {
                    lemma_seen_same_values(start, *self);
                }
                let ghost before = *self;
                assert(before.cell(i as int, j as int).wf());
                let mut cell = self.grid[i][j];
                cell.collapse(neighbors);
                self.grid[i][j] = cell;
                assert(self.cell(i as int, j as int) == cell);
                assert(forall|x: int, y: int|
                    in_grid(x, y) && (x != i || y != j) ==> #[trigger] self.cell(x, y) == before.cell(
                        x,
                        y,
                    ));
            }
        }
        assert forall|x: int, y: int| in_grid(x, y) implies {
            &&& (#[trigger] self.cell(x, y)).value() == start.cell(x, y).value()
            &&& self.cell(x, y).is_fixed() == start.cell(x, y).is_fixed()
            &&& self.cell(x, y).position() == start.cell(x, y).position()
            &&& forall|v: int| #[trigger]
                self.cell(x, y).has(v) == (start.cell(x, y).has(v) && !seen_value(
                    start,
                    x,
                    y,
                    v as u8,
                    true,
                ))
        } by {
            assert(self.cell(x, y).wf() && start.cell(x, y).wf());
        }
    }

    /// Whether no cell's value is also held by another cell of its row, its
    /// column or its box. Blank cells never conflict.
    pub fn check(&self) -> (r: bool)
        requires
            self.wf(),
        ensures
            r == conflict_free(*self),
    {
        for j in 0usize..9
            invariant
                forall|x: int, y: int| in_grid(x, y) && y < j ==> #[trigger] no_conflict_at(*self, x, y),
        {
            for i in 0usize..9
                invariant
                    j < 9,
                    forall|x: int, y: int|
                        in_grid(x, y) && (y < j || (y == j && x < i)) ==> #[trigger] no_conflict_at(
                            *self,
                            x,
                            y,
                        ),
            {
                let neighbors = self.neighbor_values((i, j), false);
                match self.grid[i][j].get_num() {
                    Some(n) => {
                        if neighbors.contains(&n) {
                            assert(!no_conflict_at(*self, i as int, j as int));
                            return false;
                        }
                    },
                    None => {},
                }
            }
        }
        true
    }
    /// The coordinates of every lowest-entropy cell among the cells that are
    /// not given and still have candidates; empty when there is none.
    pub fn get_lowest_entropy(&self) -> (r: Vec<(usize, usize)>)
        requires
            self.wf(),
        ensures
            forall|k: int| 0 <= k < r@.len() ==> lowest(*self, r@[k].0 as int, r@[k].1 as int),
            forall|x: int, y: int|
                #[trigger] lowest(*self, x, y) ==> r@.contains((x as usize, y as usize)),
            r@.no_duplicates(),
    {
        let mut lowest_entropy: usize = 10;
        let mut options: Vec<(usize, usize)> = Vec::new();
        for j in 0usize..9
            invariant
                self.wf(),
                lowest_entropy <= 10,
                lowest_entropy < 10 ==> options@.len() > 0,
                forall|x: int, y: int|
                    in_grid(x, y) && y < j && #[trigger] eligible(*self, x, y) ==> lowest_entropy
                        <= self.cell(x, y).entropy_spec(),
                forall|k: int|
                    0 <= k < options@.len() ==> {
                        &&& in_grid(#[trigger] options@[k].0 as int, options@[k].1 as int)
                        &&& options@[k].1 < j
                        &&& eligible(*self, options@[k].0 as int, options@[k].1 as int)
                        &&& self.cell(options@[k].0 as int, options@[k].1 as int).entropy_spec()
                            == lowest_entropy
                    },
                forall|x: int, y: int|
                    in_grid(x, y) && y < j && #[trigger] eligible(*self, x, y)
                        && self.cell(x, y).entropy_spec() == lowest_entropy ==> options@.contains(
                        (x as usize, y as usize),
                    ),
                forall|k1: int, k2: int|
                    0 <= k1 < k2 < options@.len() ==> #[trigger] options@[k1].1 * 9 + options@[k1].0
                        < #[trigger] options@[k2].1 * 9 + options@[k2].0,
        {
            for i in 0usize..9
                invariant
                    self.wf(),
                    j < 9,
                    lowest_entropy <= 10,
                    lowest_entropy < 10 ==> options@.len() > 0,
                lowest_entropy < 10 ==> options@.len() > 0,
                    forall|x: int, y: int|
                        in_grid(x, y) && (y < j || (y == j && x < i)) && #[trigger] eligible(
                            *self,
                            x,
                            y,
                        ) ==> lowest_entropy <= self.cell(x, y).entropy_spec(),
                    forall|k: int|
                        0 <= k < options@.len() ==> {
                            &&& in_grid(#[trigger] options@[k].0 as int, options@[k].1 as int)
                            &&& options@[k].1 * 9 + options@[k].0 < j * 9 + i
                            &&& eligible(*self, options@[k].0 as int, options@[k].1 as int)
                            &&& self.cell(options@[k].0 as int, options@[k].1 as int).entropy_spec()
                                == lowest_entropy
                        },
                    forall|x: int, y: int|
                        in_grid(x, y) && (y < j || (y == j && x < i)) && #[trigger] eligible(
                            *self,
                            x,
                            y,
                        ) && self.cell(x, y).entropy_spec() == lowest_entropy ==> options@.contains(
                            (x as usize, y as usize),
                        ),
                    forall|k1: int, k2: int|
                        0 <= k1 < k2 < options@.len() ==> #[trigger] options@[k1].1 * 9
                            + options@[k1].0 < #[trigger] options@[k2].1 * 9 + options@[k2].0,
            {
                let cell = self.grid[i][j];
                assert(cell == self.cell(i as int, j as int));
                proof {
                    cell.lemma_entropy();
                }
                let entropy = cell.entropy();
                if !cell.get_fixed() && entropy > 0 {
                    if entropy < lowest_entropy {
                        lowest_entropy = entropy;
                        options = Vec::new();
                        options.push((i, j));
                        assert(options@[0] == (i, j));
                    } else if entropy == lowest_entropy {
                        let ghost before = options@;
                        options.push((i, j));
                        assert forall|x: int, y: int|
                            in_grid(x, y) && (y < j || (y == j && x <= i)) && #[trigger] eligible(
                                *self,
                                x,
                                y,
                            ) && self.cell(x, y).entropy_spec() == lowest_entropy implies options@.contains(
                            (x as usize, y as usize),
                        ) by {
                            if x == i && y == j {
                                assert(options@[before.len() as int] == (i, j));
                            } else {
                                let k = choose|k: int|
                                    0 <= k < before.len() && before[k] == (x as usize, y as usize);
                                assert(options@[k] == before[k]);
                            }
                        }
                    }
                }
            }
        }
        assert forall|x: int, y: int| #[trigger]
            lowest(*self, x, y) implies options@.contains((x as usize, y as usize)) by {
            self.cell(x, y).lemma_entropy();
            assert(eligible(*self, x, y));
            let (ox, oy) = (options@[0].0 as int, options@[0].1 as int);
            assert(in_grid(ox, oy));
            assert(eligible(*self, ox, oy));
        }
        assert forall|k1: int, k2: int|
            0 <= k1 < options@.len() && 0 <= k2 < options@.len() && k1 != k2 implies options@[k1]
            != options@[k2] by {
            if k1 < k2 {
                assert(options@[k1].1 * 9 + options@[k1].0 < options@[k2].1 * 9 + options@[k2].0);
            } else {
                assert(options@[k2].1 * 9 + options@[k2].0 < options@[k1].1 * 9 + options@[k1].0);
            }
        }
        options
    }

    /// One solving round: propagate, resolve one lowest-entropy cell picked
    /// at random (nothing when no cell is eligible), and propagate again.
    pub fn solve(&mut self)
        requires
            old(self).wf(),
        ensures
            final(self).wf(),
            stepped(*old(self), *final(self)),
    {
        let ghost start = *self;
        self.collapse();
        let options = self.get_lowest_entropy();
        let ghost mid = *self;
        let (i, j) = match choose_one(&options) {
            Some(option) => option,
            None => {
                assert(propagated(start, mid));
                return ;
            },
        };
        assert(lowest(mid, i as int, j as int));
        let mut cell = self.grid[i][j];
        assert(cell == mid.cell(i as int, j as int));
        proof {
            cell.lemma_entropy();
        }
        cell.set_num();
        self.grid[i][j] = cell;
        let ghost settled = *self;
        assert(settled.cell(i as int, j as int) == cell);
        assert(settled_at(mid, settled, i as int, j as int));
        assert(settled.wf()) by {
            assert forall|x: int, y: int| in_grid(x, y) implies #[trigger] settled.cell(x, y).wf()
                && settled.cell(x, y).position() == (x as usize, y as usize) by {
                assert(mid.cell(x, y).wf());
                if x != i || y != j {
                    assert(settled.cell(x, y) == mid.cell(x, y));
                }
            }
        }
        self.collapse();
        assert(propagated(start, mid));
    }
    /// The cell in column `x` of line `y`.
    pub fn get_cell(&self, x: usize, y: usize) -> (r: Cell)
        requires
            x < 9,
            y < 9,
        ensures
            r == self.cell(x as int, y as int),
    {
        self.grid[x][y]
    }
}

} // verus!
