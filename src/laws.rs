//! Properties of the solving procedure that hold on every board and every run.
use vstd::prelude::*;

use crate::sudoku::{
    conflict_free, in_grid, lemma_seen_same_values, lowest, no_conflict_at, propagated, related,
    same_values, seen_value, settled_at, stepped, Sudoku,
};

verus! {

/// Within each row, each column and each 3x3 box, no value is held twice.
pub open spec fn units_distinct(s: Sudoku) -> bool {
    &&& forall|x1: int, x2: int, y: int|
        in_grid(x1, y) && in_grid(x2, y) && x1 != x2 && (#[trigger] s.cell(x1, y)).value() is Some
            ==> s.cell(x1, y).value() != (#[trigger] s.cell(x2, y)).value()
    &&& forall|x: int, y1: int, y2: int|
        in_grid(x, y1) && in_grid(x, y2) && y1 != y2 && (#[trigger] s.cell(x, y1)).value() is Some
            ==> s.cell(x, y1).value() != (#[trigger] s.cell(x, y2)).value()
    &&& forall|x1: int, y1: int, x2: int, y2: int|
        in_grid(x1, y1) && in_grid(x2, y2) && (x1 != x2 || y1 != y2) && x1 / 3 == x2 / 3 && y1 / 3
            == y2 / 3 && (#[trigger] s.cell(x1, y1)).value() is Some ==> s.cell(x1, y1).value() != (
        #[trigger] s.cell(x2, y2)).value()
}

/// The boards that `check` accepts are exactly those whose rows, columns and
/// boxes each hold every resolved value at most once, whatever cells are blank.
pub proof fn lemma_check_means_distinct_units(s: Sudoku)
    ensures
        conflict_free(s) <==> units_distinct(s),
{
    if units_distinct(s) {
        assert forall|x: int, y: int| in_grid(x, y) implies #[trigger] no_conflict_at(
            s,
            x,
            y,
        ) by {
            if s.cell(x, y).value() is Some {
                let n = s.cell(x, y).value().unwrap();
                if seen_value(s, x, y, n, false) {
                    let (x2, y2) = choose|x2: int, y2: int|
                        in_grid(x2, y2) && related(x, y, x2, y2) && (x2 != x || y2 != y) && (#[trigger] s.cell(x2, y2)).value() == Some(n);
                    assert(s.cell(x, y).value() != s.cell(x2, y2).value());
                }
            }
        }
    }
    if conflict_free(s) {
        assert forall|x1: int, x2: int, y: int|
            in_grid(x1, y) && in_grid(x2, y) && x1 != x2 && (#[trigger] s.cell(x1, y)).value() is Some implies s.cell(
            x1,
            y,
        ).value() != (#[trigger] s.cell(x2, y)).value() by {
            assert(no_conflict_at(s, x1, y));
        }
        assert forall|x: int, y1: int, y2: int|
            in_grid(x, y1) && in_grid(x, y2) && y1 != y2 && (#[trigger] s.cell(x, y1)).value() is Some implies s.cell(
            x,
            y1,
        ).value() != (#[trigger] s.cell(x, y2)).value() by {
            assert(no_conflict_at(s, x, y1));
        }
        assert forall|x1: int, y1: int, x2: int, y2: int|
            in_grid(x1, y1) && in_grid(x2, y2) && (x1 != x2 || y1 != y2) && x1 / 3 == x2 / 3 && y1
                / 3 == y2 / 3 && (#[trigger] s.cell(x1, y1)).value() is Some implies s.cell(
            x1,
            y1,
        ).value() != (#[trigger] s.cell(x2, y2)).value() by {
            assert(no_conflict_at(s, x1, y1));
        }
    }
}

/// Running propagation again right after a propagation round changes no
/// candidate set and no value.
pub proof fn lemma_propagate_idempotent(a: Sudoku, b: Sudoku, c: Sudoku)
    requires
        propagated(a, b),
        propagated(b, c),
    ensures
        forall|x: int, y: int|
            in_grid(x, y) ==> (#[trigger] c.cell(x, y)).value() == b.cell(x, y).value(),
        forall|x: int, y: int, v: int|
            in_grid(x, y) ==> (#[trigger] c.cell(x, y).has(v) == b.cell(x, y).has(v)),
{
    assert(same_values(a, b)) by {
        assert forall|x: int, y: int| in_grid(x, y) implies (#[trigger] b.cell(x, y)).value()
            == a.cell(x, y).value() by {}
    }
    lemma_seen_same_values(a, b);
    assert forall|x: int, y: int, v: int| in_grid(x, y) implies (#[trigger] c.cell(x, y).has(v)
        == b.cell(x, y).has(v)) by {
        assert(c.cell(x, y).has(v) == (b.cell(x, y).has(v) && !seen_value(b, x, y, v as u8, true)));
        assert(b.cell(x, y).has(v) == (a.cell(x, y).has(v) && !seen_value(a, x, y, v as u8, true)));
    }
}

/// Across a run of propagation rounds no cell's entropy ever grows.
pub proof fn lemma_entropy_never_grows(boards: Seq<Sudoku>)
    requires
        forall|k: int| 0 <= k < boards.len() - 1 ==> propagated(#[trigger] boards[k], boards[k + 1]),
    ensures
        forall|i: int, j: int, x: int, y: int|
            0 <= i <= j < boards.len() && in_grid(x, y) ==> (#[trigger] boards[j].cell(x, y)).entropy_spec()
                <= (#[trigger] boards[i].cell(x, y)).entropy_spec(),
    decreases boards.len(),
{
    if boards.len() > 1 {
        let rest = boards.drop_last();
        lemma_entropy_never_grows(rest);
        let last = boards.len() - 1;
        assert(propagated(boards[last - 1], boards[last]));
        assert forall|i: int, j: int, x: int, y: int|
            0 <= i <= j < boards.len() && in_grid(x, y) implies (#[trigger] boards[j].cell(
            x,
            y,
        )).entropy_spec() <= (#[trigger] boards[i].cell(x, y)).entropy_spec() by {
            if j == last && i < j {
                let p = boards[last - 1].cell(x, y);
                let q = boards[last].cell(x, y);
                assert forall|v: int| #[trigger] q.has(v) implies p.has(v) by {}
                p.lemma_fewer_candidates(q);
                assert(rest[i] == boards[i] && rest[last - 1] == boards[last - 1]);
            } else if j < last {
                assert(rest[i] == boards[i] && rest[j] == boards[j]);
            }
        }
    }
}

/// One solving round keeps which cells are given, and keeps every value
/// already held.
pub proof fn lemma_step_keeps_values(a: Sudoku, c: Sudoku)
    requires
        a.wf(),
        stepped(a, c),
    ensures
        forall|x: int, y: int|
            in_grid(x, y) ==> (#[trigger] c.cell(x, y)).is_fixed() == a.cell(x, y).is_fixed() && (a.cell(
                x,
                y,
            ).value() is Some ==> c.cell(x, y).value() == a.cell(x, y).value()),
{
    let m = choose|m: Sudoku|
        #[trigger] propagated(a, m) && m.wf() && ((c == m && forall|x: int, y: int|
            !#[trigger] lowest(m, x, y)) || exists|m2: Sudoku, x: int, y: int|
            lowest(m, x, y) && #[trigger] settled_at(m, m2, x, y)
                && propagated(m2, c));
    if c != m {
        let (m2, sx, sy) = choose|m2: Sudoku, x: int, y: int|
            lowest(m, x, y) && #[trigger] settled_at(m, m2, x, y)
                && propagated(m2, c);
        m.cell(sx, sy).lemma_entropy();
        assert forall|x: int, y: int| in_grid(x, y) implies (#[trigger] c.cell(x, y)).is_fixed()
            == a.cell(x, y).is_fixed() && (a.cell(x, y).value() is Some ==> c.cell(x, y).value()
            == a.cell(x, y).value()) by {
            assert(m.cell(x, y).value() == a.cell(x, y).value());
            assert(c.cell(x, y).value() == m2.cell(x, y).value());
            if x != sx || y != sy {
                assert(m2.cell(x, y) == m.cell(x, y));
            }
        }
    } else {
        assert forall|x: int, y: int| in_grid(x, y) implies (#[trigger] c.cell(x, y)).is_fixed()
            == a.cell(x, y).is_fixed() && (a.cell(x, y).value() is Some ==> c.cell(x, y).value()
            == a.cell(x, y).value()) by {
            assert(m.cell(x, y).value() == a.cell(x, y).value());
        }
    }
}

/// Over any run of solving rounds, a given cell stays given with its value,
/// and a cell that holds a value keeps it and has no candidate from then on.
pub proof fn lemma_run_keeps_values(boards: Seq<Sudoku>)
    requires
        forall|k: int| 0 <= k < boards.len() ==> (#[trigger] boards[k]).wf(),
        forall|k: int| 0 <= k < boards.len() - 1 ==> stepped(#[trigger] boards[k], boards[k + 1]),
    ensures
        forall|j: int, x: int, y: int|
            0 <= j < boards.len() && in_grid(x, y) && boards[0].cell(x, y).is_fixed() ==> (
            #[trigger] boards[j].cell(x, y)).is_fixed() && boards[j].cell(x, y).value()
                == boards[0].cell(x, y).value(),
        forall|j: int, x: int, y: int|
            0 <= j < boards.len() && in_grid(x, y) && boards[0].cell(x, y).value() is Some ==> (
            #[trigger] boards[j].cell(x, y)).value() == boards[0].cell(x, y).value() && boards[j].cell(
                x,
                y,
            ).entropy_spec() == 0,
    decreases boards.len(),
{
    if boards.len() > 1 {
        let rest = boards.drop_last();
        assert forall|k: int| 0 <= k < rest.len() - 1 implies stepped(
            #[trigger] rest[k],
            rest[k + 1],
        ) by {
            assert(stepped(boards[k], boards[k + 1]));
        }
        lemma_run_keeps_values(rest);
        let last = boards.len() - 1;
        assert(stepped(boards[last - 1], boards[last]));
        lemma_step_keeps_values(boards[last - 1], boards[last]);
        assert forall|j: int, x: int, y: int|
            0 <= j < boards.len() && in_grid(x, y) && boards[0].cell(x, y).value()
                is Some implies (#[trigger] boards[j].cell(x, y)).value() == boards[0].cell(
            x,
            y,
        ).value() && boards[j].cell(x, y).entropy_spec() == 0 by {
            assert(boards[j].wf());
            boards[j].cell(x, y).lemma_entropy();
            if j == last {
                assert(rest[last - 1] == boards[last - 1]);
                assert(rest[0] == boards[0]);
            } else {
                assert(rest[j] == boards[j]);
                assert(rest[0] == boards[0]);
            }
        }
        assert forall|j: int, x: int, y: int|
            0 <= j < boards.len() && in_grid(x, y) && boards[0].cell(x, y).is_fixed() implies (
            #[trigger] boards[j].cell(x, y)).is_fixed() && boards[j].cell(x, y).value()
                == boards[0].cell(x, y).value() by {
            assert(boards[0].wf());
            assert(boards[0].cell(x, y).wf());
            if j == last {
                assert(rest[last - 1] == boards[last - 1]);
                assert(rest[0] == boards[0]);
            } else {
                assert(rest[j] == boards[j]);
                assert(rest[0] == boards[0]);
            }
        }
    } else if boards.len() == 1 {
        assert forall|j: int, x: int, y: int|
            0 <= j < boards.len() && in_grid(x, y) && boards[0].cell(x, y).value()
                is Some implies (#[trigger] boards[j].cell(x, y)).value() == boards[0].cell(
            x,
            y,
        ).value() && boards[j].cell(x, y).entropy_spec() == 0 by {
            assert(boards[0].cell(x, y).wf());
            boards[0].cell(x, y).lemma_entropy();
        }
    }
}

} // verus!
