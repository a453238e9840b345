use std::collections::HashSet;
use vstd::prelude::*;

use crate::rng::choose_one;

verus! {

broadcast use vstd::std_specs::hash::group_hash_axioms;

/// Number of present candidates among the first `n` slots.
pub open spec fn count_upto(s: Seq<Option<u8>>, n: int) -> nat
    decreases n,
{
    if n <= 0 {
        0
    } else {
        count_upto(s, n - 1) + if s[n - 1] is Some { 1nat } else { 0nat }
    }
}

pub proof fn lemma_count_bounded(s: Seq<Option<u8>>, n: int)
    requires
        0 <= n,
    ensures
        count_upto(s, n) <= n,
    decreases n,
{
    if n > 0 {
        lemma_count_bounded(s, n - 1);
    }
}

pub proof fn lemma_count_monotone(a: Seq<Option<u8>>, b: Seq<Option<u8>>, n: int)
    requires
        0 <= n <= a.len(),
        a.len() == b.len(),
        forall|i: int| 0 <= i < n && #[trigger] b[i] is Some ==> a[i] is Some,
    ensures
        count_upto(b, n) <= count_upto(a, n),
    decreases n,
{
    if n > 0 {
        lemma_count_monotone(a, b, n - 1);
    }
}

pub proof fn lemma_count_positive(s: Seq<Option<u8>>, n: int)
    requires
        0 <= n <= s.len(),
    ensures
        count_upto(s, n) > 0 <==> exists|i: int| 0 <= i < n && #[trigger] s[i] is Some,
    decreases n,
{
    if n > 0 {
        lemma_count_positive(s, n - 1);
        if s[n - 1] is Some {
            assert(0 <= n - 1 < n && s[n - 1] is Some);
        }
    }
}

/// One square of the grid: a given or resolved value, or a set of candidates.
///
/// Slot `i` of `options` holds `Some(i + 1)` while the value `i + 1` is still
/// a candidate, and `None` once it has been excluded.
#[derive(Clone, Copy, Debug)]
pub struct Cell {
    pub(crate) pos: (usize, usize),
    pub(crate) num: Option<u8>,
    pub(crate) fixed: bool,
    pub(crate) options: [Option<u8>; 9],
}

impl Cell {
    pub open(crate) spec fn position(self) -> (usize, usize) {
        self.pos
    }

    pub open(crate) spec fn value(self) -> Option<u8> {
        self.num
    }

    pub open(crate) spec fn is_fixed(self) -> bool {
        self.fixed
    }

    /// Whether `v` is still a candidate of this cell.
    pub open(crate) spec fn has(self, v: int) -> bool {
        1 <= v <= 9 && self.options@[v - 1] is Some
    }

    pub open(crate) spec fn entropy_spec(self) -> nat {
        count_upto(self.options@, 9)
    }

    pub open(crate) spec fn no_candidates(self) -> bool {
        forall|v: int| !#[trigger] self.has(v)
    }

    pub open(crate) spec fn wf(self) -> bool {
        &&& self.pos.0 < 9
        &&& self.pos.1 < 9
        &&& forall|i: int|
            0 <= i < 9 ==> (#[trigger] self.options@[i] is None || self.options@[i] == Some(
                (i + 1) as u8,
            ))
        &&& self.num matches Some(n) ==> 1 <= n <= 9 && self.no_candidates()
        &&& self.fixed ==> self.num is Some
    }

    pub proof fn lemma_entropy(self)
        requires
            self.wf(),
        ensures
            self.entropy_spec() <= 9,
            self.entropy_spec() > 0 <==> exists|v: int| #[trigger] self.has(v),
            self.value() is Some ==> self.entropy_spec() == 0,
    {
        lemma_count_bounded(self.options@, 9);
        lemma_count_positive(self.options@, 9);
        if self.entropy_spec() > 0 {
            let i = choose|i: int| 0 <= i < 9 && #[trigger] self.options@[i] is Some;
            assert(self.has(i + 1));
        }
        if exists|v: int| #[trigger] self.has(v) {
            let v = choose|v: int| #[trigger] self.has(v);
            assert(self.options@[v - 1] is Some);
        }
    }

    /// A cell whose candidates are among those of `self` has no more entropy.
    pub proof fn lemma_fewer_candidates(self, other: Cell)
        requires
            forall|v: int| #[trigger] other.has(v) ==> self.has(v),
        ensures
            other.entropy_spec() <= self.entropy_spec(),
    {
        assert forall|i: int| 0 <= i < 9 && #[trigger] other.options@[i] is Some implies self.options@[
            i
        ] is Some by {
            assert(other.has(i + 1));
        }
        lemma_count_monotone(self.options@, other.options@, 9);
    }

    /// Digit 0 gives an open cell with every value a candidate; digits 1 to 9
    /// give a fixed cell holding that digit.
    pub fn new(num: u8, pos: (usize, usize)) -> (r: Self)
        requires
            num <= 9,
            pos.0 < 9,
            pos.1 < 9,
        ensures
            r.wf(),
            r.position() == pos,
            num == 0 ==> !r.is_fixed() && r.value() is None && forall|v: int|
                1 <= v <= 9 ==> #[trigger] r.has(v),
            num != 0 ==> r.is_fixed() && r.value() == Some(num) && r.no_candidates(),
    {
        if num == 0 {
            Cell {
                pos,
                num: None,
                fixed: false,
                options: [
                    Some(1),
                    Some(2),
                    Some(3),
                    Some(4),
                    Some(5),
                    Some(6),
                    Some(7),
                    Some(8),
                    Some(9),
                ],
            }
        } else {
            Cell { pos, num: Some(num), fixed: true, options: [None; 9] }
        }
    }
    /// Collapses the cell: one of its candidates, picked at random, becomes its
    /// value, and all candidates are cleared. With no candidate left the value
    /// stays as it was.
    pub fn set_num(&mut self)
        requires
            old(self).wf(),
        ensures
            final(self).wf(),
            final(self).position() == old(self).position(),
            final(self).is_fixed() == old(self).is_fixed(),
            final(self).no_candidates(),
            final(self).entropy_spec() == 0,
            (exists|v: int| #[trigger] old(self).has(v)) ==> (final(self).value() matches Some(n)
                && old(self).has(n as int)),
            !(exists|v: int| #[trigger] old(self).has(v)) ==> final(self).value() == old(
                self,
            ).value(),
    {
        let ghost start = *self;
        let mut options: Vec<u8> = Vec::new();
        for i in 0..9
            invariant
                *self == start,
                start.wf(),
                forall|k: int| 0 <= k < options@.len() ==> start.has(#[trigger] options@[k] as int),
                forall|k: int| 0 <= k < i && start.options@[k] is Some ==> options@.contains(
                    (k + 1) as u8,
                ),
        {
            let ghost before = options@;
            match self.options[i] {
                Some(n) => {
                    options.push(n);
                    assert(options@[options@.len() - 1] == n);
                    assert forall|k: int|
                        0 <= k < i && start.options@[k] is Some implies options@.contains(
                        (k + 1) as u8,
                    ) by {
                        let j = choose|j: int| 0 <= j < before.len() && before[j] == (k + 1) as u8;
                        assert(options@[j] == before[j]);
                    }
                },
                None => {},
            }
        }
        match choose_one(&options) {
            Some(n) => {
                self.num = Some(n);
            },
            None => {
                assert forall|v: int| !#[trigger] start.has(v) by {
                    if start.has(v) {
                        assert(options@.contains(v as u8));
                    }
                }
            },
        }
        self.options = [None; 9];
        proof {
            lemma_count_positive(self.options@, 9);
        }
    }

    /// Narrows the candidates: every value in `neighbors` stops being one.
    pub fn collapse(&mut self, neighbors: HashSet<u8>)
        requires
            old(self).wf(),
        ensures
            final(self).wf(),
            final(self).position() == old(self).position(),
            final(self).is_fixed() == old(self).is_fixed(),
            final(self).value() == old(self).value(),
            forall|v: int| #[trigger]
                final(self).has(v) == (old(self).has(v) && !neighbors@.contains(v as u8)),
    {
        let ghost start = *self;
        for i in 0..9
            invariant
                self.pos == start.pos,
                self.num == start.num,
                self.fixed == start.fixed,
                start.wf(),
                forall|k: int|
                    0 <= k < i ==> (#[trigger] self.options@[k] is Some == (start.options@[k] is Some
                        && !neighbors@.contains((k + 1) as u8))),
                forall|k: int| i <= k < 9 ==> #[trigger] self.options@[k] == start.options@[k],
                forall|k: int|
                    0 <= k < 9 ==> (#[trigger] self.options@[k] is None || self.options@[k]
                        == start.options@[k]),
        {
            let n: u8 = (i + 1) as u8;
            if neighbors.contains(&n) {
                self.options[i] = None;
            }
        }
        assert forall|v: int| #[trigger]
            self.has(v) == (start.has(v) && !neighbors@.contains(v as u8)) by {
            if 1 <= v <= 9 {
                assert(self.options@[v - 1] is Some == (start.options@[v - 1] is Some
                    && !neighbors@.contains(v as u8)));
            }
        }
    }

    /// The number of candidates left.
    pub fn entropy(&self) -> (r: usize)
        ensures
            r == self.entropy_spec(),
    {
        let mut entropy: usize = 0;
        for i in 0..9
            invariant
                entropy == count_upto(self.options@, i as int),
                entropy <= i,
        {
            match self.options[i] {
                Some(_) => entropy += 1,
                None => (),
            }
        }
        entropy
    }

    pub fn get_num(&self) -> (r: Option<u8>)
        ensures
            r == self.value(),
    {
        self.num
    }

    pub fn get_fixed(&self) -> (r: bool)
        ensures
            r == self.is_fixed(),
    {
        self.fixed
    }

    /// Whether `v` is still a candidate of this cell.
    pub fn has_option(&self, v: u8) -> (r: bool)
        ensures
            r == self.has(v as int),
    {
        if 1 <= v && v <= 9 {
            self.options[(v - 1) as usize].is_some()
        } else {
            false
        }
    }
}

} // verus!
