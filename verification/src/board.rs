//! The full board: a ring of cells around one center cell, and the detection
//! of winning lines. A line wins on the ring when three cyclically
//! consecutive cells carry one mark; a line wins through the center when the
//! center and a diametrically opposite pair of ring cells carry one mark.

use crate::cell::Cell;
use crate::ring::Ring;
use vstd::arithmetic::div_mod::lemma_small_mod;
use vstd::prelude::*;

verus! {

/// Where a winning line was found.
#[derive(Debug, Clone, Copy, PartialEq, Eq, Structural)]
pub enum Win {
    /// A win entirely along the ring.
    Ring {
        /// The index at which the win starts; the two cells after it, going
        /// round the ring, complete the line.
        index: u8,
    },
    /// A win through the center.
    Center {
        /// The index of one ring cell of the line; the other lies on the
        /// opposite side of the ring.
        index: u8,
    },
}

/// Three cyclically consecutive cells starting at `i` all carry one mark.
pub open spec fn ring_win_at(s: Seq<Cell>, i: int) -> bool {
    let len = s.len() as int;
    &&& 0 <= i < len
    &&& s[i] != Cell::Empty
    &&& s[(i + 1) % len] == s[i]
    &&& s[(i + 2) % len] == s[i]
}

/// Ring cell `i` and the diametrically opposite cell both carry the center's
/// mark. Meaningful for rings of even length.
pub open spec fn center_win_at(s: Seq<Cell>, center: Cell, i: int) -> bool {
    let len = s.len() as int;
    &&& 0 <= i < len / 2
    &&& center != Cell::Empty
    &&& s[i] == center
    &&& s[i + len / 2] == center
}

/// The ring wins whose start index is `i` or later, in ascending order.
pub open spec fn ring_wins_from(s: Seq<Cell>, i: int) -> Seq<Win>
    decreases s.len() - i,
{
    if i < 0 || i >= s.len() {
        Seq::empty()
    } else if ring_win_at(s, i) {
        seq![Win::Ring { index: i as u8 }] + ring_wins_from(s, i + 1)
    } else {
        ring_wins_from(s, i + 1)
    }
}

/// The center wins whose index is `i` or later, in ascending order.
pub open spec fn center_wins_from(s: Seq<Cell>, center: Cell, i: int) -> Seq<Win>
    decreases s.len() / 2 - i,
{
    if center == Cell::Empty || i < 0 || i >= s.len() / 2 {
        Seq::empty()
    } else if center_win_at(s, center, i) {
        seq![Win::Center { index: i as u8 }] + center_wins_from(s, center, i + 1)
    } else {
        center_wins_from(s, center, i + 1)
    }
}

/// The board: one ring of cells around one center cell. Both fields are
/// mutated freely by the caller, one cell at a time.
pub struct Board {
    pub center: Cell,
    pub ring: Ring,
}

impl Board {
    /// A blank board with `cells` cells around the outside.
    pub fn new(cells: u8) -> (b: Board)
        requires
            1 <= cells <= 20,
        ensures
            b.center == Cell::Empty,
            b.ring@.len() == cells as nat,
            forall|i: int| 0 <= i < cells ==> b.ring@[i] == Cell::Empty,
    {
        Board { center: Cell::Empty, ring: Ring::new(cells) }
    }

    /// The mark that has won, if any: the mark of the first winning ring
    /// line in index order, or failing that the center's mark if a line
    /// through the center has won, or the empty cell if nobody has.
    pub fn winner(&self) -> (w: Cell)
        requires
            self.center != Cell::Empty ==> self.ring@.len() % 2 == 0,
        ensures
            (exists|i: int| ring_win_at(self.ring@, i)) ==> exists|i: int|
                {
                    &&& #[trigger] ring_win_at(self.ring@, i)
                    &&& w == self.ring@[i]
                    &&& forall|j: int| 0 <= j < i ==> !ring_win_at(self.ring@, j)
                },
            !(exists|i: int| ring_win_at(self.ring@, i)) ==> ((exists|i: int|
                center_win_at(self.ring@, self.center, i)) ==> w == self.center),
            !(exists|i: int| ring_win_at(self.ring@, i)) && !(exists|i: int|
                center_win_at(self.ring@, self.center, i)) ==> w == Cell::Empty,
    {
        let ghost s = self.ring@;
        let len = self.ring.len();
        let mut i: u8 = 0;
        while i < len
            invariant
                i <= len,
                1 <= len <= 20,
                s == self.ring@,
                len as nat == s.len(),
                forall|j: int| 0 <= j < i as int ==> !ring_win_at(s, j),
            decreases len - i,
        {
            let a = self.ring.get(i);
            let b = self.ring.get(i + 1);
            let c = self.ring.get(i + 2);
            proof {
                lemma_small_mod(i as nat, len as nat);
            }
            if a != Cell::Empty && b == a && c == a {
                proof {
                    assert(ring_win_at(s, i as int));
                }
                return a;
            }
            i = i + 1;
        }
        proof {
            assert forall|j: int| !ring_win_at(s, j) by {
                if 0 <= j < s.len() {
                    assert(!ring_win_at(s, j));
                }
            }
        }
        if self.center == Cell::Empty {
            return Cell::Empty;
        }
        let half = len / 2;
        let mut i: u8 = 0;
        while i < half
            invariant
                i <= half,
                1 <= len <= 20,
                half == len / 2,
                len % 2 == 0,
                s == self.ring@,
                len as nat == s.len(),
                self.center != Cell::Empty,
                forall|j: int| !ring_win_at(s, j),
                forall|j: int| 0 <= j < i as int ==> !center_win_at(s, self.center, j),
            decreases half - i,
        {
            let a = self.ring.get(i);
            let b = self.ring.get(i + half);
            proof {
                lemma_small_mod(i as nat, len as nat);
                lemma_small_mod((i + half) as nat, len as nat);
            }
            if a == self.center && b == self.center {
                proof {
                    assert(center_win_at(s, self.center, i as int));
                }
                return self.center;
            }
            i = i + 1;
        }
        proof {
            assert forall|j: int| !center_win_at(s, self.center, j) by {
                if 0 <= j < s.len() / 2 {
                    assert(!center_win_at(s, self.center, j));
                }
            }
        }
        Cell::Empty
    }

    /// Every winning line on the board: the ring wins in ascending start
    /// index, then the center wins in ascending index.
    pub fn wins(&self) -> (out: Vec<Win>)
        requires
            self.center != Cell::Empty ==> self.ring@.len() % 2 == 0,
        ensures
            out@ == ring_wins_from(self.ring@, 0) + center_wins_from(
                self.ring@,
                self.center,
                0,
            ),
    {
        let ghost s = self.ring@;
        let len = self.ring.len();
        let mut out: Vec<Win> = Vec::new();
        let mut i: u8 = 0;
        while i < len
            invariant
                i <= len,
                1 <= len <= 20,
                s == self.ring@,
                len as nat == s.len(),
                out@ + ring_wins_from(s, i as int) == ring_wins_from(s, 0),
            decreases len - i,
        {
            let a = self.ring.get(i);
            let b = self.ring.get(i + 1);
            let c = self.ring.get(i + 2);
            proof {
                lemma_small_mod(i as nat, len as nat);
            }
            let ghost out0 = out@;
            if a != Cell::Empty && b == a && c == a {
                out.push(Win::Ring { index: i });
                proof {
                    assert(out0.push(Win::Ring { index: i }) + ring_wins_from(s, i as int + 1)
                        =~= out0 + ring_wins_from(s, i as int));
                }
            }
            i = i + 1;
        }
        proof {
            assert(out@ + Seq::<Win>::empty() =~= out@);
        }
        if self.center != Cell::Empty {
            let half = len / 2;
            let mut i: u8 = 0;
            while i < half
                invariant
                    i <= half,
                    1 <= len <= 20,
                    half == len / 2,
                    len % 2 == 0,
                    s == self.ring@,
                    len as nat == s.len(),
                    self.center != Cell::Empty,
                    out@ + center_wins_from(s, self.center, i as int) == ring_wins_from(s, 0)
                        + center_wins_from(s, self.center, 0),
                decreases half - i,
            {
                let a = self.ring.get(i);
                let b = self.ring.get(i + half);
                proof {
                    lemma_small_mod(i as nat, len as nat);
                    lemma_small_mod((i + half) as nat, len as nat);
                }
                let ghost out0 = out@;
                if a == self.center && b == self.center {
                    out.push(Win::Center { index: i });
                    proof {
                        assert(out0.push(Win::Center { index: i }) + center_wins_from(
                            s,
                            self.center,
                            i as int + 1,
                        ) =~= out0 + center_wins_from(s, self.center, i as int));
                    }
                }
                i = i + 1;
            }
            proof {
                assert(out@ + Seq::<Win>::empty() =~= out@);
            }
        }
        out
    }
}

} // verus!
