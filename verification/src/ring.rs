//! The ring of outer cells, packed into a `u32` as base-3 digits with the
//! most significant digit at index 0. A ring's mathematical value is its
//! sequence of cells; every operation is specified against that sequence.

use crate::arith::{lemma_pow3_20, lemma_pow3_increases, lemma_pow3_pos, pow3, pow3_u32};
use crate::cell::Cell;
use crate::digits::{
    lemma_pack_unpack, lemma_packed_bound, lemma_packed_concat, lemma_packed_injective,
    lemma_packed_singleton, lemma_packed_split, lemma_unpack_pack, packed_of, unpacked,
};
use crate::symmetry::{
    in_orbit, is_canon, lemma_canon_of_orbit, lemma_orbit_len, lemma_orbit_refl, lemma_orbit_sym,
    lemma_orbit_trans, rotl, rotr,
};
use vstd::arithmetic::div_mod::{lemma_div_of0, lemma_small_mod};
use vstd::arithmetic::mul::lemma_mul_nonnegative;
use vstd::prelude::*;

verus! {

/// The ring of outer cells. At most 20 cells fit: `3^20 < 2^32 < 3^21`.
#[derive(Debug, Clone, Copy)]
pub struct Ring {
    packed: u32,
    cells: u8,
}

impl Ring {
    /// The packed integer always stays below the place value just past the
    /// ring's last digit.
    #[verifier::type_invariant]
    spec fn wf(self) -> bool {
        &&& 1 <= self.cells <= 20
        &&& (self.packed as nat) < pow3(self.cells as nat)
    }
}

impl View for Ring {
    type V = Seq<Cell>;

    closed spec fn view(&self) -> Seq<Cell> {
        unpacked(self.packed as nat, self.cells as nat)
    }
}

impl Ring {
    /// A ring of `cells` empty cells.
    pub fn new(cells: u8) -> (r: Ring)
        requires
            1 <= cells <= 20,
        ensures
            r@.len() == cells as nat,
            forall|i: int| 0 <= i < cells ==> r@[i] == Cell::Empty,
    {
        proof {
            lemma_pow3_pos(cells as nat);
        }
        let r = Ring { packed: 0, cells };
        proof {
            assert forall|i: int| 0 <= i < cells implies r@[i] == Cell::Empty by {
                lemma_pow3_pos((cells - 1 - i) as nat);
                lemma_div_of0(pow3((cells - 1 - i) as nat) as int);
            }
        }
        r
    }

    /// How many cells the ring has.
    pub fn len(&self) -> (n: u8)
        ensures
            n as nat == self@.len(),
            1 <= n <= 20,
    {
        proof {
            use_type_invariant(self);
        }
        self.cells
    }

    /// The packed base-3 integer itself.
    pub fn packed(&self) -> (p: u32)
        ensures
            p as nat == packed_of(self@),
    {
        proof {
            use_type_invariant(self);
            lemma_pack_unpack(self.packed as nat, self.cells as nat);
        }
        self.packed
    }

    /// The cell at modular index `i`: indices wrap around the ring.
    pub fn get(&self, i: u8) -> (c: Cell)
        ensures
            c == self@[(i as int) % (self@.len() as int)],
    {
        proof {
            use_type_invariant(self);
        }
        let j = i % self.cells;
        let place = pow3_u32((self.cells - 1 - j) as u32);
        proof {
            lemma_pow3_pos((self.cells - 1 - j) as nat);
        }
        let digit = self.packed / place % 3;
        Cell::from_digit(digit)
    }

    /// Overwrite the cell at modular index `i`, leaving every other cell
    /// unchanged.
    pub fn set(&mut self, i: u8, cell: Cell)
        ensures
            final(self)@ == old(self)@.update(
                (i as int) % (old(self)@.len() as int),
                cell,
            ),
    {
        proof {
            use_type_invariant(&*self);
        }
        let j = i % self.cells;
        let place = pow3_u32((self.cells - 1 - j) as u32);
        proof {
            lemma_pow3_pos((self.cells - 1 - j) as nat);
        }
        let old_digit = self.packed / place % 3;
        let new_digit = cell.to_digit();
        let ghost s = self@;
        let ghost jj = j as int;
        let ghost len = s.len() as int;
        let ghost pre = s.subrange(0, jj);
        let ghost suf = s.subrange(jj + 1, len);
        let ghost s2 = s.update(jj, cell);
        proof {
            lemma_pack_unpack(self.packed as nat, self.cells as nat);
            assert(s =~= pre + (seq![s[jj]] + suf));
            assert(s2 =~= pre + (seq![cell] + suf));
            lemma_packed_singleton(s[jj]);
            lemma_packed_singleton(cell);
            lemma_packed_concat(seq![s[jj]], suf);
            lemma_packed_concat(pre, seq![s[jj]] + suf);
            lemma_packed_concat(seq![cell], suf);
            lemma_packed_concat(pre, seq![cell] + suf);
            lemma_mul_nonnegative(packed_of(pre) as int, pow3((seq![cell] + suf).len()) as int);
            lemma_mul_nonnegative(s[jj].digit() as int, pow3(suf.len()) as int);
            lemma_mul_nonnegative(cell.digit() as int, pow3(suf.len()) as int);
            // the digit the code reads at `j` is the digit of the cell there
            assert(s[jj] == Cell::of_digit(crate::digits::digit_at(
                self.packed as nat,
                self.cells as nat,
                jj,
            )));
            assert(s[jj].digit() == old_digit as nat);
            lemma_packed_bound(s2);
            lemma_pow3_increases(s2.len(), 20);
            lemma_pow3_20();
            assert(packed_of(s2) == self.packed - old_digit * place + new_digit * place);
        }
        let np = self.packed - old_digit * place + new_digit * place;
        self.packed = np;
        proof {
            lemma_unpack_pack(s2);
        }
    }

    /// The ring spun `k` places anticlockwise: the cell that was at index `k`
    /// comes to index 0. The shift is performed on the packed integer alone,
    /// by splitting it at the place value of the wrap.
    pub fn rotate_left(self, k: u8) -> (r: Ring)
        ensures
            r@ == rotl(self@, (k as int) % (self@.len() as int)),
    {
        proof {
            use_type_invariant(&self);
        }
        let k = k % self.cells;
        let low = pow3_u32((self.cells - k) as u32);
        proof {
            lemma_pow3_pos((self.cells - k) as nat);
        }
        let hi = self.packed / low;
        let lo = self.packed % low;
        let ghost s = self@;
        let ghost kk = k as int;
        let ghost a = s.subrange(0, kk);
        let ghost b = s.subrange(kk, s.len() as int);
        proof {
            lemma_pack_unpack(self.packed as nat, self.cells as nat);
            assert(s =~= a + b);
            lemma_packed_split(a, b);
            lemma_packed_concat(b, a);
            lemma_mul_nonnegative(packed_of(b) as int, pow3(a.len()) as int);
            lemma_packed_bound(b + a);
            lemma_pow3_increases((b + a).len(), 20);
            lemma_pow3_20();
        }
        let shifted = lo * pow3_u32(k as u32) + hi;
        let r = Ring { packed: shifted, cells: self.cells };
        proof {
            lemma_unpack_pack(b + a);
        }
        r
    }

    /// The ring spun `k` places clockwise: the inverse of `rotate_left(k)`.
    pub fn rotate_right(self, k: u8) -> (r: Ring)
        ensures
            r@ == rotr(self@, (k as int) % (self@.len() as int)),
    {
        proof {
            use_type_invariant(&self);
        }
        let k = k % self.cells;
        let high = pow3_u32(k as u32);
        proof {
            lemma_pow3_pos(k as nat);
        }
        let hi = self.packed / high;
        let lo = self.packed % high;
        let ghost s = self@;
        let ghost kk = k as int;
        let ghost a = s.subrange(0, s.len() - kk);
        let ghost b = s.subrange(s.len() - kk, s.len() as int);
        proof {
            lemma_pack_unpack(self.packed as nat, self.cells as nat);
            assert(s =~= a + b);
            lemma_packed_split(a, b);
            lemma_packed_concat(b, a);
            lemma_mul_nonnegative(packed_of(b) as int, pow3(a.len()) as int);
            lemma_packed_bound(b + a);
            lemma_pow3_increases((b + a).len(), 20);
            lemma_pow3_20();
        }
        let shifted = lo * pow3_u32((self.cells - k) as u32) + hi;
        let r = Ring { packed: shifted, cells: self.cells };
        proof {
            lemma_unpack_pack(b + a);
        }
        r
    }

    /// The mirror image of the ring: the cells in reverse order.
    pub fn reverse(self) -> (r: Ring)
        ensures
            r@ == self@.reverse(),
    {
        proof {
            use_type_invariant(&self);
        }
        let ghost s = self@;
        let n = self.cells;
        let mut np: u32 = 0;
        let mut idx: u8 = 0;
        while idx < n
            invariant
                idx <= n,
                1 <= n <= 20,
                s == self@,
                s.len() == n as nat,
                np as nat == packed_of(s.reverse().subrange(0, idx as int)),
            decreases n - idx,
        {
            let c = self.get(n - 1 - idx);
            let d = c.to_digit();
            proof {
                lemma_small_mod((n - 1 - idx) as nat, n as nat);
                assert(s.reverse().subrange(0, idx as int + 1).drop_last() =~= s.reverse()
                    .subrange(0, idx as int));
                assert(s.reverse().subrange(0, idx as int + 1).last() == s[n - 1 - idx]);
                lemma_packed_bound(s.reverse().subrange(0, idx as int));
                lemma_pow3_increases((idx + 1) as nat, 20);
                lemma_pow3_20();
            }
            np = np * 3 + d;
            idx = idx + 1;
        }
        proof {
            assert(s.reverse().subrange(0, n as int) =~= s.reverse());
            lemma_packed_bound(s.reverse());
            lemma_unpack_pack(s.reverse());
        }
        Ring { packed: np, cells: n }
    }

    /// The ring holding a given sequence of cells, in index order.
    pub fn from_cells(v: &Vec<Cell>) -> (r: Ring)
        requires
            1 <= v@.len() <= 20,
        ensures
            r@ == v@,
    {
        let n = v.len() as u8;
        let mut np: u32 = 0;
        let mut idx: usize = 0;
        while idx < v.len()
            invariant
                idx <= v@.len(),
                1 <= v@.len() <= 20,
                np as nat == packed_of(v@.subrange(0, idx as int)),
            decreases v@.len() - idx,
        {
            let d = v[idx].to_digit();
            proof {
                assert(v@.subrange(0, idx as int + 1).drop_last() =~= v@.subrange(0, idx as int));
                assert(v@.subrange(0, idx as int + 1).last() == v@[idx as int]);
                lemma_packed_bound(v@.subrange(0, idx as int));
                lemma_pow3_increases((idx + 1) as nat, 20);
                lemma_pow3_20();
            }
            np = np * 3 + d;
            idx = idx + 1;
        }
        proof {
            assert(v@.subrange(0, v@.len() as int) =~= v@);
            lemma_packed_bound(v@);
            lemma_unpack_pack(v@);
        }
        Ring { packed: np, cells: n }
    }

    /// The canonical representative of this ring's orbit under rotation and
    /// reflection: of the `2 * len` rings reachable by spinning the ring and
    /// optionally flipping it, the one whose packed value is greatest.
    /// Geometrically identical rings canonicalise to the identical value.
    pub fn canonicalise(self) -> (r: Ring)
        ensures
            r@.len() == self@.len(),
            is_canon(self@, r@),
    {
        proof {
            use_type_invariant(&self);
        }
        let ghost s = self@;
        let n = self.cells;
        let mut best = self;
        let mut m: u8 = 0;
        proof {
            lemma_orbit_refl(s);
        }
        while m < n
            invariant
                m <= n,
                1 <= n <= 20,
                s == self@,
                s.len() == n as nat,
                best@.len() == s.len(),
                in_orbit(s, best@),
                forall|j: int|
                    0 <= j < m as int ==> packed_of(#[trigger] rotl(s, j)) <= packed_of(best@)
                        && packed_of(rotl(s, j).reverse()) <= packed_of(best@),
            decreases n - m,
        {
            let cand = self.rotate_left(m);
            proof {
                lemma_small_mod(m as nat, n as nat);
                assert(cand@ == rotl(s, m as int));
            }
            if cand.packed() > best.packed() {
                best = cand;
            }
            let candr = cand.reverse();
            proof {
                assert(candr@ == rotl(s, m as int).reverse());
            }
            if candr.packed() > best.packed() {
                best = candr;
            }
            m = m + 1;
        }
        proof {
            assert forall|t: Seq<Cell>| #[trigger] in_orbit(s, t) implies packed_of(t)
                <= packed_of(best@) by {
                let j = choose|j: int|
                    0 <= j < s.len() && (t == #[trigger] rotl(s, j) || t == rotl(s, j).reverse());
            }
        }
        best
    }

    /// The ring drawn as text: one glyph per cell in index order, a blank for
    /// an empty cell and a distinct letter for each mark.
    pub fn render(&self) -> (out: String)
        ensures
            out@.len() == self@.len(),
            forall|i: int| 0 <= i < self@.len() ==> out@[i] == self@[i].glyph(),
    {
        proof {
            use_type_invariant(self);
        }
        let n = self.cells;
        let mut out = String::new();
        let mut idx: u8 = 0;
        while idx < n
            invariant
                idx <= n,
                1 <= n <= 20,
                self@.len() == n as nat,
                out@.len() == idx as nat,
                forall|i: int| 0 <= i < idx as int ==> out@[i] == self@[i].glyph(),
            decreases n - idx,
        {
            let c = self.get(idx);
            proof {
                lemma_small_mod(idx as nat, n as nat);
                reveal_strlit(" ");
                reveal_strlit("X");
                reveal_strlit("O");
            }
            match c {
                Cell::Empty => out.append(" "),
                Cell::X => out.append("X"),
                Cell::O => out.append("O"),
            }
            idx = idx + 1;
        }
        out
    }
}

impl PartialEq for Ring {
    /// Two rings are equal when one is a rotation, or a reflected rotation,
    /// of the other: they canonicalise to the same packed value.
    fn eq(&self, other: &Ring) -> (r: bool) {
        proof {
            use_type_invariant(self);
            use_type_invariant(other);
        }
        if self.cells != other.cells {
            proof {
                if in_orbit(self@, other@) {
                    lemma_orbit_len(self@, other@);
                }
            }
            false
        } else {
            let a = (*self).canonicalise();
            let b = (*other).canonicalise();
            let r = a.packed() == b.packed();
            proof {
                if r {
                    lemma_packed_injective(a@, b@);
                    lemma_orbit_sym(other@, b@);
                    lemma_orbit_trans(self@, a@, other@);
                } else {
                    if in_orbit(self@, other@) {
                        lemma_canon_of_orbit(self@, other@, a@, b@);
                    }
                }
            }
            r
        }
    }
}

impl vstd::std_specs::cmp::PartialEqSpecImpl for Ring {
    open spec fn obeys_eq_spec() -> bool {
        true
    }

    open spec fn eq_spec(&self, other: &Ring) -> bool {
        in_orbit(self@, other@)
    }
}

impl Eq for Ring {}

} // verus!
