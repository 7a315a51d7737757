//! Streaming the cells of a ring in index order, from either end, by
//! peeling base-3 digits off the packed integer: the most significant digit
//! with a division by the leading place value, the least significant with a
//! remainder by three.

use crate::arith::{lemma_pow3_pos, pow3, pow3_u32};
use crate::cell::Cell;
use crate::digits::{
    lemma_pack_unpack, lemma_packed_singleton, lemma_packed_split, lemma_unpack_pack, packed_of,
    unpacked,
};
use crate::ring::Ring;
use vstd::arithmetic::div_mod::{lemma_div_multiples_vanish, lemma_small_mod};
use vstd::prelude::*;

verus! {

/// The cells of a ring still to be yielded, packed as base-3 digits.
/// `denom` is the place value of the first remaining digit, so it walks down
/// the powers of three as cells are consumed and reaches zero when none
/// remain.
pub struct Cells {
    packed: u32,
    denom: u32,
    remaining: Ghost<nat>,
}

impl Cells {
    #[verifier::type_invariant]
    spec fn wf(self) -> bool {
        &&& self.remaining@ <= 20
        &&& if self.remaining@ == 0 {
            self.packed == 0 && self.denom == 0
        } else {
            self.denom as nat == pow3((self.remaining@ - 1) as nat) && (self.packed as nat)
                < pow3(self.remaining@)
        }
    }
}

impl View for Cells {
    type V = Seq<Cell>;

    closed spec fn view(&self) -> Seq<Cell> {
        unpacked(self.packed as nat, self.remaining@)
    }
}

impl Ring {
    /// The ring's cells as a stream, in index order.
    pub fn cells(&self) -> (it: Cells)
        ensures
            it@ == self@,
    {
        let n = self.len();
        let p = self.packed();
        proof {
            crate::digits::lemma_packed_bound(self@);
            lemma_unpack_pack(self@);
        }
        Cells { packed: p, denom: pow3_u32((n - 1) as u32), remaining: Ghost(self@.len()) }
    }
}

impl Cells {
    /// The first remaining cell, consumed from the front.
    pub fn next(&mut self) -> (c: Option<Cell>)
        ensures
            old(self)@.len() == 0 ==> c is None && final(self)@ == old(self)@,
            old(self)@.len() > 0 ==> c == Some(old(self)@[0]) && final(self)@ == old(
                self,
            )@.drop_first(),
    {
        proof {
            use_type_invariant(&*self);
        }
        if self.denom == 0 {
            proof {
                if self.remaining@ > 0 {
                    lemma_pow3_pos((self.remaining@ - 1) as nat);
                }
            }
            None
        } else {
            let ghost s = self@;
            let ghost k = self.remaining@;
            let digit = self.packed / self.denom % 3;
            let np = self.packed % self.denom;
            let nd = self.denom / 3;
            let c = Cell::from_digit(digit);
            proof {
                lemma_pack_unpack(self.packed as nat, k);
                assert(s =~= seq![s[0]] + s.drop_first());
                lemma_packed_singleton(s[0]);
                lemma_packed_split(seq![s[0]], s.drop_first());
                lemma_small_mod(s[0].digit(), 3);
                assert(digit as nat == s[0].digit());
                assert(np as nat == packed_of(s.drop_first()));
                lemma_unpack_pack(s.drop_first());
                if k > 1 {
                    assert(pow3((k - 1) as nat) == 3 * pow3((k - 2) as nat));
                    lemma_div_multiples_vanish(pow3((k - 2) as nat) as int, 3);
                }
            }
            *self = Cells { packed: np, denom: nd, remaining: Ghost((k - 1) as nat) };
            Some(c)
        }
    }

    /// The last remaining cell, consumed from the back.
    pub fn next_back(&mut self) -> (c: Option<Cell>)
        ensures
            old(self)@.len() == 0 ==> c is None && final(self)@ == old(self)@,
            old(self)@.len() > 0 ==> c == Some(old(self)@.last()) && final(self)@ == old(
                self,
            )@.drop_last(),
    {
        proof {
            use_type_invariant(&*self);
        }
        if self.denom == 0 {
            proof {
                if self.remaining@ > 0 {
                    lemma_pow3_pos((self.remaining@ - 1) as nat);
                }
            }
            None
        } else {
            let ghost s = self@;
            let ghost k = self.remaining@;
            let digit = self.packed % 3;
            let np = self.packed / 3;
            let nd = self.denom / 3;
            let c = Cell::from_digit(digit);
            proof {
                lemma_pack_unpack(self.packed as nat, k);
                assert(s =~= s.drop_last() + seq![s.last()]);
                lemma_packed_singleton(s.last());
                lemma_packed_split(s.drop_last(), seq![s.last()]);
                assert(pow3(1) == 3);
                assert(digit as nat == s.last().digit());
                assert(np as nat == packed_of(s.drop_last()));
                lemma_unpack_pack(s.drop_last());
                if k > 1 {
                    assert(pow3((k - 1) as nat) == 3 * pow3((k - 2) as nat));
                    lemma_div_multiples_vanish(pow3((k - 2) as nat) as int, 3);
                }
            }
            *self = Cells { packed: np, denom: nd, remaining: Ghost((k - 1) as nat) };
            Some(c)
        }
    }

    /// How many cells remain: how often `denom` divides by three before it
    /// reaches zero.
    pub fn len(&self) -> (n: usize)
        ensures
            n == self@.len(),
    {
        proof {
            use_type_invariant(self);
        }
        let mut denom = self.denom;
        let mut count: usize = 0;
        let ghost mut j = self.remaining@;
        while denom > 0
            invariant
                count + j == self.remaining@,
                self.remaining@ <= 20,
                j == 0 ==> denom == 0,
                j > 0 ==> denom as nat == pow3((j - 1) as nat),
            decreases j,
        {
            proof {
                if j == 0 {
                    assert(false);
                }
                if j > 1 {
                    assert(pow3((j - 1) as nat) == 3 * pow3((j - 2) as nat));
                    lemma_div_multiples_vanish(pow3((j - 2) as nat) as int, 3);
                }
            }
            denom = denom / 3;
            count = count + 1;
            proof {
                j = (j - 1) as nat;
            }
        }
        proof {
            if j > 0 {
                lemma_pow3_pos((j - 1) as nat);
            }
        }
        count
    }
}

} // verus!
