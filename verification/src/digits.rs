//! Packing a sequence of cells into an integer as base-3 digits, most
//! significant digit first, and the inverse reading of digits out of such an
//! integer. The two directions are proved inverse to one another, which lets
//! every ring operation be specified on the sequence of cells alone.

use crate::arith::{lemma_pow3_pos, pow3};
use crate::cell::Cell;
use vstd::arithmetic::div_mod::{
    lemma_div_denominator, lemma_fundamental_div_mod_converse, lemma_multiply_divide_lt,
};
use vstd::arithmetic::mul::{lemma_mul_basics, lemma_mul_is_associative, lemma_mul_nonnegative};
use vstd::prelude::*;

verus! {

/// The integer that packs `s` as base-3 digits, most significant first.
pub open spec fn packed_of(s: Seq<Cell>) -> nat
    decreases s.len(),
{
    if s.len() == 0 {
        0
    } else {
        packed_of(s.drop_last()) * 3 + s.last().digit()
    }
}

/// The base-3 digit of `p` at cell index `i`, for a ring of `len` digits:
/// index 0 is the most significant digit.
pub open spec fn digit_at(p: nat, len: nat, i: int) -> nat {
    (p / pow3((len - 1 - i) as nat)) % 3
}

/// The sequence of `len` cells that `p` packs.
pub open spec fn unpacked(p: nat, len: nat) -> Seq<Cell> {
    Seq::new(len, |i: int| Cell::of_digit(digit_at(p, len, i)))
}

/// A packed value stays below the place value just past its last digit.
pub proof fn lemma_packed_bound(s: Seq<Cell>)
    ensures
        packed_of(s) < pow3(s.len()),
    decreases s.len(),
{
    if s.len() > 0 {
        lemma_packed_bound(s.drop_last());
        assert(pow3(s.len()) == 3 * pow3((s.len() - 1) as nat));
    }
}

/// Packing a single cell yields its digit.
pub proof fn lemma_packed_singleton(c: Cell)
    ensures
        packed_of(seq![c]) == c.digit(),
{
    assert(seq![c].drop_last() =~= Seq::<Cell>::empty());
    assert(packed_of(Seq::<Cell>::empty()) == 0);
    assert(seq![c].last() == c);
}

/// Concatenation packs as the left part shifted past the right part's digits,
/// plus the right part.
pub proof fn lemma_packed_concat(a: Seq<Cell>, b: Seq<Cell>)
    ensures
        packed_of(a + b) == packed_of(a) * pow3(b.len()) + packed_of(b),
    decreases b.len(),
{
    lemma_mul_nonnegative(packed_of(a) as int, pow3(b.len()) as int);
    if b.len() == 0 {
        assert(a + b =~= a);
        assert(pow3(b.len()) == 1);
        assert(packed_of(b) == 0);
        lemma_mul_basics(packed_of(a) as int);
        assert(packed_of(a) * pow3(b.len()) == packed_of(a));
    } else {
        lemma_packed_concat(a, b.drop_last());
        assert((a + b).drop_last() =~= a + b.drop_last());
        assert((a + b).last() == b.last());
        let pa = packed_of(a) as int;
        let pb1 = packed_of(b.drop_last()) as int;
        let m = pow3((b.len() - 1) as nat) as int;
        let d = b.last().digit() as int;
        assert(packed_of(a + b) == (pa * m + pb1) * 3 + d);
        assert((pa * m + pb1) * 3 == (pa * m) * 3 + pb1 * 3);
        lemma_mul_is_associative(pa, m, 3);
        assert((pa * m) * 3 == pa * (m * 3));
        assert(pow3(b.len()) == 3 * pow3((b.len() - 1) as nat));
        assert(m * 3 == pow3(b.len()));
        assert(pa * (m * 3) == pa * pow3(b.len()));
        assert(packed_of(b) == pb1 * 3 + d);
        assert(packed_of(a + b) == pa * pow3(b.len()) + packed_of(b));
        assert(packed_of(a + b) == packed_of(a) * pow3(b.len()) + packed_of(b));
    }
}

/// For a split sequence, the left part is the quotient and the right part the
/// remainder of the packed value by the place value at the split.
pub proof fn lemma_packed_split(a: Seq<Cell>, b: Seq<Cell>)
    ensures
        packed_of(a + b) / pow3(b.len()) == packed_of(a),
        packed_of(a + b) % pow3(b.len()) == packed_of(b),
{
    lemma_packed_concat(a, b);
    lemma_packed_bound(b);
    lemma_pow3_pos(b.len());
    lemma_fundamental_div_mod_converse(
        packed_of(a + b) as int,
        pow3(b.len()) as int,
        packed_of(a) as int,
        packed_of(b) as int,
    );
}

/// Reading one digit less significant than the first: dropping the leading
/// digit of `p` divides it by three.
proof fn lemma_digit_at_shift(p: nat, len: nat, i: int)
    requires
        1 <= len,
        0 <= i < len - 1,
    ensures
        digit_at(p, len, i) == digit_at(p / 3, (len - 1) as nat, i),
{
    let e = (len - 2 - i) as nat;
    lemma_pow3_pos(e);
    assert(pow3((len - 1 - i) as nat) == 3 * pow3(e));
    lemma_div_denominator(p as int, 3, pow3(e) as int);
    assert(p as int / (3 * pow3(e) as int) == (p as int / 3) / pow3(e) as int);
}

/// Unpacking inverts packing.
pub proof fn lemma_unpack_pack(s: Seq<Cell>)
    ensures
        unpacked(packed_of(s), s.len()) == s,
    decreases s.len(),
{
    let len = s.len();
    let p = packed_of(s);
    if len == 0 {
        assert(unpacked(p, len) =~= s);
    } else {
        let q = packed_of(s.drop_last());
        let d = s.last().digit();
        lemma_unpack_pack(s.drop_last());
        lemma_fundamental_div_mod_converse(p as int, 3, q as int, d as int);
        assert(p / 3 == q && p % 3 == d);
        assert forall|i: int| 0 <= i < len implies unpacked(p, len)[i] == s[i] by {
            if i == len - 1 {
                assert(pow3(0) == 1);
                assert(p as int / 1 == p as int);
                assert(digit_at(p, len, i) == d);
                assert(Cell::of_digit(s.last().digit()) == s.last());
            } else {
                lemma_digit_at_shift(p, len, i);
                assert(unpacked(q, (len - 1) as nat)[i] == s.drop_last()[i]);
            }
        }
        assert(unpacked(p, len) =~= s);
    }
}

/// Packing inverts unpacking.
pub proof fn lemma_pack_unpack(p: nat, len: nat)
    requires
        p < pow3(len),
    ensures
        packed_of(unpacked(p, len)) == p,
    decreases len,
{
    let s = unpacked(p, len);
    if len == 0 {
        assert(s =~= Seq::<Cell>::empty());
    } else {
        assert(pow3(len) == 3 * pow3((len - 1) as nat));
        lemma_pow3_pos((len - 1) as nat);
        lemma_multiply_divide_lt(p as int, pow3((len - 1) as nat) as int, 3);
        assert(p / 3 < pow3((len - 1) as nat));
        lemma_pack_unpack(p / 3, (len - 1) as nat);
        assert forall|i: int| 0 <= i < len - 1 implies s[i] == unpacked(
            p / 3,
            (len - 1) as nat,
        )[i] by {
            lemma_digit_at_shift(p, len, i);
        }
        assert(s.drop_last() =~= unpacked(p / 3, (len - 1) as nat));
        assert(pow3(0) == 1);
        assert(p as int / 1 == p as int);
        assert(digit_at(p, len, len - 1) == p % 3);
        assert(s.last() == Cell::of_digit(p % 3));
        assert(s.last().digit() == p % 3);
        assert(packed_of(s) == (p / 3) * 3 + p % 3);
    }
}

/// Packing is injective on sequences of one length.
pub proof fn lemma_packed_injective(s: Seq<Cell>, t: Seq<Cell>)
    requires
        s.len() == t.len(),
        packed_of(s) == packed_of(t),
    ensures
        s == t,
{
    lemma_unpack_pack(s);
    lemma_unpack_pack(t);
}

} // verus!
