//! Rotation and reflection of a cell sequence, the orbit of a ring under the
//! dihedral group those generate, and the canonical representative of that
//! orbit: the rotation or reflected rotation whose packed value is greatest.
//! The lemmas here state the group laws the library guarantees: rotations
//! compose and invert, reflection is an involution, and the canonical form is
//! unique and invariant under both symmetries.

use crate::cell::Cell;
use crate::digits::packed_of;
use vstd::arithmetic::div_mod::{
    lemma_add_mod_noop, lemma_mod_self_0, lemma_mod_sub_multiples_vanish, lemma_small_mod,
};
use vstd::prelude::*;

verus! {

/// `s` rotated left by `k` places, for `0 <= k <= s.len()`: the cell at
/// index `i` of the result is the cell at index `(i + k) % len` of `s`.
pub open spec fn rotl(s: Seq<Cell>, k: int) -> Seq<Cell> {
    s.subrange(k, s.len() as int) + s.subrange(0, k)
}

/// `s` rotated right by `k` places, for `0 <= k <= s.len()`.
pub open spec fn rotr(s: Seq<Cell>, k: int) -> Seq<Cell> {
    s.subrange(s.len() - k, s.len() as int) + s.subrange(0, s.len() - k)
}

/// A remainder taken within one wrap: `x % len` subtracts `len` at most once.
proof fn lemma_mod_in_range(x: int, len: int)
    requires
        0 < len,
        0 <= x < 2 * len,
    ensures
        x % len == if x < len {
            x
        } else {
            x - len
        },
{
    if x < len {
        lemma_small_mod(x as nat, len as nat);
    } else {
        lemma_mod_sub_multiples_vanish(x, len);
        lemma_small_mod((x - len) as nat, len as nat);
    }
}

/// Rotation read pointwise: modular indexing.
pub proof fn lemma_rotl_index(s: Seq<Cell>, k: int)
    requires
        0 < s.len(),
        0 <= k <= s.len(),
    ensures
        rotl(s, k).len() == s.len(),
        forall|i: int| 0 <= i < s.len() ==> rotl(s, k)[i] == s[(i + k) % s.len() as int],
{
    let len = s.len() as int;
    assert forall|i: int| 0 <= i < len implies rotl(s, k)[i] == s[(i + k) % len] by {
        lemma_mod_in_range(i + k, len);
    }
}

/// Rotating by zero changes nothing.
pub proof fn lemma_rotl_zero(s: Seq<Cell>)
    ensures
        rotl(s, 0) == s,
{
    assert(rotl(s, 0) =~= s);
}

/// Rotating left undoes rotating right by the same amount, and the other way
/// round, returning the very same packed digits.
pub proof fn lemma_rotate_round_trip(s: Seq<Cell>, k: int)
    requires
        0 <= k <= s.len(),
    ensures
        rotl(rotr(s, k), k) == s,
        rotr(rotl(s, k), k) == s,
        packed_of(rotl(rotr(s, k), k)) == packed_of(s),
{
    assert(rotl(rotr(s, k), k) =~= s);
    assert(rotr(rotl(s, k), k) =~= s);
}

/// Two rotations compose into a single rotation by the sum of the offsets,
/// reduced modulo the length.
pub proof fn lemma_rotate_compose(s: Seq<Cell>, a: int, b: int)
    requires
        0 < s.len(),
        0 <= a < s.len(),
        0 <= b < s.len(),
    ensures
        rotl(rotl(s, a), b) == rotl(s, (a + b) % s.len() as int),
{
    let len = s.len() as int;
    let m = (a + b) % len;
    lemma_mod_in_range(a + b, len);
    lemma_rotl_index(s, a);
    lemma_rotl_index(rotl(s, a), b);
    lemma_rotl_index(s, m);
    assert forall|i: int| 0 <= i < len implies rotl(rotl(s, a), b)[i] == rotl(s, m)[i] by {
        let j = (i + b) % len;
        lemma_mod_in_range(i + b, len);
        assert(rotl(rotl(s, a), b)[i] == rotl(s, a)[j]);
        assert(rotl(s, a)[j] == s[(j + a) % len]);
        lemma_small_mod(a as nat, len as nat);
        lemma_add_mod_noop(i + b, a, len);
        assert((j + a) % len == (i + b + a) % len);
        lemma_small_mod(i as nat, len as nat);
        lemma_add_mod_noop(i, a + b, len);
        assert((i + m) % len == (i + a + b) % len);
    }
    assert(rotl(rotl(s, a), b) =~= rotl(s, m));
}

/// Reflecting twice restores the ring exactly, packed value included.
pub proof fn lemma_reflect_involution(s: Seq<Cell>)
    ensures
        s.reverse().reverse() == s,
        packed_of(s.reverse().reverse()) == packed_of(s),
{
    assert(s.reverse().reverse() =~= s);
}

/// Reflecting a rotation is rotating the reflection by the complementary
/// offset.
pub proof fn lemma_rotl_reverse(s: Seq<Cell>, k: int)
    requires
        0 < s.len(),
        0 <= k < s.len(),
    ensures
        rotl(s, k).reverse() == rotl(s.reverse(), (s.len() - k) % s.len() as int),
{
    let len = s.len() as int;
    let m = (len - k) % len;
    lemma_mod_in_range(len - k, len);
    lemma_rotl_index(s, k);
    lemma_rotl_index(s.reverse(), m);
    assert forall|i: int| 0 <= i < len implies rotl(s, k).reverse()[i] == rotl(s.reverse(), m)[i] by {
        assert(rotl(s, k).reverse()[i] == rotl(s, k)[len - 1 - i]);
        assert(rotl(s, k)[len - 1 - i] == s[(len - 1 - i + k) % len]);
        lemma_mod_in_range(len - 1 - i + k, len);
        assert(rotl(s.reverse(), m)[i] == s.reverse()[(i + m) % len]);
        lemma_mod_in_range(i + m, len);
        assert(s.reverse()[(i + m) % len] == s[len - 1 - ((i + m) % len)]);
    }
    assert(rotl(s, k).reverse() =~= rotl(s.reverse(), m));
}

/// The complementary rotation offset: rotating by `m` then by
/// `(len - m) % len` is a whole turn.
proof fn lemma_complement(len: int, m: int)
    requires
        0 < len,
        0 <= m < len,
    ensures
        0 <= (len - m) % len < len,
        (len - (len - m) % len) % len == m,
        (m + (len - m) % len) % len == 0,
{
    lemma_mod_self_0(len);
    lemma_small_mod(0, len as nat);
    if m > 0 {
        lemma_small_mod((len - m) as nat, len as nat);
        lemma_small_mod(m as nat, len as nat);
    }
}

/// Every rotation is undone by the complementary rotation.
proof fn lemma_rotl_inverse(s: Seq<Cell>, m: int)
    requires
        0 < s.len(),
        0 <= m < s.len(),
    ensures
        0 <= ((s.len() - m) % (s.len() as int)) < s.len(),
        rotl(rotl(s, m), (s.len() - m) % (s.len() as int)) == s,
{
    let len = s.len() as int;
    lemma_complement(len, m);
    lemma_rotate_compose(s, m, (len - m) % len);
    lemma_rotl_zero(s);
}

/// Whether `t` is a rotation of `s`, or a reflection of such a rotation:
/// whether the two rings are the same board, merely spun or flipped.
pub open spec fn in_orbit(s: Seq<Cell>, t: Seq<Cell>) -> bool {
    exists|m: int|
        0 <= m < s.len() && (t == #[trigger] rotl(s, m) || t == rotl(s, m).reverse())
}

/// Orbit members have the ring's length.
pub proof fn lemma_orbit_len(s: Seq<Cell>, t: Seq<Cell>)
    requires
        in_orbit(s, t),
    ensures
        t.len() == s.len(),
        s.len() > 0,
{
    let m = choose|m: int|
        0 <= m < s.len() && (t == #[trigger] rotl(s, m) || t == rotl(s, m).reverse());
    assert(rotl(s, m).len() == s.len());
}

/// Every ring is in its own orbit.
pub proof fn lemma_orbit_refl(s: Seq<Cell>)
    requires
        0 < s.len(),
    ensures
        in_orbit(s, s),
{
    lemma_rotl_zero(s);
    assert(0 <= 0 < s.len() && s == rotl(s, 0));
}

/// Orbit membership is symmetric.
pub proof fn lemma_orbit_sym(s: Seq<Cell>, t: Seq<Cell>)
    requires
        in_orbit(s, t),
    ensures
        in_orbit(t, s),
{
    let len = s.len() as int;
    lemma_orbit_len(s, t);
    let m = choose|m: int|
        0 <= m < s.len() && (t == #[trigger] rotl(s, m) || t == rotl(s, m).reverse());
    let m1 = (len - m) % len;
    lemma_complement(len, m);
    lemma_rotl_inverse(s, m);
    if t == rotl(s, m) {
        assert(s == rotl(t, m1));
    } else {
        // `t` is the reflection of the rotation `v`.
        let v = rotl(s, m);
        lemma_reflect_involution(v);
        assert(t.reverse() == v);
        assert(s == rotl(t.reverse(), m1));
        let m2 = (len - m1) % len;
        lemma_complement(len, m1);
        lemma_rotl_reverse(t, m2);
        assert(rotl(t, m2).reverse() == rotl(t.reverse(), m1));
        assert(s == rotl(t, m2).reverse());
    }
}

/// Orbit membership is transitive.
pub proof fn lemma_orbit_trans(s: Seq<Cell>, t: Seq<Cell>, u: Seq<Cell>)
    requires
        in_orbit(s, t),
        in_orbit(t, u),
    ensures
        in_orbit(s, u),
{
    let len = s.len() as int;
    lemma_orbit_len(s, t);
    lemma_orbit_len(t, u);
    let m1 = choose|m: int|
        0 <= m < s.len() && (t == #[trigger] rotl(s, m) || t == rotl(s, m).reverse());
    let m2 = choose|m: int|
        0 <= m < t.len() && (u == #[trigger] rotl(t, m) || u == rotl(t, m).reverse());
    if t == rotl(s, m1) {
        lemma_rotate_compose(s, m1, m2);
        let m3 = (m1 + m2) % len;
        lemma_mod_in_range(m1 + m2, len);
        if u == rotl(t, m2) {
            assert(u == rotl(s, m3));
        } else {
            assert(u == rotl(s, m3).reverse());
        }
    } else {
        // `t` reflects the rotation `v`; carry the rotation of `u` across the
        // reflection with the complementary offset.
        let v = rotl(s, m1);
        lemma_reflect_involution(v);
        assert(t == v.reverse());
        let k = (len - m2) % len;
        lemma_complement(len, m2);
        lemma_rotl_reverse(v, k);
        assert(rotl(v, k).reverse() == rotl(v.reverse(), (len - k) % len));
        assert((len - k) % len == m2);
        assert(rotl(t, m2) == rotl(v, k).reverse());
        lemma_rotate_compose(s, m1, k);
        let m3 = (m1 + k) % len;
        lemma_mod_in_range(m1 + k, len);
        assert(rotl(v, k) == rotl(s, m3));
        if u == rotl(t, m2) {
            assert(u == rotl(s, m3).reverse());
        } else {
            lemma_reflect_involution(rotl(v, k));
            assert(u == rotl(s, m3));
        }
    }
}

/// Whether `c` is the canonical form of `s`: the member of `s`'s orbit whose
/// packed value is greatest.
pub open spec fn is_canon(s: Seq<Cell>, c: Seq<Cell>) -> bool {
    &&& in_orbit(s, c)
    &&& forall|t: Seq<Cell>| #[trigger] in_orbit(s, t) ==> packed_of(t) <= packed_of(c)
}

/// The canonical form is unique: distinct digit sequences pack to distinct
/// values, so the greatest packed value picks out one sequence.
pub proof fn lemma_canon_unique(s: Seq<Cell>, c1: Seq<Cell>, c2: Seq<Cell>)
    requires
        is_canon(s, c1),
        is_canon(s, c2),
    ensures
        c1 == c2,
{
    assert(packed_of(c1) <= packed_of(c2));
    assert(packed_of(c2) <= packed_of(c1));
    lemma_orbit_len(s, c1);
    lemma_orbit_len(s, c2);
    crate::digits::lemma_packed_injective(c1, c2);
}

/// Rings of one orbit share their canonical form.
pub proof fn lemma_canon_of_orbit(s: Seq<Cell>, t: Seq<Cell>, c1: Seq<Cell>, c2: Seq<Cell>)
    requires
        in_orbit(s, t),
        is_canon(s, c1),
        is_canon(t, c2),
    ensures
        c1 == c2,
{
    lemma_orbit_sym(s, t);
    lemma_orbit_trans(t, s, c1);
    assert forall|u: Seq<Cell>| #[trigger] in_orbit(t, u) implies packed_of(u) <= packed_of(
        c1,
    ) by {
        lemma_orbit_trans(s, t, u);
    }
    lemma_canon_unique(t, c1, c2);
}

/// Canonicalising is idempotent: the canonical form of a canonical form is
/// itself.
pub proof fn lemma_canon_idempotent(s: Seq<Cell>, c: Seq<Cell>, c2: Seq<Cell>)
    requires
        is_canon(s, c),
        is_canon(c, c2),
    ensures
        c2 == c,
{
    lemma_orbit_len(s, c);
    lemma_orbit_refl(c);
    assert forall|u: Seq<Cell>| #[trigger] in_orbit(c, u) implies packed_of(u) <= packed_of(c) by {
        lemma_orbit_trans(s, c, u);
    }
    assert(is_canon(c, c));
    lemma_canon_unique(c, c2, c);
}

/// The canonical form does not change when the ring is rotated first.
pub proof fn lemma_canon_rotation_invariant(s: Seq<Cell>, k: int, c1: Seq<Cell>, c2: Seq<Cell>)
    requires
        0 <= k < s.len(),
        is_canon(s, c1),
        is_canon(rotl(s, k), c2),
    ensures
        c2 == c1,
{
    assert(in_orbit(s, rotl(s, k)));
    lemma_canon_of_orbit(s, rotl(s, k), c1, c2);
}

/// The canonical form does not change when the ring is reflected first.
pub proof fn lemma_canon_reflection_invariant(s: Seq<Cell>, c1: Seq<Cell>, c2: Seq<Cell>)
    requires
        0 < s.len(),
        is_canon(s, c1),
        is_canon(s.reverse(), c2),
    ensures
        c2 == c1,
{
    lemma_rotl_zero(s);
    assert(s.reverse() == rotl(s, 0).reverse());
    assert(in_orbit(s, s.reverse()));
    lemma_canon_of_orbit(s, s.reverse(), c1, c2);
}

} // verus!
