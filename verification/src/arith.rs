//! Powers of three: the place values of the base-3 digits that a ring packs
//! into its integer representation.

use vstd::arithmetic::mul::lemma_mul_is_associative;
use vstd::prelude::*;

verus! {

/// `3^n`.
pub open spec fn pow3(n: nat) -> nat
    decreases n,
{
    if n == 0 {
        1
    } else {
        3 * pow3((n - 1) as nat)
    }
}

pub proof fn lemma_pow3_pos(n: nat)
    ensures
        pow3(n) >= 1,
    decreases n,
{
    if n > 0 {
        lemma_pow3_pos((n - 1) as nat);
    }
}

/// `3^(a+b) == 3^a * 3^b`.
pub proof fn lemma_pow3_adds(a: nat, b: nat)
    ensures
        pow3(a + b) == pow3(a) * pow3(b),
    decreases a,
{
    if a > 0 {
        lemma_pow3_adds((a - 1) as nat, b);
        let x = pow3((a - 1) as nat) as int;
        let y = pow3(b) as int;
        assert((a + b - 1) as nat == (a - 1) as nat + b);
        assert(pow3(a + b) == 3 * (x * y));
        lemma_mul_is_associative(3, x, y);
        assert(pow3(a) * pow3(b) == (3 * x) * y);
    } else {
        assert(pow3(a) == 1);
        assert(a + b == b);
        assert(pow3(a) * pow3(b) == pow3(b));
    }
}

/// `pow3` is monotone.
pub proof fn lemma_pow3_increases(a: nat, b: nat)
    requires
        a <= b,
    ensures
        pow3(a) <= pow3(b),
{
    lemma_pow3_adds(a, (b - a) as nat);
    lemma_pow3_pos(a);
    lemma_pow3_pos((b - a) as nat);
    assert(pow3(a) * pow3((b - a) as nat) >= pow3(a) * 1) by (nonlinear_arith)
        requires
            pow3((b - a) as nat) >= 1,
            pow3(a) >= 1,
    ;
}

/// The largest power of three that a `u32` can hold: a ring is limited to 20
/// cells because `3^20 < 2^32 < 3^21`.
pub proof fn lemma_pow3_20()
    ensures
        pow3(20) == 3486784401,
{
    reveal_with_fuel(pow3, 21);
}

/// `3^e` computed on `u32` values.
pub fn pow3_u32(e: u32) -> (r: u32)
    requires
        e <= 20,
    ensures
        r as nat == pow3(e as nat),
{
    let mut r: u32 = 1;
    let mut i: u32 = 0;
    while i < e
        invariant
            i <= e,
            e <= 20,
            r as nat == pow3(i as nat),
        decreases e - i,
    {
        proof {
            lemma_pow3_increases((i + 1) as nat, 20);
            lemma_pow3_20();
        }
        r = r * 3;
        i = i + 1;
    }
    r
}

} // verus!
