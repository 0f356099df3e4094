//! Fixed-point numbers: the lattice on which all coordinates lie, and
//! division that rounds towards zero.

use vstd::prelude::*;

verus! {

/// Lattice steps per unit of length.
pub const UNIT: i64 = 1_048_576;

/// Largest magnitude a coordinate may have.
pub const COORD_MAX: i64 = 536_870_912;

/// A coordinate lies in the window of the lattice.
pub open spec fn in_window(c: int) -> bool {
    -COORD_MAX <= c <= COORD_MAX
}

/// The magnitude of `v`.
pub open spec fn magnitude(v: int) -> int {
    if v >= 0 {
        v
    } else {
        -v
    }
}

/// The quotient of `a` by the positive `b`, rounded towards zero.
pub open spec fn quotient(a: int, b: int) -> int {
    if a >= 0 {
        a / b
    } else {
        -((-a) / b)
    }
}

/// Half of `v`, rounded towards zero.
pub open spec fn half(v: int) -> int {
    quotient(v, 2)
}

/// The quotient of `a` by the positive `b`, rounded towards zero.
pub fn quotient_of(a: i128, b: i128) -> (q: i128)
    requires
        b > 0,
        a > i128::MIN,
    ensures
        q == quotient(a as int, b as int),
{
    if a >= 0 {
        a / b
    } else {
        proof {
            vstd::arithmetic::div_mod::lemma_div_pos_is_pos(-a as int, b as int);
            vstd::arithmetic::div_mod::lemma_div_is_ordered_by_denominator(-a as int, 1, b as int);
        }
        -((-a) / b)
    }
}

/// The part `num / den` of `v`, for a part between nothing and all, is no
/// larger than `v` and has its sign.
pub proof fn lemma_part_bound(v: int, num: int, den: int)
    requires
        0 <= num <= den,
        0 < den,
    ensures
        v >= 0 ==> 0 <= quotient(v * num, den) <= v,
        v <= 0 ==> v <= quotient(v * num, den) <= 0,
{
    if v >= 0 {
        assert(0 <= v * num <= v * den) by (nonlinear_arith)
            requires
                0 <= v,
                0 <= num <= den,
        ;
        vstd::arithmetic::div_mod::lemma_div_is_ordered(v * num, v * den, den);
        vstd::arithmetic::div_mod::lemma_div_is_ordered(0, v * num, den);
        vstd::arithmetic::div_mod::lemma_div_multiples_vanish(v, den);
        assert(v * den == den * v) by (nonlinear_arith);
    } else {
        let w = -v;
        assert(0 <= w * num <= w * den) by (nonlinear_arith)
            requires
                0 <= w,
                0 <= num <= den,
        ;
        assert(-(v * num) == w * num) by (nonlinear_arith)
            requires
                w == -v,
        ;
        vstd::arithmetic::div_mod::lemma_div_is_ordered(w * num, w * den, den);
        vstd::arithmetic::div_mod::lemma_div_is_ordered(0, w * num, den);
        vstd::arithmetic::div_mod::lemma_div_multiples_vanish(w, den);
        assert(w * den == den * w) by (nonlinear_arith);
        if w * num == 0 {
            assert(v * num == 0);
        }
    }
}

/// The mean of `a` and `b`, rounded towards zero.
pub open spec fn mean(a: int, b: int) -> int {
    half(a + b)
}

/// The mean of two numbers, rounded towards zero.
pub fn mean_of(a: i64, b: i64) -> (m: i64)
    ensures
        m == mean(a as int, b as int),
{
    let sum: i128 = a as i128 + b as i128;
    if sum >= 0 {
        (sum / 2) as i64
    } else {
        (-((-sum) / 2)) as i64
    }
}

} // verus!
