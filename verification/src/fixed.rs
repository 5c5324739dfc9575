//! Fixed-point numbers.
use vstd::prelude::*;

verus! {

/// A fixed-point number: the integer `v` stands for the real number `v / UNIT`.
pub type Fixed = i32;

/// The fixed-point number one. It is `2 * 9^4`, so halves of whole numbers and
/// several rounds of division by nine of whole numbers are exact.
pub const UNIT: Fixed = 13122;

/// The largest whole number that a fixed-point number can hold.
pub const MAX_WHOLE: usize = 163655;

/// The whole part of the real number that `value` stands for, rounded toward zero.
pub open spec fn whole_part(value: int) -> int {
    if value >= 0 {
        value / (UNIT as int)
    } else {
        -((-value) / (UNIT as int))
    }
}

/// The fixed-point number that stands for the whole number `n`.
pub fn from_whole(n: usize) -> (value: Fixed)
    requires
        n <= MAX_WHOLE,
    ensures
        value == n * UNIT,
{
    let wide: i64 = (n as i64) * (UNIT as i64);
    wide as Fixed
}

/// Rounds a fixed-point number toward zero to a whole number.
pub fn to_whole(value: Fixed) -> (n: i32)
    ensures
        n == whole_part(value as int),
        -(MAX_WHOLE as int) <= n <= MAX_WHOLE as int,
{
    assert(-163655 <= whole_part(value as int) <= 163655) by (nonlinear_arith)
        requires
            -2147483648 <= value <= 2147483647,
            whole_part(value as int) == if value >= 0 {
                value as int / 13122
            } else {
                -((-(value as int)) / 13122)
            },
    ;
    value / UNIT
}

/// Division that rounds toward negative infinity.
pub fn floor_div(a: i128, d: i128) -> (q: i128)
    requires
        d > 0,
    ensures
        q == a as int / d as int,
{
    if a >= 0 {
        a / d
    } else {
        let n: i128 = -(a + 1);
        assert(a as int / d as int == -((-(a as int + 1)) / d as int) - 1) by (nonlinear_arith)
            requires
                a < 0,
                d > 0,
        ;
        -(n / d) - 1
    }
}

} // verus!
