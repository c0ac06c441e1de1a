//! Order on single-precision numbers, read off their bit patterns.
//!
//! The library never computes with floating point. A single-precision number
//! passes through it as its IEEE 754 bit pattern, and all that the search needs
//! of one is how it compares with another.

use vstd::prelude::*;

verus! {

/// The IEEE 754 bit pattern of a single-precision number.
pub type F32Bits = u32;

/// The pattern of the largest finite number.
pub const MAX_FINITE: F32Bits = 0x7f7f_ffff;

/// The sign bit is set.
pub open spec fn is_negative(x: F32Bits) -> bool {
    x >= 0x8000_0000
}

/// The pattern without its sign bit.
pub open spec fn magnitude(x: F32Bits) -> int {
    x as int % 0x8000_0000
}

/// The pattern is that of no number.
pub open spec fn is_nan(x: F32Bits) -> bool {
    magnitude(x) > 0x7f80_0000
}

/// The place on the number line: of two numbers the smaller has the smaller
/// place, and both zeros stand at 0.
pub open spec fn place(x: F32Bits) -> int {
    if is_negative(x) {
        -magnitude(x)
    } else {
        magnitude(x)
    }
}

/// `x < y` as floating point compares: false as soon as one is no number.
pub open spec fn less(x: F32Bits, y: F32Bits) -> bool {
    !is_nan(x) && !is_nan(y) && place(x) < place(y)
}

/// The place in the IEEE 754 total order: negative patterns below positive
/// ones, the negative zero right below the positive zero, and the patterns of
/// no number at the two ends.
pub open spec fn total_place(x: F32Bits) -> int {
    if is_negative(x) {
        -1 - magnitude(x)
    } else {
        magnitude(x)
    }
}

/// Whether `x < y`.
pub fn float_less(x: F32Bits, y: F32Bits) -> (r: bool)
    ensures
        r == less(x, y),
{
    let mx: u32 = x % 0x8000_0000;
    let my: u32 = y % 0x8000_0000;
    if mx > 0x7f80_0000 || my > 0x7f80_0000 {
        return false;
    }
    if x >= 0x8000_0000 {
        if y >= 0x8000_0000 {
            my < mx
        } else {
            mx > 0 || my > 0
        }
    } else if y >= 0x8000_0000 {
        false
    } else {
        mx < my
    }
}

/// Whether `x` stands below `y` in the total order.
pub fn total_less(x: F32Bits, y: F32Bits) -> (r: bool)
    ensures
        r == (total_place(x) < total_place(y)),
{
    if x >= 0x8000_0000 {
        if y >= 0x8000_0000 {
            y < x
        } else {
            true
        }
    } else if y >= 0x8000_0000 {
        false
    } else {
        x < y
    }
}

/// On numbers the two orders agree, but for the two zeros: what is smaller is
/// below in the total order, and what is below is not larger.
pub proof fn total_order_extends_less(x: F32Bits, y: F32Bits)
    requires
        !is_nan(x),
        !is_nan(y),
    ensures
        less(x, y) ==> total_place(x) < total_place(y),
        total_place(x) < total_place(y) ==> !less(y, x),
{
}

} // verus!
