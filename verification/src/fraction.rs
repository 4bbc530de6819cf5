//! Fractions by their bits: when two of them say the same, and which is less.
//! Nought and minus nought say the same, and what is no number says the same
//! as nothing, itself included.

use vstd::prelude::*;
use crate::world::{Quad, Triple};

verus! {

/// The bits of the fraction that no other is more than.
pub const ENDLESS: u32 = 0x7f80_0000;

/// Where the bits of the fractions below nought begin.
pub const BELOW: u32 = 0x8000_0000;

/// A fraction without its sign.
pub open spec fn bare(bits: u32) -> u32 {
    if bits >= BELOW {
        (bits - BELOW) as u32
    } else {
        bits
    }
}

/// Whether bits are no number.
pub open spec fn no_number(bits: u32) -> bool {
    bare(bits) > ENDLESS
}

/// Whether two fractions say the same.
pub open spec fn alike(left: u32, right: u32) -> bool {
    !no_number(left) && !no_number(right) && (left == right || (bare(left) == 0 && bare(right)
        == 0))
}

/// A fraction's place among them all, the negative ones below nought.
pub open spec fn rank(bits: u32) -> int {
    if bits >= BELOW {
        -(bits - BELOW)
    } else {
        bits as int
    }
}

/// Whether one fraction is less than another.
pub open spec fn less(left: u32, right: u32) -> bool {
    !no_number(left) && !no_number(right) && rank(left) < rank(right)
}

/// Two fractions that are numbers say the same, or one of them is less.
pub proof fn one_or_the_other(left: u32, right: u32)
    requires
        !no_number(left),
        !no_number(right),
    ensures
        alike(left, right) <==> !less(left, right) && !less(right, left),
        !(less(left, right) && less(right, left)),
{
}

/// A fraction without its sign.
fn unsigned(bits: u32) -> (result: u32)
    ensures
        result == bare(bits),
{
    if bits >= BELOW {
        bits - BELOW
    } else {
        bits
    }
}

/// Whether two fractions say the same.
pub fn same_fraction(left: u32, right: u32) -> (result: bool)
    ensures
        result == alike(left, right),
{
    let a: u32 = unsigned(left);
    let b: u32 = unsigned(right);
    a <= ENDLESS && b <= ENDLESS && (left == right || (a == 0 && b == 0))
}

/// Whether one fraction is less than another.
pub fn less_fraction(left: u32, right: u32) -> (result: bool)
    ensures
        result == less(left, right),
{
    let a: u32 = unsigned(left);
    let b: u32 = unsigned(right);
    if a > ENDLESS || b > ENDLESS {
        false
    } else if left >= BELOW {
        if right >= BELOW {
            b < a
        } else {
            a > 0 || b > 0
        }
    } else {
        right < BELOW && left < right
    }
}

/// A fraction held between two others; what is no number stays as it is.
pub open spec fn clamped(value: u32, low: u32, high: u32) -> u32 {
    if less(value, low) {
        low
    } else if less(high, value) {
        high
    } else {
        value
    }
}

/// A fraction held between two others.
pub fn clamp_fraction(value: u32, low: u32, high: u32) -> (result: u32)
    ensures
        result == clamped(value, low, high),
{
    if less_fraction(value, low) {
        low
    } else if less_fraction(high, value) {
        high
    } else {
        value
    }
}

/// Whether three fractions each say the same as their own.
pub open spec fn triples_alike(left: Triple, right: Triple) -> bool {
    alike(left.x, right.x) && alike(left.y, right.y) && alike(left.z, right.z)
}

/// Whether three fractions each say the same as their own.
pub fn same_triple(left: Triple, right: Triple) -> (result: bool)
    ensures
        result == triples_alike(left, right),
{
    same_fraction(left.x, right.x) && same_fraction(left.y, right.y) && same_fraction(
        left.z,
        right.z,
    )
}

/// Whether four fractions each say the same as their own.
pub open spec fn quads_alike(left: Quad, right: Quad) -> bool {
    alike(left.x, right.x) && alike(left.y, right.y) && alike(left.z, right.z) && alike(
        left.w,
        right.w,
    )
}

/// Whether four fractions each say the same as their own.
pub fn same_quad(left: Quad, right: Quad) -> (result: bool)
    ensures
        result == quads_alike(left, right),
{
    same_fraction(left.x, right.x) && same_fraction(left.y, right.y) && same_fraction(
        left.z,
        right.z,
    ) && same_fraction(left.w, right.w)
}

/// What is less than something is less than everything that is more; nothing is
/// less than itself. Fractions below nought are less than those above it, and of
/// two on one side the bits decide, the other way round below nought. Nought and
/// minus nought are neither less than the other.
pub proof fn fractions_stand_in_order(first: u32, second: u32, third: u32)
    ensures
        less(first, second) && less(second, third) ==> less(first, third),
        !less(first, first),
        first < second <= 0x7f80_0000 ==> less(first, second),
        0x8000_0000 <= first < second <= 0xff80_0000 ==> less(second, first),
        0x8000_0000 < first <= 0xff80_0000 && second <= 0x7f80_0000 ==> less(first, second),
        alike(0, 0x8000_0000),
        first <= 0x7f80_0000 ==> alike(first, first),
        0x7f80_0000 < first < 0x8000_0000 || 0xff80_0000 < first ==> !less(first, second)
            && !less(second, first) && !alike(first, second),
        alike(first, second) && alike(second, third) ==> alike(first, third),
        alike(first, second) ==> less(first, third) == less(second, third),
        alike(first, second) == alike(second, first),
        alike(first, second) && first != second ==> (first == 0 || first == 0x8000_0000),
{
}

/// What is held between two fractions is between them and is what it was where
/// it was between them already.
pub proof fn what_is_held_is_between(value: u32, low: u32, high: u32)
    requires
        !no_number(value),
        less(low, high),
    ensures
        ({
            let held = clamped(value, low, high);
            &&& !less(held, low) && !less(high, held)
            &&& !less(value, low) && !less(high, value) ==> held == value
            &&& less(value, low) ==> held == low
            &&& less(high, value) ==> held == high
        }),
{
}

/// Places and turns say the same exactly where each of their fractions does.
pub proof fn each_fraction_counts(left: Triple, right: Triple, one: Quad, other: Quad)
    ensures
        triples_alike(left, right) ==> alike(left.x, right.x) && alike(left.y, right.y) && alike(
            left.z,
            right.z,
        ),
        !triples_alike(left, right) ==> !alike(left.x, right.x) || !alike(left.y, right.y)
            || !alike(left.z, right.z),
        quads_alike(one, other) ==> alike(one.x, other.x) && alike(one.y, other.y) && alike(
            one.z,
            other.z,
        ) && alike(one.w, other.w),
        !quads_alike(one, other) ==> !alike(one.x, other.x) || !alike(one.y, other.y) || !alike(
            one.z,
            other.z,
        ) || !alike(one.w, other.w),
{
}

} // verus!
