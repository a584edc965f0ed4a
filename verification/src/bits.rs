//! Bit and bit-field access on 32-bit register values.

use vstd::prelude::*;

verus! {

/// Whether bit `index` of `value` is set.
pub open spec fn bit(value: u32, index: u32) -> bool {
    value & (1u32 << index) != 0
}

/// `value` with bit `index` set to `on`.
pub open spec fn with_bit(value: u32, index: u32, on: bool) -> u32 {
    if on {
        value | (1u32 << index)
    } else {
        value & !(1u32 << index)
    }
}

/// The lowest `width` bits set, for a width from 1 to 32.
pub open spec fn mask(width: u32) -> u32 {
    u32::MAX >> ((32 - width) as u32)
}

/// The `width` bits of `value` that start at bit `lsb`.
pub open spec fn field(value: u32, lsb: u32, width: u32) -> u32 {
    (value >> lsb) & mask(width)
}

/// `value` with the `width` bits from `lsb` on replaced by the low bits of
/// `content`.
pub open spec fn with_field(value: u32, lsb: u32, width: u32, content: u32) -> u32 {
    (value & !(mask(width) << lsb)) | ((content & mask(width)) << lsb)
}

/// Whether bit `index` of `value` is set.
pub fn get_bit(value: u32, index: u32) -> (on: bool)
    requires
        index < 32,
    ensures
        on == bit(value, index),
{
    value & (1u32 << index) != 0
}

/// `value` with bit `index` set to `on`.
pub fn set_bit(value: u32, index: u32, on: bool) -> (changed: u32)
    requires
        index < 32,
    ensures
        changed == with_bit(value, index, on),
{
    if on {
        value | (1u32 << index)
    } else {
        value & !(1u32 << index)
    }
}

/// The `width` bits of `value` that start at bit `lsb`.
pub fn get_field(value: u32, lsb: u32, width: u32) -> (content: u32)
    requires
        1 <= width,
        lsb + width <= 32,
    ensures
        content == field(value, lsb, width),
{
    (value >> lsb) & (u32::MAX >> (32 - width))
}

/// `value` with the `width` bits from `lsb` on replaced by the low bits of
/// `content`.
pub fn set_field(value: u32, lsb: u32, width: u32, content: u32) -> (changed: u32)
    requires
        1 <= width,
        lsb + width <= 32,
    ensures
        changed == with_field(value, lsb, width, content),
{
    let m: u32 = u32::MAX >> (32 - width);
    (value & !(m << lsb)) | ((content & m) << lsb)
}

} // verus!
