//! What the machine-information registers of a hart say, in words.

use vstd::prelude::*;

verus! {

/// The base ISA width that the top two bits of `misa` name.
pub fn parse_misa(misa: u64) -> (r: &'static str)
    ensures
        misa >> 62 == 1 ==> r@ == "rv32"@,
        misa >> 62 == 2 ==> r@ == "rv64"@,
        misa >> 62 == 3 ==> r@ == "rv128"@,
        misa >> 62 == 0 ==> r@ == "rv??"@,
{
    let top = misa >> 62;
    if top == 1 {
        "rv32"
    } else if top == 2 {
        "rv64"
    } else if top == 3 {
        "rv128"
    } else {
        "rv??"
    }
}

/// The vendor that a `mvendorid` value names.
pub fn vendor_name(vendor_id: u64) -> (r: &'static str)
    ensures
        vendor_id == 0 ==> r@ == "Unknown / Custom"@,
        vendor_id == 0x489 ==> r@ == "SiFive"@,
        vendor_id == 0x101 ==> r@ == "Andes Technology"@,
        vendor_id != 0 && vendor_id != 0x489 && vendor_id != 0x101 ==> r@ == "Unrecognized"@,
{
    if vendor_id == 0 {
        "Unknown / Custom"
    } else if vendor_id == 0x489 {
        "SiFive"
    } else if vendor_id == 0x101 {
        "Andes Technology"
    } else {
        "Unrecognized"
    }
}

/// The architecture that a `marchid` value names; a set top bit marks a
/// custom one.
pub fn arch_name(arch_id: u64) -> (r: &'static str)
    ensures
        arch_id == 0 ==> r@ == "Unknown"@,
        arch_id == 0x21 ==> r@ == "SiFive U74"@,
        arch_id != 0 && arch_id != 0x21 && arch_id >> 63 == 1 ==> r@ == "Custom arch ID"@,
        arch_id != 0 && arch_id != 0x21 && arch_id >> 63 != 1 ==> r@ == "Unrecognized"@,
{
    if arch_id == 0 {
        "Unknown"
    } else if arch_id == 0x21 {
        "SiFive U74"
    } else if arch_id >> 63 == 1 {
        "Custom arch ID"
    } else {
        "Unrecognized"
    }
}

} // verus!
