//! Byte counts shown the way people read them (`1.5K`, `12M`, `3G`).

use vstd::prelude::*;
use crate::text::{ascii_to_string, ascii_chars, decimal, push_decimal, lemma_decimal_ascii};

verus! {

/// The unit a count is shown in: 0 for bytes, 1 for `K`, up to 6 for `E`;
/// the largest `u` with `1024^u <= n`.
pub open spec fn size_unit(n: u64) -> nat {
    if n < 0x400 {
        0
    } else if n < 0x10_0000 {
        1
    } else if n < 0x4000_0000 {
        2
    } else if n < 0x100_0000_0000 {
        3
    } else if n < 0x4_0000_0000_0000 {
        4
    } else if n < 0x1000_0000_0000_0000 {
        5
    } else {
        6
    }
}

/// `1024^u` for the units.
pub open spec fn unit_div(u: nat) -> nat {
    if u == 0 {
        1
    } else if u == 1 {
        0x400
    } else if u == 2 {
        0x10_0000
    } else if u == 3 {
        0x4000_0000
    } else if u == 4 {
        0x100_0000_0000
    } else if u == 5 {
        0x4_0000_0000_0000
    } else {
        0x1000_0000_0000_0000
    }
}

/// The letter of a unit (`K`, `M`, `G`, `T`, `P`, `E`).
pub open spec fn unit_letter(u: nat) -> u8 {
    if u == 1 {
        0x4B
    } else if u == 2 {
        0x4D
    } else if u == 3 {
        0x47
    } else if u == 4 {
        0x54
    } else if u == 5 {
        0x50
    } else {
        0x45
    }
}

/// How a byte count is shown: a count under 1K in full; otherwise the
/// whole number of units and one decimal of the rest (cut, not rounded),
/// except that from 10 units on, or when that decimal is 0, the whole
/// number alone, rounded up when the decimal is 5 or more.
pub open spec fn human_text(n: u64) -> Seq<u8> {
    let u = size_unit(n);
    if u == 0 {
        decimal(n as nat)
    } else {
        let div = unit_div(u);
        let whole = n as nat / div;
        let frac = (n as nat % div) * 10 / div;
        if whole >= 10 || frac == 0 {
            decimal(if frac >= 5 { whole + 1 } else { whole }).push(unit_letter(u))
        } else {
            (decimal(whole).push(0x2E) + decimal(frac)).push(unit_letter(u))
        }
    }
}

/// A byte count.
pub struct HumanSize(pub u64);

/// Wraps a byte count for showing.
pub fn human_size(bytes: u64) -> (r: HumanSize)
    ensures
        r.0 == bytes,
{
    HumanSize(bytes)
}

impl HumanSize {
    /// The count as text.
    pub fn to_string(&self) -> (r: String)
        ensures
            r@ == ascii_chars(human_text(self.0)),
    {
        let n = self.0;
        let mut bytes = n;
        let mut unit: u64 = 0;
        let mut div: u64 = 1;
        while bytes >= 1024 && unit < 6
            invariant
                unit <= 6,
                div as nat == unit_div(unit as nat),
                bytes as nat == n as nat / div as nat,
                unit > 0 ==> n >= div,
            decreases 6 - unit,
        {
            proof {
                vstd::arithmetic::div_mod::lemma_div_denominator(n as int, div as int, 1024);
                assert(bytes >= 1024 ==> n as nat >= div as nat * 1024) by (nonlinear_arith)
                    requires bytes as nat == n as nat / div as nat, div > 0;
            }
            bytes = bytes / 1024;
            unit = unit + 1;
            div = div * 1024;
        }
        proof {
            assert(bytes < 1024 ==> n < div as nat * 1024) by (nonlinear_arith)
                requires bytes as nat == n as nat / div as nat, div > 0;
            assert(unit as nat == size_unit(n));
        }
        let mut out: Vec<u8> = Vec::new();
        if unit == 0 {
            push_decimal(&mut out, bytes);
        } else {
            let mut whole = n / div;
            let rest = n % div;
            assert(rest * 10 < 0x1_0000_0000_0000_0000) by (nonlinear_arith)
                requires rest < div, div <= 0x1000_0000_0000_0000;
            let frac = rest * 10 / div;
            let letter: u8 = if unit == 1 {
                0x4B
            } else if unit == 2 {
                0x4D
            } else if unit == 3 {
                0x47
            } else if unit == 4 {
                0x54
            } else if unit == 5 {
                0x50
            } else {
                0x45
            };
            if whole >= 10 || frac == 0 {
                if frac >= 5 {
                    whole += 1;
                }
                push_decimal(&mut out, whole);
                out.push(letter);
            } else {
                push_decimal(&mut out, whole);
                out.push(0x2E);
                push_decimal(&mut out, frac);
                out.push(letter);
            }
        }
        proof {
            assert(out@ =~= human_text(n));
            lemma_decimal_ascii(n as nat / div as nat);
            lemma_decimal_ascii(n as nat / div as nat + 1);
            lemma_decimal_ascii((n as nat % div as nat) * 10 / div as nat);
            lemma_decimal_ascii(n as nat);
        }
        ascii_to_string(out)
    }
}

} // verus!
