//! Sizes for people to read.

use vstd::prelude::*;

use crate::text;

verus! {

/// The unit a number of bytes is shown in: its size, and its name. The
/// largest of the binary units that the number fills.
pub open spec fn unit_for(bytes: nat) -> (nat, Seq<char>) {
    if bytes < 0x400 {
        (1, "B"@)
    } else if bytes < 0x10_0000 {
        (0x400, "KiB"@)
    } else if bytes < 0x4000_0000 {
        (0x10_0000, "MiB"@)
    } else if bytes < 0x100_0000_0000 {
        (0x4000_0000, "GiB"@)
    } else if bytes < 0x4_0000_0000_0000 {
        (0x100_0000_0000, "TiB"@)
    } else if bytes < 0x1000_0000_0000_0000 {
        (0x4_0000_0000_0000, "PiB"@)
    } else {
        (0x1000_0000_0000_0000, "EiB"@)
    }
}

/// A number of bytes as it is shown: in binary units, with one decimal
/// below ten of a unit larger than a byte, rounded down.
pub open spec fn shown_bytes(bytes: nat) -> Seq<char> {
    let (unit, name) = unit_for(bytes);
    let whole = bytes / unit;
    let tenths = (bytes % unit) * 10 / unit;
    text::decimal(whole) + (if unit > 1 && whole < 10 {
        seq!['.', text::digit(tenths)]
    } else {
        seq![]
    }) + " "@ + name
}

/// A number of bytes for people to read.
pub fn human_bytes(bytes: u64) -> (r: String)
    ensures
        r@ == shown_bytes(bytes as nat),
{
    let unit: u64;
    let name: &'static str;
    if bytes < 0x400 {
        unit = 1;
        name = "B";
    } else if bytes < 0x10_0000 {
        unit = 0x400;
        name = "KiB";
    } else if bytes < 0x4000_0000 {
        unit = 0x10_0000;
        name = "MiB";
    } else if bytes < 0x100_0000_0000 {
        unit = 0x4000_0000;
        name = "GiB";
    } else if bytes < 0x4_0000_0000_0000 {
        unit = 0x100_0000_0000;
        name = "TiB";
    } else if bytes < 0x1000_0000_0000_0000 {
        unit = 0x4_0000_0000_0000;
        name = "PiB";
    } else {
        unit = 0x1000_0000_0000_0000;
        name = "EiB";
    }
    assert(unit_for(bytes as nat) == (unit as nat, name@));
    let whole: u64 = bytes / unit;
    let rest: u64 = bytes % unit;
    assert(rest < unit <= 0x1000_0000_0000_0000);
    let tenths: u64 = rest * 10 / unit;
    assert(tenths < 10) by (nonlinear_arith)
        requires
            rest < unit,
            tenths == (rest * 10) / unit as int,
    ;
    let mut out = String::new();
    text::push_decimal(&mut out, whole);
    if unit > 1 && whole < 10 {
        out.push('.');
        out.push((48 + tenths as u8) as char);
    }
    out.append(" ");
    out.append(name);
    assert(out@ =~= shown_bytes(bytes as nat));
    out
}

} // verus!
