//! A count of bytes in the largest unit that leaves at least one.

use vstd::prelude::*;

verus! {

/// The decimal digit for a value below ten.
pub open spec fn digit(value: nat) -> char {
    if value == 0 {
        '0'
    } else if value == 1 {
        '1'
    } else if value == 2 {
        '2'
    } else if value == 3 {
        '3'
    } else if value == 4 {
        '4'
    } else if value == 5 {
        '5'
    } else if value == 6 {
        '6'
    } else if value == 7 {
        '7'
    } else if value == 8 {
        '8'
    } else {
        '9'
    }
}

/// `value` in decimal digits, without leading zeros.
pub open spec fn decimal(value: nat) -> Seq<char>
    decreases value,
{
    if value < 10 {
        seq![digit(value)]
    } else {
        decimal(value / 10).push(digit(value % 10))
    }
}

/// The name of the unit of 1024 to the power `unit` bytes.
pub open spec fn unit_name(unit: nat) -> Seq<char> {
    if unit == 0 {
        "B"@
    } else if unit == 1 {
        "KB"@
    } else if unit == 2 {
        "MB"@
    } else if unit == 3 {
        "GB"@
    } else {
        "TB"@
    }
}

/// A count of `bytes` in unit number `unit`, divided by 1024 and rounded
/// down for as long as it is 1024 or more and a larger unit exists: the
/// count that is left, and the unit that it is in.
pub open spec fn scaled(bytes: nat, unit: nat) -> (nat, nat)
    decreases 4 - unit,
{
    if bytes >= 1024 && unit < 4 {
        scaled(bytes / 1024, unit + 1)
    } else {
        (bytes, unit)
    }
}

/// `value` in decimal, followed by `unit`, as `format!` writes an integer
/// and a string with `{}`: the integer in decimal digits without sign,
/// padding or leading zeros, the string as it is.
#[verifier::external_body]
fn render(value: usize, unit: &str) -> (text: String)
    ensures
        text@ == decimal(value as nat) + unit@,
{
    format!("{}{}", value, unit)
}

/// A count of bytes for display: divided by 1024 and rounded down until it
/// is below 1024 or the unit is TB, then written in decimal with the unit
/// behind it, as in `512B`, `1KB` or `2048TB`.
pub fn format_bytes(bytes: usize) -> (text: String)
    ensures
        text@ == decimal(scaled(bytes as nat, 0).0) + unit_name(scaled(bytes as nat, 0).1),
{
    let mut count: usize = bytes;
    let mut unit: usize = 0;
    while count >= 1024 && unit < 4
        invariant
            unit <= 4,
            scaled(count as nat, unit as nat) == scaled(bytes as nat, 0),
        decreases 4 - unit,
    {
        count = count / 1024;
        unit = unit + 1;
    }
    let name = if unit == 0 {
        "B"
    } else if unit == 1 {
        "KB"
    } else if unit == 2 {
        "MB"
    } else if unit == 3 {
        "GB"
    } else {
        "TB"
    };
    render(count, name)
}

} // verus!
