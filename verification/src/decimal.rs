//! Counts written out in decimal with thousands separators, as ASCII bytes.

use vstd::prelude::*;

verus! {

/// The ASCII digit for `d` in `0..10`.
pub open spec fn digit(d: nat) -> u8 {
    (48 + d) as u8
}

/// A number below 1000 in decimal, without leading zeros.
pub open spec fn small_decimal(n: nat) -> Seq<u8> {
    if n < 10 {
        seq![digit(n)]
    } else if n < 100 {
        seq![digit(n / 10), digit(n % 10)]
    } else {
        seq![digit(n / 100), digit(n / 10 % 10), digit(n % 10)]
    }
}

/// `n` in decimal, its digits in groups of three from the right with a comma
/// between groups.
pub open spec fn grouped(n: nat) -> Seq<u8>
    decreases n,
{
    if n < 1000 {
        small_decimal(n)
    } else {
        grouped(n / 1000) + seq![44u8] + seq![digit(n % 1000 / 100), digit(n % 100 / 10), digit(n % 10)]
    }
}

fn digit_byte(d: u128) -> (r: u8)
    requires
        d < 10,
    ensures
        r == digit(d as nat),
{
    48 + d as u8
}

/// `n` in decimal with thousands separators: `1234567` gives `1,234,567`.
pub fn with_thousands(n: u128) -> (r: Vec<u8>)
    ensures
        r@ == grouped(n as nat),
    decreases n,
{
    if n < 1000 {
        let mut v: Vec<u8> = Vec::new();
        if n >= 100 {
            v.push(digit_byte(n / 100));
        }
        if n >= 10 {
            v.push(digit_byte(n / 10 % 10));
        }
        v.push(digit_byte(n % 10));
        proof {
            assert(v@ =~= small_decimal(n as nat));
        }
        v
    } else {
        let mut v = with_thousands(n / 1000);
        let ghost head = v@;
        v.push(44u8);
        v.push(digit_byte(n % 1000 / 100));
        v.push(digit_byte(n % 100 / 10));
        v.push(digit_byte(n % 10));
        proof {
            assert(v@ =~= head + seq![44u8] + seq![
                digit((n % 1000 / 100) as nat),
                digit((n % 100 / 10) as nat),
                digit((n % 10) as nat),
            ]);
        }
        v
    }
}

} // verus!
