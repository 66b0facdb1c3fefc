//! Exact decimal expansions of negative powers of two.
use vstd::prelude::*;

verus! {

pub open spec fn pow5(n: nat) -> nat
    decreases n,
{
    if n == 0 {
        1
    } else {
        5 * pow5((n - 1) as nat)
    }
}

pub proof fn lemma_pow5_monotonic(a: nat, b: nat)
    requires
        a <= b,
    ensures
        pow5(a) <= pow5(b),
    decreases b,
{
    if a < b {
        lemma_pow5_monotonic(a, (b - 1) as nat);
    }
}

/// Largest exponent the table covers: one per significand bit.
pub const MAX_TABLE_EXPONENT: u32 = 23;

/// `2^-e` written as `numerator / 10^digits`. Since `2^-e = 5^e / 10^e`,
/// entry `e` is `(5^e, e)`; exponents outside `1..=23` have no entry.
pub fn pow2_decimal(e: u32) -> (r: Option<(u128, u32)>)
    ensures
        1 <= e <= MAX_TABLE_EXPONENT ==> r == Some((pow5(e as nat) as u128, e)),
        !(1 <= e <= MAX_TABLE_EXPONENT) ==> r is None,
{
    proof {
        reveal_with_fuel(pow5, 24);
    }
    match e {
        1 => Some((5, 1)),
        2 => Some((25, 2)),
        3 => Some((125, 3)),
        4 => Some((625, 4)),
        5 => Some((3125, 5)),
        6 => Some((15625, 6)),
        7 => Some((78125, 7)),
        8 => Some((390625, 8)),
        9 => Some((1953125, 9)),
        10 => Some((9765625, 10)),
        11 => Some((48828125, 11)),
        12 => Some((244140625, 12)),
        13 => Some((1220703125, 13)),
        14 => Some((6103515625, 14)),
        15 => Some((30517578125, 15)),
        16 => Some((152587890625, 16)),
        17 => Some((762939453125, 17)),
        18 => Some((3814697265625, 18)),
        19 => Some((19073486328125, 19)),
        20 => Some((95367431640625, 20)),
        21 => Some((476837158203125, 21)),
        22 => Some((2384185791015625, 22)),
        23 => Some((11920928955078125, 23)),
        _ => None,
    }
}

} // verus!
