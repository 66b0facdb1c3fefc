//! The packed word, its encoder from decimal strings and its decoder.
use crate::bits::{
    lemma_reversed_bits_bound, lemma_reversed_bits_push, reverse_from_nth_bit, reversed_bits,
    set_nth_bit,
};
use crate::table::{pow2_decimal, pow5, MAX_TABLE_EXPONENT};
use crate::decimal::{decimal_string, padded_decimal, 
    count_dots, digits_value, fraction_of, is_digit, last_dot, lemma_digits_value_bound,
    lemma_last_dot_range, lemma_pow10_pos, pow10, pow10_u32, valid_decimal,
};
use vstd::arithmetic::div_mod::{lemma_fundamental_div_mod, lemma_fundamental_div_mod_converse};
use vstd::arithmetic::power2::{lemma2_to64, lemma_pow2_pos, lemma_pow2_unfold, pow2};
use vstd::prelude::*;

verus! {

/// Width of the significand field, and the most fraction bits the encoder
/// produces.
pub const SIGNIFICAND_BITS: u32 = 23;

/// Most digits after the point that an input may have: their value, and
/// `10^digits`, must fit in 32 bits.
pub const MAX_FRACTION_DIGITS: u32 = 9;

/// The word that `Float::new` packs a string into, or `None` when it refuses
/// the string.
pub open spec fn encoded_input(s: Seq<char>) -> Option<nat> {
    let f = fraction_of(s);
    if valid_decimal(s) && last_dot(s) >= 0 && f.len() <= MAX_FRACTION_DIGITS {
        Some(encoded_word(digits_value(f), pow10(f.len())))
    } else {
        None
    }
}

/// Why a word cannot be rendered as a decimal.
#[derive(Debug, Clone, Copy, PartialEq, Eq, Structural)]
pub enum DecodeError {
    /// The exponent field lies outside `1..=23`, where no power of two has
    /// a table entry.
    UnsupportedExponent,
}

/// The exponent field: bits 30..23.
pub open spec fn exponent_of(w: u32) -> nat {
    (w as nat % 0x8000_0000) / 0x80_0000
}

/// The significand field: bits 22..0, as an integer.
pub open spec fn significand_of(w: u32) -> nat {
    w as nat % 0x80_0000
}

/// The decimal string a word decodes to: `"0."` and the exact expansion of
/// `significand * 2^-exponent`, which has `exponent` digits after the point
/// whenever the significand is below `2^exponent`.
pub open spec fn decoded(w: u32) -> Result<Seq<char>, DecodeError> {
    let e = exponent_of(w);
    if 1 <= e <= MAX_TABLE_EXPONENT {
        Ok(seq!['0', '.'] + padded_decimal(pow5(e) * significand_of(w), e))
    } else {
        Err(DecodeError::UnsupportedExponent)
    }
}

/// A decimal fraction packed like an IEEE-754 single: bit 31 is the sign
/// (always clear), bits 30..23 the exponent and bits 22..0 the significand.
///
/// The decoder reads the significand as a plain integer `m` and the word as
/// the value `m * 2^-exponent`; there is no hidden leading bit.
pub struct Float(pub u32);

/// Bits `k` places after the binary point: the integer part of
/// `num / edge * 2^k`.
pub open spec fn fraction_prefix(num: nat, edge: nat, k: nat) -> nat {
    (num * pow2(k)) / edge
}

/// What is left of `num / edge` once its first `k` bits are taken off,
/// scaled by `edge`.
pub open spec fn fraction_rest(num: nat, edge: nat, k: nat) -> nat {
    (num * pow2(k)) % edge
}

/// The first `k` from `from` on at which the binary expansion of
/// `num / edge` has ended, or the significand width if it goes on.
pub open spec fn exact_len_from(num: nat, edge: nat, from: nat) -> nat
    decreases SIGNIFICAND_BITS - from,
{
    if from >= SIGNIFICAND_BITS || fraction_rest(num, edge, from) == 0 {
        from
    } else {
        exact_len_from(num, edge, from + 1)
    }
}

/// The exponent the encoder gives `num / edge`: the number of fraction bits
/// it keeps.
pub open spec fn encoded_exponent(num: nat, edge: nat) -> nat {
    exact_len_from(num, edge, 1)
}

/// The packed word of `num / edge`: its exponent above its first
/// `exponent` fraction bits, read as an integer.
pub open spec fn encoded_word(num: nat, edge: nat) -> nat {
    let e = encoded_exponent(num, edge);
    e * pow2(23) + fraction_prefix(num, edge, e)
}

pub proof fn lemma_exact_len_range(num: nat, edge: nat, from: nat)
    requires
        from <= SIGNIFICAND_BITS,
    ensures
        from <= exact_len_from(num, edge, from) <= SIGNIFICAND_BITS,
    decreases SIGNIFICAND_BITS - from,
{
    if !(from >= SIGNIFICAND_BITS || fraction_rest(num, edge, from) == 0) {
        lemma_exact_len_range(num, edge, from + 1);
    }
}

/// One doubling step of the expansion: the next bit is 1 exactly when twice
/// the rest reaches `edge`.
proof fn lemma_double_step(num: nat, edge: nat, k: nat)
    requires
        edge > 0,
    ensures
        ({
            let r = fraction_rest(num, edge, k);
            let b: nat = if 2 * r >= edge { 1 } else { 0 };
            &&& fraction_prefix(num, edge, k + 1) == 2 * fraction_prefix(num, edge, k) + b
            &&& fraction_rest(num, edge, k + 1) == 2 * r - b * edge
        }),
{
    let x = num * pow2(k);
    let v = fraction_prefix(num, edge, k);
    let r = fraction_rest(num, edge, k);
    let b: nat = if 2 * r >= edge { 1 } else { 0 };
    lemma_pow2_unfold(k + 1);
    assert(num * pow2(k + 1) == 2 * x) by (nonlinear_arith)
        requires
            x == num * pow2(k),
            pow2(k + 1) == 2 * pow2(k),
    ;
    lemma_fundamental_div_mod(x as int, edge as int);
    vstd::arithmetic::div_mod::lemma_mod_pos_bound(x as int, edge as int);
    assert(0 <= 2 * r - b * edge < edge);
    assert(2 * x == (2 * v + b) * edge + (2 * r - b * edge)) by (nonlinear_arith)
        requires
            x == edge * v + r,
            b == 0 || b == 1,
    ;
    lemma_fundamental_div_mod_converse(
        (2 * x) as int,
        edge as int,
        (2 * v + b) as int,
        (2 * r - b * edge) as int,
    );
}

/// Index of the last `.` of `s`.
fn find_dot(s: &str) -> (r: Option<usize>)
    ensures
        r matches Some(p) ==> p as int == last_dot(s@),
        r is None ==> last_dot(s@) == -1,
{
    let n = s.unicode_len();
    let mut found: Option<usize> = None;
    for i in 0..n
        invariant
            n == s@.len(),
            found matches Some(p) ==> p as int == last_dot(s@.take(i as int)),
            found is None ==> last_dot(s@.take(i as int)) == -1,
    {
        proof {
            assert(s@.take(i + 1).drop_last() =~= s@.take(i as int));
        }
        if s.get_char(i) == '.' {
            found = Some(i);
        }
    }
    proof {
        assert(s@.take(n as int) =~= s@);
    }
    found
}

impl Float {
    /// Packs a decimal string such as `"0.625"`. Returns `None` when the
    /// string holds anything but ASCII digits and one `.`, has no `.`, or
    /// has more than `MAX_FRACTION_DIGITS` digits after it. No digit after
    /// the point reads as zero. Only the digits
    /// after the point are read.
    pub fn new(input: &str) -> (r: Option<Float>)
        ensures
            match r {
                Some(f) => encoded_input(input@) == Some(f.0 as nat),
                None => encoded_input(input@) is None,
            },
    {
        if !Float::is_valid(input) {
            return None;
        }
        let dot = find_dot(input);
        proof {
            lemma_last_dot_range(input@);
        }
        match dot {
            None => None,
            Some(p) => {
                let len = input.unicode_len();
                if len - p - 1 > MAX_FRACTION_DIGITS as usize {
                    return None;
                }
                proof {
                    let f = fraction_of(input@);
                    assert forall|j: int| 0 <= j < f.len() implies is_digit(#[trigger] f[j]) by {
                        assert(f[j] == input@[p + 1 + j]);
                    }
                    lemma_digits_value_bound(f);
                }
                let (dig, num) = Float::count_digits(input);
                let f = Float::to_binary_repl(dig, num);
                Some(Float(f))
            },
        }
    }

    /// Splits off the digits after the point: their count and their value,
    /// as in `"0.0234"` to `(4, 234)`.
    pub fn count_digits(s: &str) -> (r: (u32, u32))
        requires
            last_dot(s@) >= 0,
            forall|j: int| 0 <= j < fraction_of(s@).len() ==> is_digit(#[trigger] fraction_of(s@)[j]),
            fraction_of(s@).len() <= MAX_FRACTION_DIGITS,
        ensures
            r.0 as nat == fraction_of(s@).len(),
            r.1 as nat == digits_value(fraction_of(s@)),
    {
        let ghost f = fraction_of(s@);
        proof {
            lemma_last_dot_range(s@);
        }
        let n = s.unicode_len();
        let start = match find_dot(s) {
            Some(p) => p + 1,
            None => 0,
        };
        proof {
            lemma_digits_value_bound(f);
            crate::decimal::lemma_pow10_monotonic(f.len(), 9);
            crate::decimal::lemma_pow10_9();
        }
        let mut sum: u32 = 0;
        let mut i: usize = start;
        while i < n
            invariant
                start <= i <= n,
                n == s@.len(),
                f == s@.skip(start as int),
                f.len() <= 9,
                forall|j: int| 0 <= j < f.len() ==> is_digit(#[trigger] f[j]),
                sum as nat == digits_value(f.take(i - start)),
                pow10(f.len()) <= 1_000_000_000,
            decreases n - i,
        {
            let c = s.get_char(i);
            let ghost k = (i - start) as int;
            proof {
                assert(f.take(k + 1).drop_last() =~= f.take(k));
                assert(c == f[k]);
                let t = f.take(k + 1);
                assert(forall|j: int| 0 <= j < t.len() ==> is_digit(#[trigger] t[j])) by {
                    assert(forall|j: int| 0 <= j < t.len() ==> t[j] == f[j]);
                }
                lemma_digits_value_bound(t);
                crate::decimal::lemma_pow10_monotonic((k + 1) as nat, f.len());
            }
            let d = (c as u32) - ('0' as u32);
            sum = sum * 10 + d;
            i = i + 1;
        }
        proof {
            assert(f.take(f.len() as int) =~= f);
        }
        ((n - start) as u32, sum)
    }

    /// Renders the word as an exact decimal string, such as `"0.625"`.
    pub fn print_decimal(&self) -> (r: Result<String, DecodeError>)
        ensures
            match r {
                Ok(s) => decoded(self.0) == Ok::<Seq<char>, DecodeError>(s@),
                Err(e) => decoded(self.0) == Err::<Seq<char>, DecodeError>(e),
            },
    {
        let index = self.get_exponent_part();
        match pow2_decimal(index) {
            None => Err(DecodeError::UnsupportedExponent),
            Some((numerator, width)) => {
                let sig = self.get_significand_part();
                proof {
                    reveal_with_fuel(pow5, 24);
                    assert(pow5(23) == 11920928955078125);
                    crate::table::lemma_pow5_monotonic(index as nat, 23);
                    assert(numerator * sig <= 11920928955078125 * 0x80_0000) by (nonlinear_arith)
                        requires
                            numerator <= 11920928955078125,
                            sig < 0x80_0000,
                    ;
                }
                let num = numerator * sig;
                let digits = decimal_string(num, width);
                let mut res = String::from_str("0.");
                res.append(digits.as_str());
                proof {
                    reveal_strlit("0.");
                    assert(numerator as nat == pow5(index as nat));
                    assert(res@ =~= seq!['0', '.'] + padded_decimal(
                        pow5(exponent_of(self.0)) * significand_of(self.0),
                        exponent_of(self.0),
                    ));
                }
                Ok(res)
            },
        }
    }

    /// The exponent field, bits 30..23.
    pub fn get_exponent_part(&self) -> (r: u32)
        ensures
            r as nat == exponent_of(self.0),
    {
        let w = self.0;
        assert(((w & 0x7FFF_FFFFu32) >> 23u32) == (w % 0x8000_0000) / 0x80_0000) by (bit_vector);
        (w & 0x7FFF_FFFF) >> 23
    }

    /// The significand field, bits 22..0.
    pub fn get_significand_part(&self) -> (r: u128)
        ensures
            r as nat == significand_of(self.0),
    {
        let w = self.0;
        assert((0x7F_FFFFu128 & (w as u128)) == (w % 0x80_0000) as u128) by (bit_vector);
        0x7F_FFFF & w as u128
    }

    /// Whether `s` holds only ASCII digits and at most one `.`.
    pub fn is_valid(s: &str) -> (r: bool)
        ensures
            r == valid_decimal(s@),
    {
        let n = s.unicode_len();
        let mut num_dot: usize = 0;
        for i in 0..n
            invariant
                n == s@.len(),
                num_dot as nat == count_dots(s@.take(i as int)),
                num_dot <= i,
                forall|j: int| 0 <= j < i ==> is_digit(#[trigger] s@[j]) || s@[j] == '.',
        {
            let c = s.get_char(i);
            proof {
                assert(s@.take(i + 1).drop_last() =~= s@.take(i as int));
            }
            if c == '.' {
                num_dot += 1;
            } else if !('0' <= c && c <= '9') {
                return false;
            }
        }
        proof {
            assert(s@.take(n as int) =~= s@);
        }
        num_dot <= 1
    }

    /// Packs the fraction `num / 10^dig` by repeated doubling: each step
    /// yields one more bit after the binary point, until the expansion ends
    /// or the significand is full. The bits are stored first-bit-highest and
    /// the exponent records how many were kept.
    pub fn to_binary_repl(dig: u32, num: u32) -> (r: u32)
        requires
            dig <= 9,
            num < pow10(dig as nat),
        ensures
            r as nat == encoded_word(num as nat, pow10(dig as nat)),
    {
        let edge_num = pow10_u32(dig);
        let ghost edge = edge_num as nat;
        let mut res: u32 = 0;
        // position of the bit being produced, counted from the binary point
        let mut cur_dig: u32 = 0;
        let mut cur_num = num;
        proof {
            lemma2_to64();
            lemma_pow10_pos(dig as nat);
            crate::decimal::lemma_pow10_9();
            crate::decimal::lemma_pow10_monotonic(dig as nat, 9);
            lemma_fundamental_div_mod(num as int, edge as int);
            vstd::arithmetic::div_mod::lemma_small_mod(num as nat, edge);
            vstd::arithmetic::div_mod::lemma_basic_div(num as int, edge as int);
            assert(num * pow2(0) == num) by (nonlinear_arith)
                requires
                    pow2(0) == 1,
            ;
            assert(reversed_bits(0, 0) == 0);
        }
        loop
            invariant_except_break
                cur_dig < SIGNIFICAND_BITS,
                cur_num as nat == fraction_rest(num as nat, edge, cur_dig as nat),
                res < pow2(cur_dig as nat),
                reversed_bits(res as nat, cur_dig as nat) == fraction_prefix(
                    num as nat,
                    edge,
                    cur_dig as nat,
                ),
                encoded_exponent(num as nat, edge) == exact_len_from(
                    num as nat,
                    edge,
                    cur_dig as nat + 1,
                ),
            invariant
                edge == edge_num as nat,
                edge == pow10(dig as nat),
                0 < edge <= 1_000_000_000,
                num < edge,
            ensures
                cur_dig < SIGNIFICAND_BITS,
                res < pow2(cur_dig as nat + 1),
                reversed_bits(res as nat, cur_dig as nat + 1) == fraction_prefix(
                    num as nat,
                    edge,
                    cur_dig as nat + 1,
                ),
                encoded_exponent(num as nat, edge) == cur_dig + 1,
            decreases SIGNIFICAND_BITS - cur_dig,
        {
            let ghost i = cur_dig as nat;
            proof {
                lemma_double_step(num as nat, edge, i);
                vstd::arithmetic::div_mod::lemma_mod_bound(
                    (num * pow2(i)) as int,
                    edge as int,
                );
                lemma_pow2_unfold(i + 1);
                lemma_pow2_pos(i);
            }
            let ghost r0 = cur_num as nat;
            assert(r0 == fraction_rest(num as nat, edge, i));
            cur_num = cur_num * 2;
            let ghost before = res as nat;
            assert(cur_num == 2 * r0);
            let bit = cur_num >= edge_num;
            if bit {
                proof {
                    vstd::bits::lemma_u32_pow2_no_overflow(i);
                    assert(before / pow2(i) == 0) by {
                        vstd::arithmetic::div_mod::lemma_basic_div(before as int, pow2(i) as int);
                    }
                }
                res = set_nth_bit(res, cur_dig, true);
                cur_num = cur_num - edge_num;
            }
            proof {
                let b: nat = if bit { 1 } else { 0 };
                let r = fraction_rest(num as nat, edge, i);
                assert(bit == (2 * r >= edge));
                assert(fraction_rest(num as nat, edge, i + 1) == 2 * r - b * edge);
                assert(fraction_prefix(num as nat, edge, i + 1) == 2 * fraction_prefix(num as nat, edge, i) + b);
                assert(res as nat == before + b * pow2(i));
                lemma_reversed_bits_push(before, b, i);
                assert(cur_num as nat == fraction_rest(num as nat, edge, i + 1));
                assert(reversed_bits(res as nat, i + 1) == fraction_prefix(num as nat, edge, i + 1));
                assert(res < pow2(i + 1));
            }
            if cur_num == 0 {
                break;
            }
            if cur_dig == SIGNIFICAND_BITS - 1 {
                break;
            }
            cur_dig = cur_dig + 1;
        }
        let e: u32 = cur_dig + 1;
        let ghost forward = res as nat;
        res = reverse_from_nth_bit(res, e);
        proof {
            lemma_exact_len_range(num as nat, edge, 1);
            lemma_reversed_bits_bound(forward, e as nat);
            if e < 23 {
                vstd::arithmetic::power2::lemma_pow2_strictly_increases(e as nat, 23);
            }
            assert(res < 0x800000u32);
            assert(e <= 23);
            assert((res | (e << 23u32)) == res + e * 0x800000u32) by (bit_vector)
                requires
                    res < 0x800000u32,
                    e <= 23,
            ;
        }
        // the sign bit stays clear: only positive values are packed
        res | (e << 23)
    }
}

} // verus!
