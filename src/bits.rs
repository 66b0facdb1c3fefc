//! Single-bit access and reversal of the low bits of a word.
use vstd::arithmetic::div_mod::{
    lemma_div_denominator, lemma_fundamental_div_mod, lemma_mod_multiples_basic,
};
use vstd::arithmetic::power2::{lemma2_to64, lemma_pow2_adds, lemma_pow2_pos, lemma_pow2_unfold, pow2};
use vstd::bits::{lemma_u32_pow2_no_overflow, lemma_u32_shl_is_mul, lemma_u32_shr_is_div};
use vstd::prelude::*;

verus! {

/// Bit `i` (counted from the least significant bit) of `x`.
pub open spec fn bit_of(x: nat, i: nat) -> bool {
    (x / pow2(i)) % 2 == 1
}

/// `x` with bit `n` cleared, then set again when `b` holds.
pub open spec fn with_bit(x: nat, n: nat, b: bool) -> nat {
    (x - (if bit_of(x, n) { pow2(n) } else { 0 }) + (if b { pow2(n) } else { 0 })) as nat
}

proof fn lemma_shift_facts(num: u32, n: u32)
    requires
        n < 32,
    ensures
        (1u32 << n) == pow2(n as nat),
        (num >> n) == num as nat / pow2(n as nat),
        ((num >> n) & 1u32) == (num >> n) % 2,
{
    lemma_u32_pow2_no_overflow(n as nat);
    lemma_pow2_pos(n as nat);
    lemma_u32_shl_is_mul(1u32, n);
    lemma_u32_shr_is_div(num, n);
    let s = num >> n;
    assert((s & 1u32) == s % 2) by (bit_vector);
}

/// Sets bit `n` of `num` to `b`, leaving every other bit as it was.
pub fn set_nth_bit(num: u32, n: u32, b: bool) -> (r: u32)
    requires
        n < 32,
    ensures
        r as nat == with_bit(num as nat, n as nat, b),
{
    proof {
        lemma_shift_facts(num, n);
        assert(((num >> n) & 1u32) == 1u32 ==> ((1u32 << n) | num) == num) by (bit_vector)
            requires
                n < 32,
        ;
        assert(((num >> n) & 1u32) == 0u32 ==> ((1u32 << n) | num) == num + (1u32 << n))
            by (bit_vector)
            requires
                n < 32,
        ;
        assert(((num >> n) & 1u32) == 1u32 ==> (!(1u32 << n) & num) == num - (1u32 << n))
            by (bit_vector)
            requires
                n < 32,
        ;
        assert(((num >> n) & 1u32) == 0u32 ==> (!(1u32 << n) & num) == num) by (bit_vector)
            requires
                n < 32,
        ;
        assert(((num >> n) & 1u32) == 0u32 || ((num >> n) & 1u32) == 1u32) by (bit_vector);
    }
    if b {
        return 1 << n | num;
    }
    !(1 << n) & num
}

/// Reads bit `n` of `num`.
pub fn get_nth_bit(num: u32, n: u32) -> (r: bool)
    requires
        n < 32,
    ensures
        r == bit_of(num as nat, n as nat),
{
    proof {
        lemma_shift_facts(num, n);
        assert(((1u32 << n) & num == 0u32) == ((num >> n) & 1u32 == 0u32)) by (bit_vector)
            requires
                n < 32,
        ;
        assert(((num >> n) & 1u32) == 0u32 || ((num >> n) & 1u32) == 1u32) by (bit_vector);
    }
    if 1 << n & num == 0 {
        return false;
    }
    true
}

/// The `n` lowest bits of `x` in the opposite order: bit `i` moves to bit
/// `n - 1 - i`, and bits at or above `n` are dropped.
pub open spec fn reversed_bits(x: nat, n: nat) -> nat
    decreases n,
{
    if n == 0 {
        0
    } else {
        (x % 2) * pow2((n - 1) as nat) + reversed_bits(x / 2, (n - 1) as nat)
    }
}

pub proof fn lemma_reversed_bits_bound(x: nat, n: nat)
    ensures
        reversed_bits(x, n) < pow2(n),
    decreases n,
{
    lemma_pow2_pos(n);
    if n > 0 {
        let n1 = (n - 1) as nat;
        lemma_reversed_bits_bound(x / 2, n1);
        lemma_pow2_unfold(n);
        assert((x % 2) * pow2(n1) <= pow2(n1)) by (nonlinear_arith)
            requires
                x % 2 < 2,
        ;
    }
}

/// Placing one more bit `b` just above the `k` low bits of `y` prepends `b`
/// to the reversed sequence.
pub proof fn lemma_reversed_bits_push(y: nat, b: nat, k: nat)
    requires
        y < pow2(k),
        b < 2,
    ensures
        reversed_bits(y + b * pow2(k), k + 1) == 2 * reversed_bits(y, k) + b,
    decreases k,
{
    lemma_pow2_pos(k);
    if k == 0 {
        lemma2_to64();
        assert(y == 0);
        assert(b * pow2(k) == b);
        assert(b % 2 == b);
        assert(reversed_bits(b, 1) == (b % 2) * pow2(0) + reversed_bits(b / 2, 0));
    } else {
        let k1 = (k - 1) as nat;
        lemma_pow2_unfold(k);
        let x = y + b * pow2(k);
        assert(b * pow2(k) == 2 * (b * pow2(k1))) by (nonlinear_arith)
            requires
                pow2(k) == 2 * pow2(k1),
        ;
        lemma_fundamental_div_mod(y as int, 2);
        vstd::arithmetic::div_mod::lemma_fundamental_div_mod_converse(
            x as int,
            2,
            (y / 2 + b * pow2(k1)) as int,
            (y % 2) as int,
        );
        assert(y / 2 < pow2(k1)) by {
            lemma_fundamental_div_mod(y as int, 2);
        }
        lemma_reversed_bits_push(y / 2, b, k1);
        assert((y % 2) * pow2(k) == 2 * ((y % 2) * pow2(k1))) by (nonlinear_arith)
            requires
                pow2(k) == 2 * pow2(k1),
        ;
        assert(reversed_bits(x, k + 1) == (x % 2) * pow2(k) + reversed_bits(x / 2, k));
        assert(reversed_bits(y, k) == (y % 2) * pow2(k1) + reversed_bits(y / 2, k1));
    }
}

/// Reversing the low `n` bits twice gives back any value that fits in `n` bits.
pub proof fn lemma_reverse_involutive(x: nat, n: nat)
    requires
        x < pow2(n),
    ensures
        reversed_bits(reversed_bits(x, n), n) == x,
    decreases n,
{
    if n == 0 {
        lemma2_to64();
    } else {
        let n1 = (n - 1) as nat;
        lemma_pow2_unfold(n);
        lemma_fundamental_div_mod(x as int, 2);
        assert(x / 2 < pow2(n1));
        lemma_reverse_involutive(x / 2, n1);
        lemma_reversed_bits_bound(x / 2, n1);
        let y = reversed_bits(x / 2, n1);
        lemma_reversed_bits_push(y, x % 2, n1);
        assert(reversed_bits(x, n) == y + (x % 2) * pow2(n1));
    }
}

/// The low `bit` bits of `target`, reversed into a fresh word: bit 0 swaps
/// with bit `bit - 1`, and so on.
pub fn reverse_from_nth_bit(target: u32, bit: u32) -> (r: u32)
    requires
        bit <= 32,
    ensures
        r as nat == reversed_bits(target as nat, bit as nat),
{
    let mut res: u32 = 0;
    proof {
        lemma2_to64();
    }
    for i in 0..bit
        invariant
            bit <= 32,
            res + reversed_bits(target as nat / pow2(i as nat), (bit - i) as nat)
                == reversed_bits(target as nat, bit as nat),
            res as nat % pow2((bit - i) as nat) == 0,
    {
        let p: u32 = bit - i - 1;
        let b = get_nth_bit(target, i);
        proof {
            let t = target as nat / pow2(i as nat);
            lemma_pow2_unfold((p + 1) as nat);
            lemma_pow2_pos(p as nat);
            lemma_pow2_pos(i as nat);
            // bit `p` of `res` is clear: `res` is a multiple of `2 * 2^p`
            let c = res as nat / pow2((p + 1) as nat);
            lemma_fundamental_div_mod(res as int, pow2((p + 1) as nat) as int);
            assert(res == c * pow2((p + 1) as nat));
            assert(res == (2 * c) * pow2(p as nat)) by (nonlinear_arith)
                requires
                    res == c * pow2((p + 1) as nat),
                    pow2((p + 1) as nat) == 2 * pow2(p as nat),
            ;
            vstd::arithmetic::div_mod::lemma_div_by_multiple((2 * c) as int, pow2(p as nat) as int);
            assert(!bit_of(res as nat, p as nat));
            // the next bit of `target` in reading order
            lemma_div_denominator(target as int, pow2(i as nat) as int, 2);
            lemma_pow2_adds(i as nat, 1);
            lemma2_to64();
            assert(t / 2 == target as nat / pow2((i + 1) as nat));
            assert(b == (t % 2 == 1));
            lemma_reversed_bits_bound(t / 2, p as nat);
            let nr = (2 * c + (if b { 1nat } else { 0 })) * pow2(p as nat);
            assert(nr == res + (if b { pow2(p as nat) } else { 0 })) by (nonlinear_arith)
                requires
                    res == (2 * c) * pow2(p as nat),
                    nr == (2 * c + (if b { 1nat } else { 0 })) * pow2(p as nat),
            ;
            lemma_mod_multiples_basic((2 * c + (if b { 1nat } else { 0 })) as int, pow2(p as nat) as int);
            lemma_reversed_bits_bound(target as nat, bit as nat);
            lemma_u32_pow2_no_overflow(p as nat);
            if b {
                assert(t % 2 == 1);
            } else {
                assert(t % 2 == 0);
            }
            assert((t % 2) * pow2(p as nat) == if b { pow2(p as nat) } else { 0 });
        }
        res = set_nth_bit(res, p, b);
    }
    proof {
        lemma2_to64();
    }
    res
}

} // verus!
