//! Properties that relate the encoder and the decoder.
use crate::decimal::{
    count_dots, digit_value, digits_value, fraction_of, is_digit, last_dot,
    lemma_digits_value_bound, lemma_dots_of_concat, lemma_last_dot_range, lemma_padded_of_digits,
    padded_decimal, pow10, valid_decimal,
};
use crate::float::{
    decoded, encoded_exponent, encoded_input, encoded_word, exact_len_from, exponent_of,
    fraction_prefix, fraction_rest, lemma_exact_len_range, significand_of, DecodeError,
    MAX_FRACTION_DIGITS, SIGNIFICAND_BITS,
};
use crate::table::pow5;
use vstd::arithmetic::div_mod::{lemma_fundamental_div_mod, lemma_fundamental_div_mod_converse};
use vstd::arithmetic::power2::{
    lemma2_to64, lemma_pow2_adds, lemma_pow2_pos, lemma_pow2_strictly_increases,
    lemma_pow2_unfold, pow2,
};
use vstd::prelude::*;

verus! {

proof fn lemma_pow10_split(k: nat)
    ensures
        pow10(k) == pow2(k) * pow5(k),
    decreases k,
{
    if k == 0 {
        lemma2_to64();
    } else {
        let k1 = (k - 1) as nat;
        lemma_pow10_split(k1);
        lemma_pow2_unfold(k);
        assert(10 * (pow2(k1) * pow5(k1)) == (2 * pow2(k1)) * (5 * pow5(k1))) by (nonlinear_arith);
    }
}

proof fn lemma_exact_len_at(num: nat, edge: nat, from: nat, k: nat)
    requires
        1 <= from <= k <= SIGNIFICAND_BITS,
        fraction_rest(num, edge, k) == 0,
        forall|j: nat| from <= j < k ==> fraction_rest(num, edge, j) != 0,
    ensures
        exact_len_from(num, edge, from) == k,
    decreases k - from,
{
    if from < k {
        lemma_exact_len_at(num, edge, from + 1, k);
    }
}

/// The fields of a word built from an exponent and a significand that fit.
proof fn lemma_word_fields(e: nat, m: nat)
    requires
        1 <= e <= SIGNIFICAND_BITS,
        m < pow2(23),
    ensures
        e * pow2(23) + m < 0x1_0000_0000,
        exponent_of((e * pow2(23) + m) as u32) == e,
        significand_of((e * pow2(23) + m) as u32) == m,
{
    lemma2_to64();
    let w = e * pow2(23) + m;
    assert(w < 24 * 0x80_0000) by (nonlinear_arith)
        requires
            e <= 23,
            m < 0x80_0000,
            w == e * 0x80_0000 + m,
    ;
    vstd::arithmetic::div_mod::lemma_small_mod(w, 0x8000_0000);
    lemma_fundamental_div_mod_converse(w as int, 0x80_0000, e as int, m as int);
}

/// A fraction with `k` decimal digits whose value is a multiple of `5^k` is
/// an exact binary fraction of `k` bits: the encoder stops after exactly `k`
/// bits, and the significand times `5^k` gives the digits back.
proof fn lemma_exact_fraction(f: Seq<char>)
    requires
        1 <= f.len() <= MAX_FRACTION_DIGITS,
        forall|i: int| 0 <= i < f.len() ==> is_digit(#[trigger] f[i]),
        f.last() != '0',
        digits_value(f) % pow5(f.len()) == 0,
    ensures
        ({
            let n = digits_value(f);
            let edge = pow10(f.len());
            &&& encoded_exponent(n, edge) == f.len()
            &&& fraction_prefix(n, edge, f.len()) < pow2(f.len())
            &&& pow5(f.len()) * fraction_prefix(n, edge, f.len()) == n
        }),
{
    let k = f.len();
    let n = digits_value(f);
    let edge = pow10(k);
    let five_pow = pow5(k);
    crate::table::lemma_pow5_monotonic(1, k);
    assert(pow5(1) == 5) by {
        reveal_with_fuel(pow5, 2);
    }
    lemma_fundamental_div_mod(n as int, five_pow as int);
    let m = n / five_pow;
    assert(n == five_pow * m);
    lemma_pow10_split(k);
    crate::decimal::lemma_pow10_pos(k);
    lemma_pow2_pos(k);
    // the expansion ends after `k` bits
    assert(n * pow2(k) == m * edge) by (nonlinear_arith)
        requires
            n == five_pow * m,
            edge == pow2(k) * five_pow,
    ;
    lemma_fundamental_div_mod_converse((n * pow2(k)) as int, edge as int, m as int, 0);
    // `n` is odd: its last digit is a nonzero multiple of 5
    let d = digit_value(f.last());
    let t = f.drop_last();
    assert(n == 10 * digits_value(t) + d);
    assert(is_digit(f[k - 1]));
    assert(d != 0 && d < 10);
    assert(n % 5 == 0) by {
        let q = pow5((k - 1) as nat) * m;
        assert(n == 5 * q) by (nonlinear_arith)
            requires
                n == five_pow * m,
                five_pow == 5 * pow5((k - 1) as nat),
                q == pow5((k - 1) as nat) * m,
        ;
    }
    assert(n % 2 == 1);
    // and so it does not end earlier
    assert forall|j: nat| 1 <= j < k implies fraction_rest(n, edge, j) != 0 by {
        if fraction_rest(n, edge, j) == 0 {
            let q = (n * pow2(j)) / edge;
            lemma_fundamental_div_mod((n * pow2(j)) as int, edge as int);
            lemma_pow2_adds((k - j) as nat, j);
            lemma_pow2_pos(j);
            let c = q * five_pow * pow2((k - j) as nat);
            assert(n * pow2(j) == c * pow2(j)) by (nonlinear_arith)
                requires
                    n * pow2(j) == edge * q,
                    edge == pow2(k) * five_pow,
                    pow2(k) == pow2((k - j) as nat) * pow2(j),
                    c == q * five_pow * pow2((k - j) as nat),
            ;
            assert(n == c) by (nonlinear_arith)
                requires
                    n * pow2(j) == c * pow2(j),
                    pow2(j) > 0,
            ;
            lemma_pow2_unfold((k - j) as nat);
            assert(c == 2 * (q * five_pow * pow2((k - j - 1) as nat))) by (nonlinear_arith)
                requires
                    c == q * five_pow * pow2((k - j) as nat),
                    pow2((k - j) as nat) == 2 * pow2((k - j - 1) as nat),
            ;
        }
    }
    lemma_exact_len_at(n, edge, 1, k);
    // the significand fits in `k` bits
    lemma_digits_value_bound(f);
    assert(m < pow2(k)) by (nonlinear_arith)
        requires
            n == five_pow * m,
            n < edge,
            edge == pow2(k) * five_pow,
            five_pow > 0,
    ;
}

/// Round trip: a decimal string `"0."` followed by digits, without trailing
/// zeros, whose value is an exact binary fraction (its digits, read as an
/// integer, are a multiple of `5^digits`), is packed and then decoded back
/// to the very same string.
pub proof fn lemma_round_trip(f: Seq<char>)
    requires
        1 <= f.len() <= MAX_FRACTION_DIGITS,
        forall|i: int| 0 <= i < f.len() ==> is_digit(#[trigger] f[i]),
        f.last() != '0',
        digits_value(f) % pow5(f.len()) == 0,
    ensures
        encoded_input(seq!['0', '.'] + f) matches Some(w) && w < 0x1_0000_0000 && decoded(
            w as u32,
        ) == Ok::<Seq<char>, DecodeError>(seq!['0', '.'] + f),
{
    let p = seq!['0', '.'];
    let s = p + f;
    let k = f.len();
    let n = digits_value(f);
    let edge = pow10(k);
    assert(forall|i: int| 0 <= i < f.len() ==> f[i] != '.');
    lemma_dots_of_concat(p, f);
    assert(count_dots(p) == 1 && last_dot(p) == 1) by {
        reveal_with_fuel(count_dots, 3);
        reveal_with_fuel(last_dot, 3);
        assert(p.drop_last() =~= seq!['0']);
        assert(p.drop_last().drop_last() =~= Seq::<char>::empty());
    }
    assert(valid_decimal(s)) by {
        assert forall|i: int| 0 <= i < s.len() implies is_digit(#[trigger] s[i]) || s[i] == '.' by {
            if i >= 2 {
                assert(s[i] == f[i - 2]);
            }
        }
    }
    assert(fraction_of(s) =~= f);
    lemma_exact_fraction(f);
    let m = fraction_prefix(n, edge, k);
    if k < 23 {
        lemma_pow2_strictly_increases(k, 23);
    }
    lemma_word_fields(k, m);
    lemma_padded_of_digits(f);
    assert(encoded_word(n, edge) == k * pow2(23) + m);
}

/// Every word that `Float::new` produces decodes: its exponent lies within
/// the table, and the digits are those of the input fraction cut after
/// `exponent` bits, that is `floor(value * 2^e) / 2^e`, which falls short of
/// the input where its binary expansion goes on past the significand.
pub proof fn lemma_encoded_decodes(s: Seq<char>)
    requires
        encoded_input(s) is Some,
    ensures
        ({
            let w = encoded_input(s)->0;
            let f = fraction_of(s);
            let n = digits_value(f);
            let edge = pow10(f.len());
            let e = encoded_exponent(n, edge);
            &&& 1 <= e <= SIGNIFICAND_BITS
            &&& w < 0x1_0000_0000
            &&& decoded(w as u32) == Ok::<Seq<char>, DecodeError>(
                seq!['0', '.'] + padded_decimal(pow5(e) * fraction_prefix(n, edge, e), e),
            )
        }),
{
    let f = fraction_of(s);
    let n = digits_value(f);
    let edge = pow10(f.len());
    let e = encoded_exponent(n, edge);
    lemma_last_dot_range(s);
    assert forall|j: int| 0 <= j < f.len() implies is_digit(#[trigger] f[j]) by {
        assert(f[j] == s[last_dot(s) + 1 + j]);
    }
    lemma_digits_value_bound(f);
    lemma_exact_len_range(n, edge, 1);
    lemma_pow2_pos(e);
    assert(n * pow2(e) < edge * pow2(e)) by (nonlinear_arith)
        requires
            n < edge,
            pow2(e) > 0,
    ;
    vstd::arithmetic::div_mod::lemma_multiply_divide_lt(
        (n * pow2(e)) as int,
        edge as int,
        pow2(e) as int,
    );
    if e < 23 {
        lemma_pow2_strictly_increases(e, 23);
    }
    lemma_word_fields(e, fraction_prefix(n, edge, e));
}

} // verus!
