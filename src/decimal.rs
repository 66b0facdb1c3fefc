//! Decimal digit strings: their values, and rendering integers as digits.
use vstd::prelude::*;

verus! {

pub open spec fn is_digit(c: char) -> bool {
    '0' <= c && c <= '9'
}

pub open spec fn digit_value(c: char) -> nat {
    (c as nat - '0' as nat) as nat
}

/// The value of a string of decimal digits, most significant first.
pub open spec fn digits_value(s: Seq<char>) -> nat
    decreases s.len(),
{
    if s.len() == 0 {
        0
    } else {
        10 * digits_value(s.drop_last()) + digit_value(s.last())
    }
}

pub open spec fn count_dots(s: Seq<char>) -> nat
    decreases s.len(),
{
    if s.len() == 0 {
        0
    } else {
        count_dots(s.drop_last()) + if s.last() == '.' { 1nat } else { 0 }
    }
}

/// Only ASCII digits and at most one `.`.
pub open spec fn valid_decimal(s: Seq<char>) -> bool {
    &&& forall|i: int| 0 <= i < s.len() ==> is_digit(#[trigger] s[i]) || s[i] == '.'
    &&& count_dots(s) <= 1
}

/// Index of the last `.` of `s`, or -1 when there is none.
pub open spec fn last_dot(s: Seq<char>) -> int
    decreases s.len(),
{
    if s.len() == 0 {
        -1
    } else if s.last() == '.' {
        s.len() - 1
    } else {
        last_dot(s.drop_last())
    }
}

/// The digits after the point.
pub open spec fn fraction_of(s: Seq<char>) -> Seq<char> {
    s.skip(last_dot(s) + 1)
}

pub proof fn lemma_last_dot_range(s: Seq<char>)
    ensures
        -1 <= last_dot(s) < s.len(),
        last_dot(s) >= 0 ==> s[last_dot(s)] == '.',
        forall|j: int| last_dot(s) < j < s.len() ==> s[j] != '.',
    decreases s.len(),
{
    if s.len() > 0 && s.last() != '.' {
        let t = s.drop_last();
        lemma_last_dot_range(t);
        assert forall|j: int| last_dot(s) < j < s.len() implies s[j] != '.' by {
            if j < t.len() {
                assert(s[j] == t[j]);
            }
        }
    }
}

pub proof fn lemma_digits_value_bound(s: Seq<char>)
    requires
        forall|i: int| 0 <= i < s.len() ==> is_digit(#[trigger] s[i]),
    ensures
        digits_value(s) < pow10(s.len()),
    decreases s.len(),
{
    if s.len() > 0 {
        let t = s.drop_last();
        assert(forall|i: int| 0 <= i < t.len() ==> is_digit(#[trigger] t[i])) by {
            assert(forall|i: int| 0 <= i < t.len() ==> t[i] == s[i]);
        }
        lemma_digits_value_bound(t);
        assert(is_digit(s[s.len() - 1]));
    }
}

pub open spec fn pow10(n: nat) -> nat
    decreases n,
{
    if n == 0 {
        1
    } else {
        10 * pow10((n - 1) as nat)
    }
}

pub proof fn lemma_pow10_pos(n: nat)
    ensures
        pow10(n) > 0,
    decreases n,
{
    if n > 0 {
        lemma_pow10_pos((n - 1) as nat);
    }
}

pub proof fn lemma_pow10_monotonic(a: nat, b: nat)
    requires
        a <= b,
    ensures
        pow10(a) <= pow10(b),
    decreases b,
{
    if a < b {
        lemma_pow10_monotonic(a, (b - 1) as nat);
        lemma_pow10_pos((b - 1) as nat);
    }
}

pub proof fn lemma_pow10_9()
    ensures
        pow10(9) == 1_000_000_000,
{
    reveal_with_fuel(pow10, 10);
}

pub open spec fn digit_char(d: nat) -> char {
    if d == 0 { '0' }
    else if d == 1 { '1' }
    else if d == 2 { '2' }
    else if d == 3 { '3' }
    else if d == 4 { '4' }
    else if d == 5 { '5' }
    else if d == 6 { '6' }
    else if d == 7 { '7' }
    else if d == 8 { '8' }
    else { '9' }
}

/// The decimal digits of `n`, left-padded with zeros to at least `width`
/// characters; at least one digit.
pub open spec fn padded_decimal(n: nat, width: nat) -> Seq<char>
    decreases width, n,
{
    if n < 10 && width <= 1 {
        seq![digit_char(n)]
    } else {
        padded_decimal(n / 10, if width > 0 { (width - 1) as nat } else { 0 }).push(
            digit_char(n % 10),
        )
    }
}

proof fn lemma_digit_char_of_value(c: char)
    requires
        is_digit(c),
    ensures
        digit_value(c) < 10,
        digit_char(digit_value(c)) == c,
{
}

/// A digit string with no surplus leading digits is its own padded
/// rendering.
pub proof fn lemma_padded_of_digits(f: Seq<char>)
    requires
        f.len() >= 1,
        forall|i: int| 0 <= i < f.len() ==> is_digit(#[trigger] f[i]),
    ensures
        padded_decimal(digits_value(f), f.len()) == f,
    decreases f.len(),
{
    let t = f.drop_last();
    lemma_digit_char_of_value(f.last());
    let d = digit_value(f.last());
    let n = digits_value(f);
    assert(n == 10 * digits_value(t) + d);
    assert(n / 10 == digits_value(t) && n % 10 == d) by {
        vstd::arithmetic::div_mod::lemma_fundamental_div_mod_converse(
            n as int,
            10,
            digits_value(t) as int,
            d as int,
        );
    }
    if f.len() == 1 {
        assert(t.len() == 0);
        assert(f =~= seq![f.last()]);
    } else {
        assert(forall|i: int| 0 <= i < t.len() ==> is_digit(#[trigger] t[i])) by {
            assert(forall|i: int| 0 <= i < t.len() ==> t[i] == f[i]);
        }
        lemma_padded_of_digits(t);
        assert(f =~= t.push(f.last()));
    }
}

/// Dots after a dot-free tail are those of the head.
pub proof fn lemma_dots_of_concat(p: Seq<char>, f: Seq<char>)
    requires
        forall|i: int| 0 <= i < f.len() ==> f[i] != '.',
    ensures
        count_dots(p + f) == count_dots(p),
        last_dot(p + f) == last_dot(p),
    decreases f.len(),
{
    if f.len() == 0 {
        assert(p + f =~= p);
    } else {
        let t = f.drop_last();
        assert(forall|i: int| 0 <= i < t.len() ==> t[i] != '.') by {
            assert(forall|i: int| 0 <= i < t.len() ==> t[i] == f[i]);
        }
        lemma_dots_of_concat(p, t);
        assert((p + f).drop_last() =~= p + t);
        assert((p + f).last() == f.last());
    }
}

fn digit_str(d: u128) -> (r: &'static str)
    requires
        d < 10,
    ensures
        r@ == seq![digit_char(d as nat)],
{
    proof {
        reveal_strlit("0");
        reveal_strlit("1");
        reveal_strlit("2");
        reveal_strlit("3");
        reveal_strlit("4");
        reveal_strlit("5");
        reveal_strlit("6");
        reveal_strlit("7");
        reveal_strlit("8");
        reveal_strlit("9");
    }
    match d {
        0 => "0",
        1 => "1",
        2 => "2",
        3 => "3",
        4 => "4",
        5 => "5",
        6 => "6",
        7 => "7",
        8 => "8",
        _ => "9",
    }
}

/// Renders `n` in decimal, left-padded with zeros to `width` characters.
pub fn decimal_string(n: u128, width: u32) -> (r: String)
    ensures
        r@ == padded_decimal(n as nat, width as nat),
{
    let mut res = String::new();
    let mut m = n;
    let mut w = width;
    loop
        invariant_except_break
            padded_decimal(n as nat, width as nat) == padded_decimal(m as nat, w as nat) + res@,
        ensures
            padded_decimal(n as nat, width as nat) == res@,
        decreases w, m,
    {
        if m < 10 && w <= 1 {
            let mut t = String::from_str(digit_str(m));
            t.append(res.as_str());
            res = t;
            break;
        }
        let mut t = String::from_str(digit_str(m % 10));
        t.append(res.as_str());
        proof {
            let w2: nat = if w > 0 { (w - 1) as nat } else { 0 };
            assert(padded_decimal(m as nat, w as nat) == padded_decimal((m / 10) as nat, w2).push(
                digit_char((m % 10) as nat),
            ));
            assert(padded_decimal((m / 10) as nat, w2).push(digit_char((m % 10) as nat)) + res@
                =~= padded_decimal((m / 10) as nat, w2) + t@);
        }
        res = t;
        m = m / 10;
        if w > 0 {
            w = w - 1;
        }
    }
    res
}

/// `10^dig` as a word, for digit counts whose power fits in 32 bits.
pub fn pow10_u32(dig: u32) -> (r: u32)
    requires
        dig <= 9,
    ensures
        r as nat == pow10(dig as nat),
{
    let mut r: u32 = 1;
    let mut i: u32 = 0;
    while i < dig
        invariant
            i <= dig <= 9,
            r as nat == pow10(i as nat),
        decreases dig - i,
    {
        proof {
            lemma_pow10_monotonic((i + 1) as nat, 9);
            lemma_pow10_9();
        }
        r = r * 10;
        i = i + 1;
    }
    r
}

} // verus!
