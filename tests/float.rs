use fp_num::float::{DecodeError, MAX_FRACTION_DIGITS, SIGNIFICAND_BITS};
use fp_num::table::pow2_decimal;
use fp_num::{reverse_from_nth_bit, set_nth_bit, get_nth_bit, Float};

#[test]
fn test_is_valid() {
    assert_eq!(Float::is_valid("0.02"), true);
    assert_eq!(Float::is_valid("3300"), true);
    assert_eq!(Float::is_valid("0.034.0"), false);
}

#[test]
fn test_count_digits() {
    assert_eq!(Float::count_digits("0.12"), (2, 12));
    assert_eq!(Float::count_digits("0.000012"), (6, 12));
    assert_eq!(Float::count_digits("0.0150"), (4, 150));
    assert_eq!(Float::count_digits("0.1234"), (4, 1234));
    assert_eq!(Float::count_digits("0.00010001"), (8, 10001));
    assert_eq!(Float::count_digits("0.25"), (2, 25));
    assert_eq!(Float::count_digits("0.0625"), (4, 625));
}

#[test]
fn test_set_nth_bit() {
    assert_eq!(set_nth_bit(4, 1, true), 6);
    assert_eq!(set_nth_bit(8, 2, true), 12)
}

#[test]
fn test_to_binary_repl() {
    let f = Float::new("0.111111111").unwrap();
    println!("res: {:?}", f.print_decimal())
}

#[test]
fn get_index_part() {
    let index = Float::new("0.5").map(|f| f.get_exponent_part()).unwrap();
    assert_eq!(index, 1)
}

#[test]
fn test_get_significand_part() {
    let f = Float::new("0.5").unwrap();
    let sig = f.get_significand_part();
    assert_eq!(sig, 1);
    let f = Float::new("0.25").unwrap();
    let sig = f.get_significand_part();
    assert_eq!(sig, 1);
    let f = Float::new("0.75").unwrap();
    let sig = f.get_significand_part();
    assert_eq!(sig, 3);
    let f = Float::new("0.625").unwrap();
    let sig = f.get_significand_part();
    assert_eq!(sig, 5)
}

#[test]
fn print_decimal() {
    println!("print decimal");
    let f = Float::new("0.5").unwrap();
    assert_eq!(f.print_decimal(), Ok("0.5".to_string()));
    let f = Float::new("0.75").unwrap();
    assert_eq!(f.print_decimal(), Ok("0.75".to_string()));
    let f = Float::new("0.625").unwrap();
    assert_eq!(f.print_decimal(), Ok("0.625".to_string()));
    let f = Float::new("0.25").unwrap();
    assert_eq!(f.print_decimal(), Ok("0.25".to_string()));
    let f = Float::new("0.03125").unwrap();
    assert_eq!(f.print_decimal(), Ok("0.03125".to_string()));
}

#[test]
fn test_reverse_from_nth_bit() {
    assert_eq!(reverse_from_nth_bit(313, 6), 39);
    assert_eq!(reverse_from_nth_bit(3, 2), 3);
}

#[test]
fn packed_words_of_exact_fractions() {
    // exponent above the significand, no hidden bit
    assert_eq!(Float::new("0.5").unwrap().0, (1 << 23) | 1);
    assert_eq!(Float::new("0.75").unwrap().0, (2 << 23) | 3);
    assert_eq!(Float::to_binary_repl(3, 625), (3 << 23) | 5);
    assert_eq!(Float::to_binary_repl(2, 25), (2 << 23) | 1);
}

#[test]
fn exponent_and_significand_of_known_values() {
    let f = Float::new("0.625").unwrap();
    assert_eq!(f.get_exponent_part(), 3);
    assert_eq!(f.get_significand_part(), 5);
    let f = Float::new("0.25").unwrap();
    assert_eq!(f.get_exponent_part(), 2);
    let f = Float::new("0.75").unwrap();
    assert_eq!(f.get_exponent_part(), 2);
}

#[test]
fn round_trip_of_exact_binary_fractions() {
    for s in ["0.5", "0.75", "0.625", "0.25", "0.03125", "0.0625", "0.875", "0.001953125"] {
        assert_eq!(Float::new(s).unwrap().print_decimal(), Ok(s.to_string()));
    }
}

#[test]
fn non_terminating_fraction_is_truncated() {
    let f = Float::new("0.1").unwrap();
    assert_eq!(f.get_exponent_part(), SIGNIFICAND_BITS);
    assert_eq!(f.get_significand_part(), 838860);
    let s = f.print_decimal().unwrap();
    assert_ne!(s, "0.1");
    assert_eq!(s, "0.09999990463256835937500");
}

#[test]
fn zero_fraction_uses_exponent_one() {
    let f = Float::new("0.0").unwrap();
    assert_eq!(f.0, 1 << 23);
    assert_eq!(f.print_decimal(), Ok("0.0".to_string()));
    assert_eq!(Float::to_binary_repl(0, 0), 1 << 23);
}

#[test]
fn empty_fraction_reads_as_zero() {
    assert_eq!(Float::new("0.").map(|f| f.0), Some(1 << 23));
    assert_eq!(Float::new(".").map(|f| f.0), Some(1 << 23));
    assert!(Float::new("").is_none());
}

#[test]
fn validation_rejects_malformed_input() {
    assert!(!Float::is_valid("0.0a"));
    assert!(!Float::is_valid("-0.5"));
    assert!(!Float::is_valid("0..5"));
    assert!(!Float::is_valid("0.\u{0663}"));
    assert!(Float::is_valid(""));
    assert!(Float::is_valid(".5"));
}

#[test]
fn new_refuses_what_it_cannot_pack() {
    assert!(Float::new("0.034.0").is_none());
    assert!(Float::new("3300").is_none());
    assert!(Float::new("0.5x").is_none());
    assert!(Float::new("0.1234567890").is_none());
    assert!(Float::new("0.123456789").is_some());
    assert_eq!(MAX_FRACTION_DIGITS, 9);
}

#[test]
fn integer_part_is_ignored() {
    assert_eq!(Float::new("3.5").unwrap().0, Float::new("0.5").unwrap().0);
    assert_eq!(Float::count_digits(".25"), (2, 25));
    assert_eq!(Float::count_digits("x-1.25"), (2, 25));
    assert_eq!(Float::count_digits("0."), (0, 0));
}

#[test]
fn decode_rejects_out_of_range_exponents() {
    assert_eq!(Float(0).print_decimal(), Err(DecodeError::UnsupportedExponent));
    assert_eq!(Float(5).print_decimal(), Err(DecodeError::UnsupportedExponent));
    assert_eq!(Float(24 << 23).print_decimal(), Err(DecodeError::UnsupportedExponent));
    assert_eq!(Float(0xFF << 23).print_decimal(), Err(DecodeError::UnsupportedExponent));
    // the sign bit is ignored when reading the exponent
    assert_eq!(Float((1 << 31) | (1 << 23) | 1).print_decimal(), Ok("0.5".to_string()));
    assert_eq!(Float(23 << 23).print_decimal(), Ok("0.00000000000000000000000".to_string()));
}

#[test]
fn decode_of_wide_significand_is_not_truncated() {
    // significand 7 at exponent 1: 35 has more digits than the width
    assert_eq!(Float((1 << 23) | 7).print_decimal(), Ok("0.35".to_string()));
}

#[test]
fn power_of_two_table_entries() {
    assert_eq!(pow2_decimal(1), Some((5, 1)));
    assert_eq!(pow2_decimal(4), Some((625, 4)));
    assert_eq!(pow2_decimal(23), Some((11920928955078125, 23)));
    assert_eq!(pow2_decimal(0), None);
    assert_eq!(pow2_decimal(24), None);
}

#[test]
fn bit_access() {
    assert_eq!(set_nth_bit(6, 1, false), 4);
    assert_eq!(set_nth_bit(6, 1, true), 6);
    assert_eq!(set_nth_bit(0, 31, true), 1 << 31);
    assert!(get_nth_bit(12, 2));
    assert!(!get_nth_bit(12, 0));
    assert!(get_nth_bit(1 << 31, 31));
}

#[test]
fn reversal_twice_is_identity() {
    for n in 1..=23u32 {
        for x in [0u32, 1, 5, 39, 313, (1 << n) - 1] {
            let x = x & ((1u32 << n) - 1);
            assert_eq!(reverse_from_nth_bit(reverse_from_nth_bit(x, n), n), x);
        }
    }
    assert_eq!(reverse_from_nth_bit(0b1011, 4), 0b1101);
    assert_eq!(reverse_from_nth_bit(0xFF, 4), 0b1111);
    assert_eq!(reverse_from_nth_bit(0b10, 5), 0b01000);
}
