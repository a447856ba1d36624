use base_converter::convert::{
    convert_any_binary_base, convert_digits, permited_number, render_digits, ConvertError,
};
use base_converter::symbols::digit_to_char;

fn ok(s: &str) -> Result<String, ConvertError> {
    Ok(s.to_string())
}

#[test]
fn binary_to_octal_pads_the_leading_group() {
    assert_eq!(convert_any_binary_base(1111, 2, 8), ok("17"));
}

#[test]
fn decimal_source_base_is_refused() {
    assert_eq!(
        convert_any_binary_base(8, 10, 2),
        Err(ConvertError::InvalidBase)
    );
}

#[test]
fn octal_to_hex() {
    assert_eq!(convert_any_binary_base(1234, 8, 16), ok("29C"));
}

#[test]
fn octal_to_base_32() {
    assert_eq!(convert_any_binary_base(1234, 8, 32), ok("0KS"));
}

#[test]
fn base_32_to_binary() {
    assert_eq!(convert_any_binary_base(31, 32, 2), ok("0001100001"));
}

#[test]
fn hex_digit_to_binary_keeps_its_width() {
    assert_eq!(convert_any_binary_base(8, 16, 2), ok("1000"));
    assert_eq!(convert_any_binary_base(87, 16, 2), ok("10000111"));
}

#[test]
fn quaternary_to_hex() {
    assert_eq!(convert_any_binary_base(3210, 4, 16), ok("E4"));
}

#[test]
fn zero_is_a_single_zero_when_fields_widen() {
    let bases = [2i64, 4, 8, 16, 32];
    for &b1 in bases.iter() {
        for &b2 in bases.iter() {
            if b1 <= b2 {
                assert_eq!(convert_any_binary_base(0, b1, b2), ok("0"));
            }
        }
    }
}

#[test]
fn zero_keeps_its_field_when_fields_narrow() {
    assert_eq!(convert_any_binary_base(0, 16, 2), ok("0000"));
    assert_eq!(convert_any_binary_base(0, 32, 4), ok("000"));
}

#[test]
fn same_base_gives_the_digits_back() {
    assert_eq!(convert_any_binary_base(1011, 2, 2), ok("1011"));
    assert_eq!(convert_any_binary_base(755, 8, 8), ok("755"));
    assert_eq!(convert_any_binary_base(9, 16, 16), ok("9"));
    assert_eq!(convert_any_binary_base(3012, 4, 4), ok("3012"));
}

#[test]
fn largest_number_in_the_same_base() {
    assert_eq!(
        convert_any_binary_base(i64::MAX, 16, 16),
        ok("9223372036854775807")
    );
    assert_eq!(
        convert_any_binary_base(i64::MAX, 32, 32),
        ok("9223372036854775807")
    );
}

#[test]
fn results_are_non_empty_symbols() {
    let sources = [2i64, 4, 8, 16, 32, 64, 1 << 20, 1 << 62];
    let bases = [2i64, 4, 8, 16, 32];
    let numbers = [0i64, 1, 7, 10, 77, 1234, 98765, i64::MAX];
    for &n in numbers.iter() {
        for &b1 in sources.iter() {
            if !permited_number(n, b1) {
                continue;
            }
            for &b2 in bases.iter() {
                let s = convert_any_binary_base(n, b1, b2).unwrap();
                assert!(!s.is_empty());
                assert!(s
                    .chars()
                    .all(|c| c.is_ascii_digit() || c.is_ascii_uppercase()));
            }
        }
    }
}

#[test]
fn negative_number_is_refused() {
    assert_eq!(
        convert_any_binary_base(-1, 2, 8),
        Err(ConvertError::NegativeNumber)
    );
    assert_eq!(
        convert_any_binary_base(i64::MIN, 16, 2),
        Err(ConvertError::NegativeNumber)
    );
}

#[test]
fn digit_not_below_source_base_is_refused() {
    assert_eq!(
        convert_any_binary_base(12, 2, 8),
        Err(ConvertError::InvalidDigit)
    );
    assert_eq!(
        convert_any_binary_base(87, 8, 2),
        Err(ConvertError::InvalidDigit)
    );
}

#[test]
fn unsupported_bases_are_refused() {
    for &(b1, b2) in [(1i64, 2i64), (2, 1), (0, 8), (8, -8), (3, 9), (12, 16), (6, 2), (2, i64::MAX), (i64::MIN, 2)].iter() {
        assert_eq!(
            convert_any_binary_base(1, b1, b2),
            Err(ConvertError::InvalidBase)
        );
    }
}

#[test]
fn base_is_checked_before_sign_and_digits() {
    assert_eq!(
        convert_any_binary_base(-9, 10, 2),
        Err(ConvertError::InvalidBase)
    );
    assert_eq!(
        convert_any_binary_base(-9, 2, 2),
        Err(ConvertError::NegativeNumber)
    );
}

#[test]
fn permitted_digits() {
    assert!(!permited_number(87, 8));
    assert!(permited_number(77, 8));
    assert!(permited_number(123, 4));
    assert!(!permited_number(1234, 4));
    assert!(permited_number(0, 2));
    assert!(!permited_number(2, 2));
    assert!(permited_number(-123, 4));
    assert!(!permited_number(-5, 4));
    assert!(!permited_number(0, 0));
    assert!(!permited_number(1, -3));
    assert!(permited_number(i64::MIN, 10));
    assert!(!permited_number(i64::MIN, 9));
}

#[test]
fn round_trip_through_octal() {
    let there = convert_digits(&vec![1, 1, 1, 1], 2, 8);
    assert_eq!(there, vec![1, 7]);
    let back = convert_digits(&there, 8, 2);
    assert_eq!(back, vec![0, 0, 1, 1, 1, 1]);
}

#[test]
fn round_trip_through_base_32() {
    let digits = vec![3, 0, 1, 2];
    let there = convert_digits(&digits, 4, 32);
    assert_eq!(there, vec![6, 6]);
    let back = convert_digits(&there, 32, 4);
    assert_eq!(back, vec![0, 3, 0, 1, 2]);
}

#[test]
fn empty_digits_convert_to_nothing() {
    assert_eq!(convert_digits(&vec![], 2, 16), Vec::<u64>::new());
}

#[test]
fn symbols_of_digit_values() {
    assert_eq!(digit_to_char(0), '0');
    assert_eq!(digit_to_char(9), '9');
    assert_eq!(digit_to_char(10), 'A');
    assert_eq!(digit_to_char(31), 'V');
    assert_eq!(digit_to_char(35), 'Z');
}

#[test]
fn rendering_appends_each_symbol() {
    assert_eq!(render_digits(&vec![1, 10, 31]), "1AV".to_string());
    assert_eq!(render_digits(&vec![]), String::new());
}

#[test]
fn wide_source_base_to_binary() {
    assert_eq!(convert_any_binary_base(1, 64, 2), ok("000001"));
    let mut expected = "0".repeat(59);
    expected.push_str("111");
    assert_eq!(convert_any_binary_base(7, 1 << 62, 2), ok(&expected));
}

#[test]
fn zero_into_a_wide_destination_base() {
    assert_eq!(convert_any_binary_base(0, 2, 64), ok("0"));
    assert_eq!(convert_any_binary_base(0, 2, 1 << 62), ok("0"));
}

#[test]
fn same_wide_base_gives_the_digits_back() {
    assert_eq!(convert_any_binary_base(1, 64, 64), ok("1"));
    assert_eq!(convert_any_binary_base(98765, 1 << 40, 1 << 40), ok("98765"));
}

#[test]
fn wide_destination_base_with_small_digits() {
    assert_eq!(convert_any_binary_base(12, 16, 64), ok("0I"));
    assert_eq!(convert_any_binary_base(5, 8, 1 << 62), ok("5"));
}

#[test]
fn destination_digit_without_symbol_is_refused() {
    assert_eq!(
        convert_any_binary_base(99, 16, 256),
        Err(ConvertError::NoSymbol)
    );
    assert_eq!(
        convert_any_binary_base(11, 2, 64),
        Ok("3".to_string())
    );
    assert_eq!(
        convert_any_binary_base(111111, 2, 64),
        Err(ConvertError::NoSymbol)
    );
}

#[test]
fn wide_digits_regroup_and_back() {
    let there = convert_digits(&vec![9, 8], 1 << 10, 1 << 20);
    assert_eq!(there, vec![9 * 1024 + 8]);
    let back = convert_digits(&there, 1 << 20, 1 << 10);
    assert_eq!(back, vec![9, 8]);
}

#[test]
fn round_trip_through_the_decimal_reading() {
    let there = convert_any_binary_base(1111, 2, 8).unwrap();
    assert_eq!(there, "17");
    let m: i64 = there.parse().unwrap();
    assert_eq!(convert_any_binary_base(m, 8, 2), ok("001111"));
    let there = convert_any_binary_base(3012, 4, 8).unwrap();
    assert_eq!(there, "306");
    let m: i64 = there.parse().unwrap();
    assert_eq!(convert_any_binary_base(m, 8, 4), ok("03012"));
}
