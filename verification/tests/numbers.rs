use coindcx_scalper::double::Double;
use coindcx_scalper::natural::{at_most, scaled, shifted};
use coindcx_scalper::text::{decimal_text, scaled_decimal_text, two_digits_text};

fn check_parse(text: &str) {
    let expected = text.parse::<f64>().ok().map(|x| x.to_bits());
    let found = Double::parse(text).map(|x| x.bits);
    assert_eq!(found, expected, "{text}");
}

fn check_fixed(x: f64) {
    let number = Double { bits: x.to_bits() };
    assert_eq!(number.to_fixed(), format!("{:.2}", x), "{x:e}");
}

#[test]
fn ordinary_texts_are_read() {
    assert_eq!(Double::parse("65432.10"), Some(Double { bits: 65432.10f64.to_bits() }));
    assert_eq!(Double::parse("0.05"), Some(Double { bits: 0.05f64.to_bits() }));
    assert_eq!(Double::parse("-1.5e3"), Some(Double { bits: (-1500.0f64).to_bits() }));
    for text in [
        "0", "-0", "+0", "1", "+1", "-1", "1.", ".5", "-.5", "0.1", "0.2", "0.3", "3.14159",
        "100.00", "98765.4321", "1e5", "1E5", "1e+5", "1e-5", "1.5E-7", "123456789012345678901",
        "0000001.50000", "00.0e0", "1e0000000000000000000000001",
    ] {
        check_parse(text);
    }
}

#[test]
fn texts_that_are_no_numbers_are_refused() {
    assert_eq!(Double::parse(""), None);
    assert_eq!(Double::parse("abc"), None);
    for text in [
        "", "+", "-", ".", "-.", "e5", ".e5", "1e", "1e+", "1e-", "1e5.0", "1.2.3", " 1", "1 ",
        "1_000", "0x10", "--1", "+-1", "1e--5", "12a", "infin", "na", "inf1", "nan0", "\u{661}",
        "1\u{0}", "$1", "1,5",
    ] {
        check_parse(text);
    }
}

#[test]
fn words_are_read_in_either_case() {
    assert_eq!(Double::parse("inf"), Some(Double { bits: 0x7ff0_0000_0000_0000 }));
    for text in [
        "inf", "INF", "-Inf", "+inf", "infinity", "Infinity", "-INFINITY", "nan", "NaN", "-NAN",
        "+nan",
    ] {
        check_parse(text);
    }
}

#[test]
fn texts_are_rounded_to_the_nearest_number() {
    for text in [
        "9007199254740992", "9007199254740993", "9007199254740994", "9007199254740995",
        "9007199254740993.0000000000000000000000000000000000001", "1.7976931348623157e308",
        "1.7976931348623158e308", "1.7976931348623159e308", "1.797693134862315807e308",
        "1.7976931348623158079372897140530341507993413271e308", "1e309", "-1e309", "1e400",
        "1e99999999999999999999999999999999999999999", "0e99999999999999999999999999999999999999",
        "-1e-99999999999999999999999999999999999999999", "4.9406564584124654e-324",
        "2.4703282292062327e-324", "2.4703282292062328e-324", "2.2250738585072014e-308",
        "2.2250738585072011e-308", "2.225073858507201136057409796709131975934819546351645648e-308",
        "1e-400", "1e-323", "1e-324", "1e23", "8.5e22", "5e-324", "1e22", "1e-22",
        "179769313486231570000000000000000000000000000000000000000000000000000000000000000000000",
        "0.000000000000000000000000000000000000000000000000000000000000000000000000000000000001234",
    ] {
        check_parse(text);
    }
    let long = format!("0.{}1e405", "0".repeat(400));
    check_parse(&long);
    let exact_half = format!("{}.5", 1u64 << 52);
    check_parse(&exact_half);
    let odd_half = format!("{}.5", (1u64 << 52) + 1);
    check_parse(&odd_half);
}

#[test]
fn many_texts_are_read_as_the_standard_library_reads_them() {
    let mut seed: u64 = 0x9e37_79b9_7f4a_7c15;
    for _ in 0..400 {
        seed = seed.wrapping_mul(6364136223846793005).wrapping_add(1442695040888963407);
        let digits = seed >> 11;
        let exponent = (seed % 660) as i64 - 330;
        check_parse(&format!("{}e{}", digits, exponent));
        check_parse(&format!("{}.{:05}", digits % 100_000, seed % 100_000));
        let number = f64::from_bits(seed);
        if number.is_finite() {
            check_parse(&format!("{:e}", number));
        }
    }
}

#[test]
fn exact_texts_read_back() {
    assert_eq!(Double::parse("0e-1074"), Some(Double { bits: 0 }));
    assert_eq!(Double::parse("-0e-1074"), Some(Double { bits: 1 << 63 }));
    // The smallest number is 5^1074 * 10^-1074: the digits of the power, and the exponent.
    let mut power = vec![1u8];
    for _ in 0..1074 {
        let mut carry = 0;
        for digit in power.iter_mut() {
            let product = *digit * 5 + carry;
            *digit = product % 10;
            carry = product / 10;
        }
        if carry > 0 {
            power.push(carry);
        }
    }
    let text: String = power.iter().rev().map(|d| (b'0' + d) as char).collect();
    assert_eq!(Double::parse(&format!("{}e-1074", text)), Some(Double { bits: 1 }));
    assert_eq!(Double::parse(&format!("-{}e-1074", text)), Some(Double { bits: (1 << 63) + 1 }));
}

#[test]
fn prices_are_written_with_two_decimals() {
    let price = Double { bits: 65432.1f64.to_bits() };
    assert_eq!(price.to_fixed(), "65432.10");
    assert_eq!(Double { bits: 0 }.to_fixed(), "0.00");
    for x in [
        0.0, -0.0, 0.125, 0.375, 0.625, 0.875, -0.125, 0.005, 0.015, 0.025, 2.675, 1.005, 99.995,
        99.999, 0.004999, 0.0049999999999999999, 1e-300, 5e-324, 1.0, -1.5, 12345678.915, 1e15,
        4503599627370495.5, 4503599627370497.5, 9007199254740992.0, 1e16, 1e22, 1e23, 1e100,
        f64::MAX, f64::MIN, f64::MIN_POSITIVE, f64::INFINITY, f64::NEG_INFINITY, f64::NAN,
        -f64::NAN,
    ] {
        check_fixed(x);
    }
}

#[test]
fn many_numbers_are_written_as_the_standard_library_writes_them() {
    let mut seed: u64 = 1;
    for i in 0..2000u32 {
        seed = seed.wrapping_mul(6364136223846793005).wrapping_add(1442695040888963407);
        check_fixed(f64::from_bits(seed));
        check_fixed((seed >> 20) as f64 / 1000.0);
        check_fixed(i as f64 / 8.0);
    }
}

#[test]
fn whole_numbers_are_written_in_full() {
    assert_eq!(decimal_text(0), "0");
    assert_eq!(decimal_text(9), "9");
    assert_eq!(decimal_text(10), "10");
    assert_eq!(decimal_text(1_700_000_000_123), "1700000000123");
    assert_eq!(decimal_text(u128::MAX), u128::MAX.to_string());
    assert_eq!(two_digits_text(0), "00");
    assert_eq!(two_digits_text(7), "07");
    assert_eq!(two_digits_text(99), "99");
    assert_eq!(scaled_decimal_text(3, 0), "3");
    assert_eq!(scaled_decimal_text(3, 40), (3u128 << 40).to_string());
    assert_eq!(scaled_decimal_text(5, 120), (5u128 << 120).to_string());
}

#[test]
fn long_numbers_are_scaled_and_compared() {
    let max = vec![u64::MAX];
    assert_eq!(scaled(&max, 1, 1), vec![0, 1]);
    assert_eq!(scaled(&max, u64::MAX, u64::MAX), vec![0, u64::MAX]);
    assert_eq!(scaled(&vec![], 7, 5), vec![5]);
    let one = vec![1];
    assert!(at_most(&shifted(&one, 64), &vec![0, 1]));
    assert!(at_most(&vec![0, 1], &shifted(&one, 64)));
    assert!(at_most(&max, &vec![0, 1]));
    assert!(!at_most(&vec![0, 1], &max));
    assert!(at_most(&vec![3, 0, 0], &vec![3]));
    assert!(at_most(&vec![2, 5], &vec![3, 5]));
    assert!(!at_most(&vec![4, 5], &vec![3, 5]));
    assert!(at_most(&shifted(&one, 200), &shifted(&vec![2], 199)));
    assert!(!at_most(&scaled(&shifted(&one, 200), 1, 1), &shifted(&one, 200)));
}
