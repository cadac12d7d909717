use std::num::IntErrorKind;
use wincap::number::{format_i64, parse_i64};
use wincap::NumberErrorKind;

fn chars(s: &str) -> Vec<char> {
    s.chars().collect()
}

fn std_parse(s: &str) -> Result<i64, NumberErrorKind> {
    match s.parse::<i64>() {
        Ok(n) => Ok(n),
        Err(e) => Err(match e.kind() {
            IntErrorKind::Empty => NumberErrorKind::Empty,
            IntErrorKind::InvalidDigit => NumberErrorKind::InvalidDigit,
            IntErrorKind::PosOverflow => NumberErrorKind::PosOverflow,
            IntErrorKind::NegOverflow => NumberErrorKind::NegOverflow,
            _ => unreachable!(),
        }),
    }
}

#[test]
fn parse_i64_reads_plain_numbers() {
    assert_eq!(parse_i64(&chars("0")), Ok(0));
    assert_eq!(parse_i64(&chars("7")), Ok(7));
    assert_eq!(parse_i64(&chars("3841")), Ok(3841));
    assert_eq!(parse_i64(&chars("-21")), Ok(-21));
    assert_eq!(parse_i64(&chars("+958")), Ok(958));
    assert_eq!(parse_i64(&chars("0001178")), Ok(1178));
    assert_eq!(parse_i64(&chars("-0")), Ok(0));
}

#[test]
fn parse_i64_reads_the_ends_of_the_range() {
    assert_eq!(parse_i64(&chars("9223372036854775807")), Ok(i64::MAX));
    assert_eq!(parse_i64(&chars("-9223372036854775808")), Ok(i64::MIN));
    assert_eq!(parse_i64(&chars("+0000009223372036854775807")), Ok(i64::MAX));
    assert_eq!(parse_i64(&chars("9223372036854775808")), Err(NumberErrorKind::PosOverflow));
    assert_eq!(parse_i64(&chars("-9223372036854775809")), Err(NumberErrorKind::NegOverflow));
    assert_eq!(parse_i64(&chars("92233720368547758070")), Err(NumberErrorKind::PosOverflow));
    assert_eq!(parse_i64(&chars("-92233720368547758080")), Err(NumberErrorKind::NegOverflow));
}

#[test]
fn parse_i64_names_each_failure() {
    assert_eq!(parse_i64(&chars("")), Err(NumberErrorKind::Empty));
    assert_eq!(parse_i64(&chars("+")), Err(NumberErrorKind::InvalidDigit));
    assert_eq!(parse_i64(&chars("-")), Err(NumberErrorKind::InvalidDigit));
    assert_eq!(parse_i64(&chars("12a")), Err(NumberErrorKind::InvalidDigit));
    assert_eq!(parse_i64(&chars(" 12")), Err(NumberErrorKind::InvalidDigit));
    assert_eq!(parse_i64(&chars("1_000")), Err(NumberErrorKind::InvalidDigit));
    assert_eq!(parse_i64(&chars("+-1")), Err(NumberErrorKind::InvalidDigit));
    assert_eq!(parse_i64(&chars("\u{0661}")), Err(NumberErrorKind::InvalidDigit));
    assert_eq!(parse_i64(&chars("99999999999999999999")), Err(NumberErrorKind::PosOverflow));
    assert_eq!(parse_i64(&chars("-99999999999999999999")), Err(NumberErrorKind::NegOverflow));
}

#[test]
fn parse_i64_reports_the_first_failure() {
    assert_eq!(parse_i64(&chars("99999999999999999999x")), Err(NumberErrorKind::PosOverflow));
    assert_eq!(parse_i64(&chars("9x9999999999999999999")), Err(NumberErrorKind::InvalidDigit));
    assert_eq!(parse_i64(&chars("-999999999999999999x")), Err(NumberErrorKind::InvalidDigit));
    assert_eq!(parse_i64(&chars("-9999999999999999999x")), Err(NumberErrorKind::NegOverflow));
    assert_eq!(parse_i64(&chars("922337203685477580x")), Err(NumberErrorKind::InvalidDigit));
}

#[test]
fn parse_i64_agrees_with_std() {
    let samples = [
        "", "+", "-", "0", "-0", "+0", "00", "1", "-1", "+1", "10", "0010", "12a", "a12", "1 2",
        " 1", "1 ", "--1", "+-1", "-+1", "1-", "1+", "0x10", "1e3", "1.0", "١٢٣", "１２", "9223372036854775806",
        "9223372036854775807", "9223372036854775808", "9223372036854775809",
        "-9223372036854775807", "-9223372036854775808", "-9223372036854775809",
        "18446744073709551615", "18446744073709551616", "99999999999999999999999999",
        "-99999999999999999999999999", "00000000000000000000000000000000001",
        "-00000000000000000000000000000000001", "99999999999999999999x", "999999999999999999x9",
        "9223372036854775807x", "9223372036854775808x", "-9223372036854775808x",
        "-9223372036854775809x", "922337203685477580\u{e9}", "92233720368547758070\u{e9}",
        "\u{e9}92233720368547758070", "3841", "21", "958", "1178",
    ];
    for s in samples.iter() {
        assert_eq!(parse_i64(&chars(s)), std_parse(s), "on {:?}", s);
    }
}

#[test]
fn parse_i64_agrees_with_std_on_short_texts() {
    let alphabet = ['0', '1', '9', '+', '-', ' ', 'a'];
    let mut texts: Vec<String> = vec![String::new()];
    let mut start = 0;
    for _ in 0..4 {
        let end = texts.len();
        for i in start..end {
            for c in alphabet.iter() {
                let mut t = texts[i].clone();
                t.push(*c);
                texts.push(t);
            }
        }
        start = end;
    }
    for t in texts.iter() {
        assert_eq!(parse_i64(&chars(t)), std_parse(t), "on {:?}", t);
    }
}

#[test]
fn format_i64_writes_decimal() {
    assert_eq!(format_i64(0), "0");
    assert_eq!(format_i64(5), "5");
    assert_eq!(format_i64(10), "10");
    assert_eq!(format_i64(-1), "-1");
    assert_eq!(format_i64(3841), "3841");
    assert_eq!(format_i64(-1920), "-1920");
    assert_eq!(format_i64(1000000), "1000000");
    assert_eq!(format_i64(i64::MAX), "9223372036854775807");
    assert_eq!(format_i64(i64::MIN), "-9223372036854775808");
}

#[test]
fn format_i64_agrees_with_std() {
    let mut n: i64 = 1;
    for _ in 0..63 {
        for d in [-1i64, 0, 1] {
            let v = n.wrapping_add(d);
            assert_eq!(format_i64(v), format!("{}", v));
            let w = v.wrapping_neg();
            assert_eq!(format_i64(w), format!("{}", w));
        }
        n = n.wrapping_mul(2);
    }
    for v in -1000i64..1000 {
        assert_eq!(format_i64(v), v.to_string());
    }
}

#[test]
fn written_numbers_read_back() {
    let values = [0i64, 1, -1, 9, 10, -10, 99, 100, 3841, -1920, i64::MAX, i64::MIN, i64::MAX - 1, i64::MIN + 1];
    for v in values.iter() {
        assert_eq!(parse_i64(&chars(&format_i64(*v))), Ok(*v));
    }
}
