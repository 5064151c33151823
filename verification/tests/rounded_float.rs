use rs_docx::error::{DecodeError, EncodeError};
use rs_docx::rounded_float::{from_xml, strip_unit_suffix, to_xml};
use rs_docx::text::char_is_whitespace;

#[test]
fn decode_plain_integer() {
    assert_eq!(from_xml("240"), Ok(240));
}

#[test]
fn decode_rounds_fraction_with_unit() {
    assert_eq!(from_xml("12.4pt"), Ok(12));
}

#[test]
fn decode_rejects_text_that_is_no_number() {
    assert_eq!(from_xml("abcpt"), Err(DecodeError::InvalidNumber));
}

#[test]
fn encode_writes_decimal_without_unit() {
    assert_eq!(to_xml(&240), Ok::<String, EncodeError>("240".to_string()));
    assert_eq!(to_xml(&0), Ok::<String, EncodeError>("0".to_string()));
    assert_eq!(to_xml(&-17), Ok::<String, EncodeError>("-17".to_string()));
    assert_eq!(to_xml(&1000000), Ok::<String, EncodeError>("1000000".to_string()));
}

#[test]
fn decode_rounds_half_away_from_zero() {
    assert_eq!(from_xml("12.5"), Ok(13));
    assert_eq!(from_xml("-12.5"), Ok(-13));
    assert_eq!(from_xml("0.5"), Ok(1));
    assert_eq!(from_xml("0.49"), Ok(0));
    assert_eq!(from_xml("-0.4"), Ok(0));
    assert_eq!(from_xml("2.499999"), Ok(2));
    assert_eq!(from_xml("-2.5000001"), Ok(-3));
}

#[test]
fn decode_accepts_every_unit() {
    assert_eq!(from_xml("10pt"), Ok(10));
    assert_eq!(from_xml("10cm"), Ok(10));
    assert_eq!(from_xml("10mm"), Ok(10));
    assert_eq!(from_xml("10in"), Ok(10));
    assert_eq!(from_xml("10pc"), Ok(10));
    assert_eq!(from_xml("10pi"), Ok(10));
    assert_eq!(from_xml("10em"), Ok(10));
    assert_eq!(from_xml("10%"), Ok(10));
}

#[test]
fn decode_trims_white_space() {
    assert_eq!(from_xml("  7 mm "), Ok(7));
    assert_eq!(from_xml("\t42\n"), Ok(42));
    assert_eq!(from_xml("\u{a0}3.6\u{2003}em\u{3000}"), Ok(4));
}

#[test]
fn decode_reads_signs_points_and_exponents() {
    assert_eq!(from_xml("+4"), Ok(4));
    assert_eq!(from_xml("-4"), Ok(-4));
    assert_eq!(from_xml(".5"), Ok(1));
    assert_eq!(from_xml("5."), Ok(5));
    assert_eq!(from_xml("1e3"), Ok(1000));
    assert_eq!(from_xml("1.5e1"), Ok(15));
    assert_eq!(from_xml("25E-1"), Ok(3));
    assert_eq!(from_xml("24e-1"), Ok(2));
    assert_eq!(from_xml("5e-1"), Ok(1));
    assert_eq!(from_xml("5e-2"), Ok(0));
    assert_eq!(from_xml("0.00012e+5pt"), Ok(12));
    assert_eq!(from_xml("000123.000"), Ok(123));
    assert_eq!(from_xml("0e99999999999999999999999999999999999999"), Ok(0));
    assert_eq!(from_xml("1e-99999999999999999999999999999999999999"), Ok(0));
}

#[test]
fn decode_rejects_what_is_no_decimal_number() {
    for text in [
        "", " ", ".", "+", "-", "e5", "1e", "1e+", "1.2.3", "1,5", "0x10", "1_000", "inf",
        "-inf", "nan", "NaN", "infinity", "pt", "%", "12 34", "--1", "1-", "1e1.5", "٣",
    ] {
        assert_eq!(from_xml(text), Err(DecodeError::InvalidNumber), "{:?}", text);
    }
}

#[test]
fn decode_goes_to_the_nearest_isize_where_the_number_is_out_of_range() {
    assert_eq!(from_xml("99999999999999999999999999999999"), Ok(isize::MAX));
    assert_eq!(from_xml("-99999999999999999999999999999999"), Ok(isize::MIN));
    assert_eq!(from_xml("1e40"), Ok(isize::MAX));
    assert_eq!(from_xml("-1e40"), Ok(isize::MIN));
    assert_eq!(from_xml("1e308"), Ok(isize::MAX));
    assert_eq!(from_xml("1.7976931348623157e308"), Ok(isize::MAX));
}

#[test]
fn decode_rejects_what_is_not_finite_in_binary_floating_point() {
    assert_eq!(from_xml("1e400"), Err(DecodeError::InvalidNumber));
    assert_eq!(from_xml("-1e400"), Err(DecodeError::InvalidNumber));
    assert_eq!(from_xml("1e309"), Err(DecodeError::InvalidNumber));
    assert_eq!(from_xml("1.7976931348623159e308pt"), Err(DecodeError::InvalidNumber));
    assert_eq!(
        from_xml("1e99999999999999999999999999999999999999"),
        Err(DecodeError::InvalidNumber)
    );
    assert_eq!(
        from_xml("-3e99999999999999999999999999999999999999"),
        Err(DecodeError::InvalidNumber)
    );
    // 2^1024 - 2^970 is the first that is not finite; one less is.
    let limit = "179769313486231580793728971405303415079934132710037826936173778980444968292764750946649017977587207096330286416692887910946555547851940402630657488671505820681908902000708383676273854845817711531764475730270069855571366959622842914819860834936475292719074168444365510704342711559699508093042880177904174497792";
    let below = "179769313486231580793728971405303415079934132710037826936173778980444968292764750946649017977587207096330286416692887910946555547851940402630657488671505820681908902000708383676273854845817711531764475730270069855571366959622842914819860834936475292719074168444365510704342711559699508093042880177904174497791";
    assert_eq!(from_xml(limit), Err(DecodeError::InvalidNumber));
    assert_eq!(from_xml(below), Ok(isize::MAX));
    assert_eq!(from_xml(&format!("{}.999", below)), Ok(isize::MAX));
    assert_eq!(from_xml(&format!("-{}.0", limit)), Err(DecodeError::InvalidNumber));
    assert_eq!(from_xml(&format!("0.{}e309", limit)), Err(DecodeError::InvalidNumber));
    assert_eq!(from_xml(&format!("0.{}e309", below)), Ok(isize::MAX));
    assert_eq!(from_xml(&format!("000{}000e-3", limit)), Err(DecodeError::InvalidNumber));
}

#[test]
fn decode_rounds_as_binary_floating_point_does() {
    assert_eq!(from_xml("0.49999999999999999"), Ok(1));
    assert_eq!(from_xml("0.49999999999999999999"), Ok(1));
    assert_eq!(from_xml("-0.49999999999999999"), Ok(-1));
    assert_eq!(from_xml("0.4999999999999999"), Ok(0));
    // 1/2 - 2^-55 is the first that reads as one half.
    assert_eq!(from_xml("0.4999999999999999722444243843710864894092082977294921875"), Ok(1));
    assert_eq!(from_xml("0.4999999999999999722444243843710864894092082977294921874"), Ok(0));
    assert_eq!(from_xml("0.49999999999999997224442438437108648940920829772949218749999"), Ok(0));
    assert_eq!(from_xml("4999999999999999722444243843710864894092082977294921875e-55"), Ok(1));
    assert_eq!(from_xml("1.4999999999999999"), Ok(2));
    assert_eq!(from_xml("1.499999999999999"), Ok(1));
    assert_eq!(from_xml("2251799813685248.3"), Ok(2251799813685249));
    assert_eq!(from_xml("2251799813685248.25"), Ok(2251799813685248));
    assert_eq!(from_xml("2251799813685248.250000000000000000000000000001"), Ok(2251799813685249));
    assert_eq!(from_xml("4503599627370496.5"), Ok(4503599627370496));
    assert_eq!(from_xml("4503599627370497.5"), Ok(4503599627370498));
    assert_eq!(from_xml("4503599627370496.50000000000000000001"), Ok(4503599627370497));
    assert_eq!(from_xml("-4503599627370496.5"), Ok(-4503599627370496));
}

#[test]
fn every_integer_stands_for_itself_also_beyond_the_precision_of_binary_floating_point() {
    assert_eq!(from_xml("9007199254740992"), Ok(9007199254740992));
    assert_eq!(from_xml("9007199254740993"), Ok(9007199254740993));
    assert_eq!(from_xml("9007199254740993.5"), Ok(9007199254740994));
    assert_eq!(from_xml("9223372036854775807"), Ok(isize::MAX));
}

fn through_floats(text: &str) -> Result<isize, DecodeError> {
    match strip_unit_suffix(text).parse::<f64>() {
        Ok(v) if v.is_finite() => Ok(v.round() as isize),
        _ => Err(DecodeError::InvalidNumber),
    }
}

#[test]
fn decode_agrees_with_reading_through_floats_where_the_number_is_no_great_integer() {
    let mut texts: Vec<String> = Vec::new();
    for text in [
        "0.5", "0.25", "0.375", "0.3749999999", "1e-400", "4.9e-324", "0.49999999999999994",
        "0.49999999999999997", "0.499999999999999972", "0.4999999999999999723",
        "2.4999999999999996", "2.4999999999999998", "1023.4999999999999", "1023.49999999999995",
        "1125899906842623.4", "1125899906842623.44", "1125899906842623.4375",
        "1125899906842623.43749", "2251799813685247.75", "2251799813685247.5", "1.5e0",
        "15e-1", "0.00000000000000000000000000000000000000000000000000000000000000000000000001",
        "1e400", "1e309", "1.7976931348623157e308", "1.7976931348623158e308",
        "1.797693134862315807e308", "1.797693134862315808e308", "17976931348623158e292",
        "4503599627370495.5", "4503599627370495.49999", "9007199254740991.5",
        "9007199254740990.5", "9007199254740991.49999999", "9007199254740992.6",
        "9007199254740993.2", "9007199254740993.5", "9007199254740992.000001",
        "18014398509481985.9", "18014398509481986.1", "123456789012345678.5",
        "1234567890123456789e-1", "9223372036854775807.5", "9223372036854774783.9",
        "9223372036854775295.5", "9223372036854775296.5", "18446744073709551615.5",
        "18446744073709551616.5", "36893488147419103232.25", "1.0000000000000000000001e30",
    ] {
        texts.push(text.to_string());
    }
    let mut seed: u64 = 0x2545_f491_4f6c_dd1d;
    let mut next = move || {
        seed ^= seed << 13;
        seed ^= seed >> 7;
        seed ^= seed << 17;
        seed
    };
    for _ in 0..4000 {
        let whole = next() % (1u64 << (next() % 64));
        let nines = (next() % 40) as usize;
        let lead = ["", "4", "49", "2", "24", "3", "37", "5", "50"][(next() % 9) as usize];
        let tail = next() % 1000 + 1;
        texts.push(format!("{}.{}{}{}", whole, lead, "9".repeat(nines), tail));
        texts.push(format!("{}.{}{}{}", whole, lead, "0".repeat(nines), tail));
        texts.push(format!("{}{}e-{}", whole % (1u64 << 40), tail, (next() % 25)));
    }
    for text in texts {
        let expected = through_floats(&text);
        assert_eq!(from_xml(&text), expected, "{}", text);
        let negative = format!("-{}", text);
        assert_eq!(from_xml(&negative), through_floats(&negative), "{}", negative);
    }
}

#[test]
fn from_two_to_the_53_on_a_fraction_gives_the_nearest_binary_number() {
    assert_eq!(from_xml("9007199254740993"), Ok(9007199254740993));
    assert_eq!(from_xml("9007199254740993.0"), Ok(9007199254740993));
    assert_eq!(from_xml("900719925474099.3e1"), Ok(9007199254740993));
    assert_eq!(from_xml("9007199254740992.6"), Ok(9007199254740992));
    assert_eq!(from_xml("9007199254740993.2"), Ok(9007199254740994));
    assert_eq!(from_xml("-9007199254740993.2"), Ok(-9007199254740994));
    assert_eq!(from_xml("123456789012345678"), Ok(123456789012345678));
    assert_eq!(from_xml("123456789012345678.5"), Ok(123456789012345680));
    assert_eq!(from_xml("9223372036854775807.5"), Ok(isize::MAX));
    assert_eq!(from_xml("-9223372036854775808.5"), Ok(isize::MIN));
}

#[test]
fn reading_what_was_written_gives_the_integer_back() {
    let mut samples: Vec<isize> = vec![0, 1, -1, 9, 10, -10, 99, 100, 240, 12345, -67890];
    samples.push(isize::MAX);
    samples.push(isize::MIN);
    samples.push(isize::MAX - 1);
    samples.push(isize::MIN + 1);
    let mut n: isize = 1;
    while n < isize::MAX / 7 {
        samples.push(n);
        samples.push(-n);
        n = n * 7 + 3;
    }
    for x in samples {
        let text = to_xml(&x).unwrap();
        assert_eq!(from_xml(&text), Ok(x), "{}", text);
        assert!(text.chars().all(|c| c == '-' || c.is_ascii_digit()));
    }
}

#[test]
fn decode_agrees_with_rounding_of_floats_on_short_numbers() {
    let mut k: i32 = -5000;
    while k <= 5000 {
        let text = format!("{:.2}", f64::from(k) / 100.0);
        let expected = (f64::from(k) / 100.0).round() as isize;
        assert_eq!(from_xml(&text), Ok(expected), "{}", text);
        let with_unit = format!(" {}pt", text);
        assert_eq!(from_xml(&with_unit), Ok(expected), "{}", with_unit);
        k += 1;
    }
}

#[test]
fn strip_unit_suffix_gives_the_numeric_part() {
    assert_eq!(strip_unit_suffix("12.4pt"), "12.4");
    assert_eq!(strip_unit_suffix(" 3 cm "), "3");
    assert_eq!(strip_unit_suffix("7"), "7");
    assert_eq!(strip_unit_suffix("5 %"), "5");
    assert_eq!(strip_unit_suffix("em"), "");
    assert_eq!(strip_unit_suffix("10 px"), "10 px");
    assert_eq!(strip_unit_suffix("  "), "");
    assert_eq!(strip_unit_suffix("2ptpt"), "2pt");
    assert_eq!(strip_unit_suffix("é1in"), "é1");
}

#[test]
fn white_space_is_what_the_standard_library_says() {
    let mut n: u32 = 0;
    while n <= 0x10FFFF {
        if let Some(c) = char::from_u32(n) {
            assert_eq!(char_is_whitespace(c), c.is_whitespace(), "U+{:04X}", n);
        }
        n += 1;
    }
}
