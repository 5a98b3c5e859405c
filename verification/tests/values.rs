use odin_palace::parser::decode::{parse_as_cp1251, parse_as_utf8, parse_text};
use odin_palace::parser::fields::{number, optional_date, required_date};
use odin_palace::parser::Encoding;
use odin_palace::value::{read_decimal, Date, Decimal};

#[test]
fn decimals_are_read() {
    let d = read_decimal("1.5").unwrap();
    assert_eq!((d.mantissa, d.scale), (15, 1));
    let d = read_decimal("-0.25").unwrap();
    assert_eq!((d.mantissa, d.scale), (-25, 2));
    let d = read_decimal("1e3").unwrap();
    assert!(d.same_value_as(&Decimal { mantissa: 1000, scale: 0 }));
    assert!(read_decimal("abc").is_none());
    assert!(read_decimal("").is_none());
}

#[test]
fn decimal_equality_is_by_value() {
    let a = Decimal { mantissa: 10, scale: 1 };
    let b = Decimal { mantissa: 100, scale: 2 };
    let c = Decimal { mantissa: 1, scale: 0 };
    assert!(a.same_value_as(&b));
    assert!(b.same_value_as(&c));
    assert!(a.same_value_as(&c));
    assert!(!a.same_value_as(&Decimal { mantissa: -10, scale: 1 }));
    assert!(Decimal { mantissa: 0, scale: 3 }.same_value_as(&Decimal { mantissa: 0, scale: 0 }));
    assert!(!Decimal { mantissa: 15, scale: 1 }.same_value_as(&Decimal { mantissa: 150, scale: 1 }));
}

#[test]
fn invalid_number_message_quotes_the_text() {
    assert_eq!(
        number("1,5").unwrap_err(),
        "invalid value: string \"1,5\", expected a Decimal type representing a fixed-point number"
    );
}

#[test]
fn dates_are_read() {
    assert_eq!(required_date("05.01.2024").unwrap(), Date { year: 2024, month: 1, day: 5 });
    assert_eq!(required_date("  ").unwrap_err(), "empty string is not a valid date");
    assert_eq!(required_date("ab.01.2024").unwrap_err(), "input contains invalid characters");
    assert_eq!(required_date("32.01.2024").unwrap_err(), "input is out of range");
    assert_eq!(optional_date(" ").unwrap(), None);
    assert_eq!(optional_date("29.02.2024").unwrap(), Some(Date { year: 2024, month: 2, day: 29 }));
    assert_eq!(optional_date("30.02.2024").unwrap_err(), "input is out of range");
}

#[test]
fn dates_are_ordered_by_day() {
    let a = Date { year: 2024, month: 1, day: 31 };
    let b = Date { year: 2024, month: 2, day: 1 };
    assert!(a.before(&b));
    assert!(!b.before(&a));
    assert!(!a.before(&a));
}

#[test]
fn utf8_is_preferred() {
    assert_eq!(parse_as_utf8("Привет".as_bytes()), Some("Привет"));
    assert_eq!(parse_as_utf8(&[0xff]), None);
    let (t, e) = parse_text("Привет".as_bytes()).unwrap();
    assert_eq!(t, "Привет");
    assert_eq!(e, Encoding::Utf8);
}

#[test]
fn windows_1251_needs_text_like_content() {
    let (bytes, _, _) = encoding_rs::WINDOWS_1251.encode("Привет, мир");
    assert_eq!(parse_as_cp1251(&bytes).as_deref(), Some("Привет, мир"));
    let (t, e) = parse_text(&bytes).unwrap();
    assert_eq!(t, "Привет, мир");
    assert_eq!(e, Encoding::Cp1251);
    // Control characters are not text-like.
    assert_eq!(parse_as_cp1251(&[0x01, 0x02, 0x03, 0xC0]), None);
    // An unmapped byte is an error.
    assert_eq!(parse_as_cp1251(&[0xC0, 0x98]), None);
    assert_eq!(parse_as_cp1251(&[]), None);
}
