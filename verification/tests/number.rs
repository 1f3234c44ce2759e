use session_link::number::{is_number, Number};

#[test]
fn numbers_in_decimal_and_exponential_form() {
    for text in ["0", "-0", "7", "42", "-1.0", "3.5", "0.001", "1e10", "1E10", "1e+10", "2.5e-3", "-12.5E+300"] {
        assert!(is_number(text.as_bytes()), "{}", text);
        let number = Number::parse(text.as_bytes()).unwrap();
        assert_eq!(number.as_bytes(), text.as_bytes());
        assert_eq!(number.clone(), number);
    }
}

#[test]
fn what_is_no_number() {
    for text in [
        "", "-", "+1", "01", "-01", "1.", ".5", "1.e5", "1e", "1e+", "1e-", "e5", "1 ", " 1", "1,0", "0x10",
        "NaN", "nan", "inf", "Infinity", "-Infinity", "1e5.5", "1..2", "1ee5", "--1",
    ] {
        assert!(!is_number(text.as_bytes()), "{}", text);
        assert!(Number::parse(text.as_bytes()).is_none(), "{}", text);
    }
}
