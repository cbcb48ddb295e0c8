use av1an::text::{
    number_of, parse_bytes, parse_usize, push_decimal, same_text, split_text, NumberError,
};

#[test]
fn numbers_are_written_in_decimal() {
    for n in [0u64, 7, 10, 99, 100, 12345, u64::MAX] {
        let mut text = String::from("n=");
        push_decimal(&mut text, n);
        assert_eq!(text, format!("n={}", n));
    }
}

#[test]
fn numbers_read_back() {
    for n in [0usize, 1, 9, 10, 4711, usize::MAX] {
        assert_eq!(parse_usize(&n.to_string()), Ok(n));
    }
}

#[test]
fn numbers_are_read_like_std() {
    for s in [
        "", "+", "-", "0", "+0", "-0", "-1", "007", "+42", "++1", "1+", " 1", "1 ", "1_000", "12a",
        "a", "é", "1é", "18446744073709551615", "18446744073709551616", "184467440737095516150",
        "99999999999999999999x", "x99999999999999999999",
    ] {
        let expected = s.parse::<usize>();
        let got = parse_usize(s);
        match (expected, got) {
            (Ok(a), Ok(b)) => assert_eq!(a, b),
            (Err(a), Err(b)) => assert_eq!(a.to_string(), b.message()),
            (a, b) => panic!("{:?}: {:?} and {:?}", s, a, b),
        }
        assert_eq!(number_of(s), s.parse::<usize>().ok());
    }
}

#[test]
fn each_number_error() {
    assert_eq!(parse_usize(""), Err(NumberError::Empty));
    assert_eq!(parse_usize("12x"), Err(NumberError::InvalidDigit));
    assert_eq!(parse_bytes(b"256", 255), Err(NumberError::PosOverflow));
    assert_eq!(parse_bytes(b"255", 255), Ok(255));
    assert_eq!(NumberError::Empty.message(), "cannot parse integer from empty string");
    assert_eq!(NumberError::InvalidDigit.message(), "invalid digit found in string");
    assert_eq!(NumberError::PosOverflow.message(), "number too large to fit in target type");
}

#[test]
fn texts_are_the_same() {
    assert!(same_text("", ""));
    assert!(same_text("vpy", "vpy"));
    assert!(!same_text("vpy", "vp"));
    assert!(!same_text("vpy", "VPY"));
}

#[test]
fn splitting_and_joining() {
    for s in ["", "\n", "a", "a\nb", "\na\n\nb\n", "ä\nö\r\nü"] {
        let pieces = split_text(s, '\n');
        let expected: Vec<String> = s.split('\n').map(|p| p.to_string()).collect();
        assert_eq!(pieces, expected);
        assert_eq!(pieces.join("\n"), s);
    }
}
