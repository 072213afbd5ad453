use editor::decimal::parse_u8;

fn chars(s: &str) -> Vec<char> {
    s.chars().collect()
}

#[test]
fn parse_plain_numbers() {
    assert_eq!(parse_u8(&chars("0")), Some(0));
    assert_eq!(parse_u8(&chars("42")), Some(42));
    assert_eq!(parse_u8(&chars("255")), Some(255));
}

#[test]
fn parse_rejects_overflow_and_junk() {
    assert_eq!(parse_u8(&chars("256")), None);
    assert_eq!(parse_u8(&chars("")), None);
    assert_eq!(parse_u8(&chars("+")), None);
    assert_eq!(parse_u8(&chars("-1")), None);
    assert_eq!(parse_u8(&chars("1a")), None);
    assert_eq!(parse_u8(&chars(" 1")), None);
    assert_eq!(parse_u8(&chars("99999")), None);
}

#[test]
fn parse_plus_and_leading_zeros() {
    assert_eq!(parse_u8(&chars("+7")), Some(7));
    assert_eq!(parse_u8(&chars("007")), Some(7));
    assert_eq!(parse_u8(&chars("000000255")), Some(255));
    assert_eq!(parse_u8(&chars("++1")), None);
}

#[test]
fn parse_agrees_with_std() {
    let samples = [
        "", "0", "00", "9", "10", "99", "100", "199", "200", "249", "250", "255", "256", "260", "300",
        "999", "1000", "+", "+0", "+255", "+256", "-", "-0", "a", "1 ", "12;", "0255", "00256",
    ];
    for s in samples {
        assert_eq!(parse_u8(&chars(s)), s.parse::<u8>().ok(), "{:?}", s);
    }
    for n in 0..1000u32 {
        let s = n.to_string();
        assert_eq!(parse_u8(&chars(&s)), s.parse::<u8>().ok());
    }
}
