use uranker::text::{chars_of, parse_u64, string_of, u64_to_decimal};

#[test]
fn decimal_notation() {
    assert_eq!(u64_to_decimal(0), "0");
    assert_eq!(u64_to_decimal(7), "7");
    assert_eq!(u64_to_decimal(1203), "1203");
    assert_eq!(u64_to_decimal(u64::MAX), u64::MAX.to_string());
}

#[test]
fn parse_u64_as_std_does() {
    for s in ["0", "42", "+42", "007", "18446744073709551615", "18446744073709551616", "", "+", "-1", " 1", "1 ", "1a", "++1"] {
        let cs: Vec<char> = s.chars().collect();
        assert_eq!(parse_u64(&cs), s.parse::<u64>().ok(), "{}", s);
    }
}

#[test]
fn chars_and_back() {
    let s = "héllo, wörld";
    let cs = chars_of(s);
    assert_eq!(cs, s.chars().collect::<Vec<char>>());
    assert_eq!(string_of(&cs), s);
}
