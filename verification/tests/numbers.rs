use threedee::number::{is_float_token, parse_usize};

fn chars(s: &str) -> Vec<char> {
    s.chars().collect()
}

#[test]
fn usize_tokens_read_like_std() {
    let cases = [
        "0", "1", "42", "+7", "007", "", "+", "-", "-1", "1.0", "1/2/3", "12a", " 1",
        "18446744073709551615", "18446744073709551616", "99999999999999999999999", "+0",
        "٣",
    ];
    for case in cases.iter() {
        let expected = case.parse::<usize>().ok();
        assert_eq!(parse_usize(&chars(case)), expected, "token {:?}", case);
    }
}

#[test]
fn usize_exact_values() {
    assert_eq!(parse_usize(&chars("+15")), Some(15));
    assert_eq!(parse_usize(&chars("0009")), Some(9));
    assert_eq!(parse_usize(&chars("1/2")), None);
    assert_eq!(parse_usize(&chars("")), None);
}

#[test]
fn float_tokens_accepted_like_std() {
    let cases = [
        "1", "1.5", "-2.25", "+3", ".5", "5.", ".", "e5", "1e5", "1E5", "1e+5", "1e-5", "1e",
        "1e+", "1.2.3", "--1", "+-1", "inf", "-inf", "+Inf", "INFINITY", "infinity", "infin",
        "nan", "NaN", "-nan", "nana", "abc", "", "+", "-", "0.0001", "1_000", "0x10", "1e5e3",
        "1.e3", ".e3", "١", "ｉnf",
    ];
    for case in cases.iter() {
        let expected = case.parse::<f64>().is_ok();
        assert_eq!(is_float_token(&chars(case)), expected, "token {:?}", case);
    }
}
