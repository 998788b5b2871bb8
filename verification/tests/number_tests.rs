use simlogtail::number::{is_float_text, parse_i64_chars, push_decimal, push_padded,
    push_signed_padded};
use simlogtail::text::chars_of;

fn parse(s: &str) -> Option<i64> {
    parse_i64_chars(&chars_of(s))
}

#[test]
fn parse_i64_matches_std() {
    let samples = [
        "", "+", "-", "0", "-0", "+0", "+5", "42", "-42", "007", "9223372036854775807",
        "9223372036854775808", "-9223372036854775808", "-9223372036854775809",
        "99999999999999999999999", " 1", "1 ", "12a", "a12", "1_000", "--1", "+-1", "\u{663}",
        "1700000000123",
    ];
    for s in samples.iter() {
        assert_eq!(parse(s), s.parse::<i64>().ok(), "sample {:?}", s);
    }
}

#[test]
fn parse_i64_edge_values() {
    assert_eq!(parse("-9223372036854775808"), Some(i64::MIN));
    assert_eq!(parse("9223372036854775807"), Some(i64::MAX));
    assert_eq!(parse("9223372036854775808"), None);
    assert_eq!(parse("-"), None);
}

#[test]
fn float_syntax_matches_std() {
    let samples = [
        "1", "1.", ".5", ".", "1e5", "1E5", "1e", "1e+", "1e-3", "1e+3", "inf", "INF", "-Infinity",
        "nan", "NaN", "+nan", "-inf", "1.2.3", "", "+", "-", " 1", "1 ", "1_0", "0x10", "1e5.0",
        "infinit", "infinityx", "e5", ".e5", "5.e3", "+.5", "-5.", "1e05", "1ee5", "in", "na",
        "1.5E-10", "١",
    ];
    for s in samples.iter() {
        assert_eq!(is_float_text(s), s.parse::<f64>().is_ok(), "sample {:?}", s);
    }
}

#[test]
fn float_syntax_matches_std_on_all_short_texts() {
    let alphabet: Vec<char> = "0.e+-inINfaty".chars().collect();
    let mut texts: Vec<String> = vec![String::new()];
    for _ in 0..4 {
        let mut next = Vec::new();
        for t in texts.iter() {
            for c in alphabet.iter() {
                let mut u = t.clone();
                u.push(*c);
                next.push(u);
            }
        }
        for t in next.iter() {
            assert_eq!(is_float_text(t), t.parse::<f64>().is_ok(), "text {:?}", t);
        }
        texts = next;
    }
}

#[test]
fn decimal_writing_matches_format() {
    for n in [0u64, 1, 9, 10, 99, 100, 12345, u64::MAX].iter() {
        let mut s = String::from("x");
        push_decimal(&mut s, *n);
        assert_eq!(s, format!("x{}", n));
        let mut p = String::new();
        push_padded(&mut p, *n, 3);
        assert_eq!(p, format!("{:03}", n));
    }
    for x in [0i64, 5, -5, 42, -42, 999, -999, 1000, -1000, i64::MIN, i64::MAX].iter() {
        let mut p = String::new();
        push_signed_padded(&mut p, *x, 3);
        assert_eq!(p, format!("{:03}", x), "value {}", x);
    }
}

#[test]
fn decimal_then_parse_round_trip() {
    for n in [0i64, 7, 10, 123456789, i64::MAX, -1, -10, i64::MIN].iter() {
        let mut s = String::new();
        if *n < 0 {
            s.push('-');
            push_decimal(&mut s, n.unsigned_abs());
        } else {
            push_decimal(&mut s, *n as u64);
        }
        assert_eq!(parse(&s), Some(*n));
    }
}
