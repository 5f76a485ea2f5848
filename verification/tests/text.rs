use envcache::number::{parse_i64, push_hex16, push_i64};
use envcache::text::{chars_of, split_lines, string_of, trim_range};

fn lines_of(s: &str) -> Vec<String> {
    split_lines(&chars_of(s)).iter().map(|l| string_of(l)).collect()
}

#[test]
fn lines_like_str_lines() {
    for s in ["", "a", "a\n", "a\r\nb", "\n", "\n\n", "a\rb\n", "x\r", "a\n\nb\r\n", "\r\n"] {
        let expected: Vec<String> = s.lines().map(|l| l.to_string()).collect();
        assert_eq!(lines_of(s), expected, "lines of {:?}", s);
    }
}

#[test]
fn trim_like_str_trim() {
    for s in ["", "  ", " a b ", "\u{3000}x\u{a0}", "\t\n y \r"] {
        let cs = chars_of(s);
        let (a, b) = trim_range(&cs, 0, cs.len());
        let got: String = cs[a..b].iter().collect();
        assert_eq!(got, s.trim());
    }
}

fn parse(s: &str) -> Option<i64> {
    let cs = chars_of(s);
    parse_i64(&cs, 0, cs.len())
}

#[test]
fn parse_i64_like_str_parse() {
    for s in [
        "", "+", "-", "0", "-0", "+17", "007", " 1", "1 ", "12a", "9223372036854775807",
        "9223372036854775808", "-9223372036854775808", "-9223372036854775809",
        "99999999999999999999999", "--1", "+-1", "١",
    ] {
        assert_eq!(parse(s), s.parse::<i64>().ok(), "parse of {:?}", s);
    }
}

#[test]
fn i64_text_like_display() {
    for n in [0i64, 7, -7, 10, 1234567890, i64::MAX, i64::MIN] {
        let mut out = Vec::new();
        push_i64(&mut out, n);
        let text: String = out.iter().collect();
        assert_eq!(text, n.to_string());
        assert_eq!(parse(&text), Some(n));
    }
}

#[test]
fn hex16_like_format() {
    for v in [0u64, 1, 0xabcdef, u64::MAX] {
        let mut out = Vec::new();
        push_hex16(&mut out, v);
        let text: String = out.iter().collect();
        assert_eq!(text, format!("{:016x}", v));
    }
}
