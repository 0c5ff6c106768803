use agent_memories::text::{
    chars_of, is_whitespace, push_decimal, split_lines, string_of, to_ascii_lower, trim_chars,
};

#[test]
fn whitespace_agrees_with_std_on_every_char() {
    for u in 0u32..=0x10FFFF {
        if let Some(c) = char::from_u32(u) {
            assert_eq!(is_whitespace(c), c.is_whitespace(), "U+{u:04X}");
        }
    }
}

fn lines_of(s: &str) -> Vec<String> {
    split_lines(&chars_of(s)).iter().map(|l| string_of(l)).collect()
}

#[test]
fn lines_agree_with_std() {
    for s in ["", "a", "a\n", "a\nb", "a\n\nb\n", "\n", "\n\n", "a\r\nb\r\n", "a\r", "a\r\r\n", "\r\n", "x\ny\r\nz"] {
        let std_lines: Vec<String> = s.lines().map(|l| l.to_string()).collect();
        assert_eq!(lines_of(s), std_lines, "{s:?}");
    }
}

#[test]
fn trim_agrees_with_std() {
    for s in ["", "  ", " a ", "\u{a0}a b\u{2003}", "\t\r\nx\n", "xy"] {
        let t = string_of(&trim_chars(&chars_of(s)));
        assert_eq!(t, s.trim(), "{s:?}");
    }
}

#[test]
fn decimal_agrees_with_std() {
    for n in [0usize, 7, 10, 99, 100, 65535, usize::MAX] {
        let mut out = String::from("n=");
        push_decimal(&mut out, n);
        assert_eq!(out, format!("n={n}"));
    }
}

#[test]
fn ascii_lower_agrees_with_std_on_every_char() {
    for u in 0u32..=0x10FFFF {
        if let Some(c) = char::from_u32(u) {
            assert_eq!(to_ascii_lower(c), c.to_ascii_lowercase(), "U+{u:04X}");
        }
    }
}

#[test]
fn std_lowercase_of_ascii_text_is_ascii_lowercase() {
    let all: String = (0u8..128).map(|b| b as char).collect();
    assert_eq!(all.to_lowercase(), all.to_ascii_lowercase());
    for b in 0u8..128 {
        let s = (b as char).to_string();
        assert_eq!(s.to_lowercase(), s.to_ascii_lowercase());
    }
}

#[test]
fn std_alphanumeric_on_ascii_is_letters_and_digits() {
    for b in 0u8..128 {
        let c = b as char;
        let expected = c.is_ascii_lowercase() || c.is_ascii_uppercase() || c.is_ascii_digit();
        assert_eq!(c.is_alphanumeric(), expected, "{c:?}");
    }
}
