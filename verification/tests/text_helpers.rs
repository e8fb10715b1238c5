use regvm::text::{i64_to_decimal, is_whitespace_char, str_chars, trim_chars, usize_to_decimal};

#[test]
fn whitespace_agrees_with_std() {
    for u in 0u32..0x3100 {
        if let Some(c) = char::from_u32(u) {
            assert_eq!(is_whitespace_char(c), c.is_whitespace(), "code {:x}", u);
        }
    }
}

#[test]
fn trim_agrees_with_std() {
    for s in ["", "  ", " a ", "\u{2003}x y\u{205f}", "\u{85}\u{200b}", "ab"] {
        let t: String = trim_chars(s).into_iter().collect();
        assert_eq!(t, s.trim());
    }
}

#[test]
fn chars_in_order() {
    assert_eq!(str_chars("añ€😀"), vec!['a', 'ñ', '€', '😀']);
}

#[test]
fn decimal_text() {
    for i in [0i64, 9, 10, -1, -10, 987654321, i64::MIN, i64::MAX] {
        assert_eq!(i64_to_decimal(i), i.to_string());
    }
    assert_eq!(usize_to_decimal(0), "0");
    assert_eq!(usize_to_decimal(4096), "4096");
}
