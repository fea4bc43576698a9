use anime_manager::text::{
    default_group_from_relative, normalize, normalize_new_text, parse_i64, text_less,
    to_forward_slashes, trim_text,
};

#[test]
fn trims_unicode_whitespace() {
    assert_eq!(trim_text("  a b \u{3000}"), "a b");
    assert_eq!(trim_text("   "), "");
    assert_eq!(trim_text(""), "");
    assert_eq!(normalize(&None), "");
    assert_eq!(normalize(&Some(" x ".to_string())), "x");
    assert_eq!(normalize_new_text(&Some("\ty".to_string())), "y");
}

#[test]
fn parses_integers_like_std() {
    for s in ["0", "12", "+5", "-3", "007", "9223372036854775807", "-9223372036854775808",
        "9223372036854775808", "-9223372036854775809", "", "-", "+", "1a", " 1", "99999999999999999999999"] {
        assert_eq!(parse_i64(s), s.parse::<i64>().ok(), "input {:?}", s);
    }
}

#[test]
fn orders_text_like_std() {
    let words = ["", "a", "ab", "b", "B", "动画", "Ä", "a\u{0}"];
    for a in words {
        for b in words {
            assert_eq!(text_less(a, b), a < b, "{:?} {:?}", a, b);
        }
    }
}

#[test]
fn slashes_and_segments() {
    assert_eq!(to_forward_slashes("a\\b/c"), "a/b/c");
    assert_eq!(default_group_from_relative("Show/S1", "S1"), "Show");
    assert_eq!(default_group_from_relative("Solo", "x"), "Solo");
    assert_eq!(default_group_from_relative("", "fallback"), "fallback");
    assert_eq!(default_group_from_relative("/abs", "fallback"), "fallback");
}
