use strata::paths::{has_trailing_separator, is_absolute, join_path};
use strata::text::{contains_char, starts_with_text, trimmed, trimmed_end, white_space};

#[test]
fn join_matches_std_path_join() {
    let bases = ["", "/", "/a", "/a/", "rel", "rel/x", "//"];
    let rels = ["", "b", "b/c", "/abs", "./d", "..", "x/"];
    for base in bases {
        for rel in rels {
            let expected = std::path::Path::new(base).join(rel);
            assert_eq!(join_path(base, rel), expected.to_string_lossy(), "{base:?} + {rel:?}");
        }
    }
}

#[test]
fn absolute_matches_std_path() {
    for p in ["", "/", "/a", "a", "./a", "~/a", " /a"] {
        assert_eq!(is_absolute(p), std::path::Path::new(p).is_absolute(), "{p:?}");
    }
}

#[test]
fn trailing_separator() {
    assert!(has_trailing_separator("/a/"));
    assert!(!has_trailing_separator("/a"));
    assert!(!has_trailing_separator(""));
}

#[test]
fn white_space_matches_char_is_whitespace() {
    for u in 0u32..0x3100 {
        if let Some(c) = char::from_u32(u) {
            assert_eq!(white_space(c), c.is_whitespace(), "U+{u:04X}");
        }
    }
}

#[test]
fn trimming_matches_str_trim() {
    for s in ["", "   ", " a ", "\u{2003}x y\u{205f}", "\u{85}z", "a\u{200b}", "\t\n q\r"] {
        assert_eq!(trimmed(s), s.trim(), "{s:?}");
        assert_eq!(trimmed_end(s), s.trim_end(), "{s:?}");
        assert_eq!(trimmed(trimmed(s)), trimmed(s));
    }
}

#[test]
fn text_tests() {
    assert!(starts_with_text("folder", "fol"));
    assert!(starts_with_text("folder", ""));
    assert!(!starts_with_text("fo", "fol"));
    assert!(!starts_with_text("folder", "fox"));
    assert!(contains_char("a/b", '/'));
    assert!(!contains_char("ab", '/'));
}
