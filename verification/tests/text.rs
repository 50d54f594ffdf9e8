//! Texts, orders and paths.

use cull::order::{bytes_before, same_bytes, same_text, text_before};
use cull::text::{
    contains, parse_i64, parse_u64, rfind, show_u64, split, strip_bare, to_lower, trim,
};
use cull::unix_path::{
    file_name, join, parent, split_components, split_name, starts_with, strip_prefix, Component,
};

#[test]
fn bytes_decide_the_order() {
    assert!(text_before("Image_00002_.png", "Image_00010_.png"));
    assert!(text_before("Z", "a"));
    assert!(text_before("a", "a/b"));
    assert!(!text_before("a", "a"));
    assert!(text_before("z", "\u{e9}"));
    assert!(bytes_before(b"", b"a"));
    assert!(!bytes_before(b"", b""));
    assert!(same_text("abc", "abc"));
    assert!(!same_text("abc", "abd"));
    assert!(!same_bytes(b"ab", b"abc"));
}

#[test]
fn white_space_is_trimmed_at_both_ends() {
    assert_eq!(trim(" \t a b \n\u{3000}"), "a b");
    assert_eq!(trim(" \u{a0}"), "");
    assert_eq!(strip_bare(". . .png. "), "png.");
    assert_eq!(to_lower("PnG\u{c9}"), "png\u{c9}");
}

#[test]
fn pieces_between_separators() {
    assert_eq!(split("a,,b", ','), vec!["a", "", "b"]);
    assert_eq!(split("", ','), vec![""]);
    assert!(contains("MyCLIPTextEncodeSDXL", "CLIPTextEncode"));
    assert!(!contains("CLIPText", "CLIPTextEncode"));
    assert!(contains("x", ""));
    assert_eq!(rfind(&"a.b.c".chars().collect(), '.'), Some(3));
    assert_eq!(rfind(&"abc".chars().collect(), '.'), None);
}

#[test]
fn numbers_are_read_and_shown() {
    assert_eq!(parse_u64("18446744073709551615"), Some(u64::MAX));
    assert_eq!(parse_u64("18446744073709551616"), None);
    assert_eq!(parse_u64("+5"), Some(5));
    assert_eq!(parse_u64("007"), Some(7));
    assert_eq!(parse_u64(""), None);
    assert_eq!(parse_u64("-0"), None);
    assert_eq!(parse_i64("-9223372036854775808"), Some(i64::MIN));
    assert_eq!(parse_i64("9223372036854775808"), None);
    assert_eq!(parse_i64("-"), None);
    for n in [0u64, 1, 9, 10, 99, 12345, u64::MAX] {
        assert_eq!(show_u64(n), format!("{n}"));
        assert_eq!(parse_u64(&show_u64(n)), Some(n));
    }
}

#[test]
fn components_skip_empty_and_dot_segments() {
    assert_eq!(
        split_components(b"/a//b/./c/"),
        vec![
            Component::RootDir,
            Component::Normal(b"a".to_vec()),
            Component::Normal(b"b".to_vec()),
            Component::Normal(b"c".to_vec()),
        ]
    );
    assert_eq!(
        split_components(b"./../x"),
        vec![
            Component::CurDir,
            Component::ParentDir,
            Component::Normal(b"x".to_vec()),
        ]
    );
    assert_eq!(split_components(b""), vec![]);
}

#[test]
fn containment_goes_by_components() {
    assert!(starts_with(b"/a/b/c", b"/a/b"));
    assert!(starts_with(b"/a/b", b"/a/b/"));
    assert!(!starts_with(b"/a/bc", b"/a/b"));
    assert!(!starts_with(b"a/b", b"/a"));
}

#[test]
fn paths_are_joined_and_taken_apart() {
    assert_eq!(join(b"/a", b"b/c"), b"/a/b/c");
    assert_eq!(join(b"/a/", b"b"), b"/a/b");
    assert_eq!(join(b"/a", b"/b"), b"/b");
    assert_eq!(parent(b"/a/b"), Some(b"/a".to_vec()));
    assert_eq!(parent(b"/"), None);
    assert_eq!(parent(b"a"), Some(b"".to_vec()));
    assert_eq!(file_name(b"/a/b.png"), Some(b"b.png".to_vec()));
    assert_eq!(file_name(b"/a/.."), None);
    assert_eq!(
        strip_prefix(b"/a/b/c.png", b"/a"),
        Some(b"b/c.png".to_vec())
    );
    assert_eq!(strip_prefix(b"/x/b", b"/a"), None);
}

#[test]
fn names_split_before_the_last_dot() {
    assert_eq!(
        split_name(&b"a.b.png".to_vec()),
        (b"a.b".to_vec(), Some(b"png".to_vec()))
    );
    assert_eq!(split_name(&b".hidden".to_vec()), (b".hidden".to_vec(), None));
    assert_eq!(split_name(&b"plain".to_vec()), (b"plain".to_vec(), None));
    assert_eq!(
        split_name(&b"end.".to_vec()),
        (b"end".to_vec(), Some(b"".to_vec()))
    );
}
