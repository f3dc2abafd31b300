//! Paths and text.

use std::path::Path;

use pm::path::FilePath;
use pm::text::{
    eq_ignore_ascii_case, join, parse_number, push_decimal, push_signed, split_words, to_hex, trim,
    trim_end,
};

fn path(text: &str) -> FilePath {
    FilePath::from_text(text)
}

/// Paths of every kind, well-formed and odd.
const SAMPLES: [&str; 24] = [
    "", "/", "//", ".", "..", "/.", "/..", "a", "a/", "a//b", "./a", "a/.", "a/./b", "a/../b",
    "/a", "/a/", "/a/b/c", "//a///b/", "/a/b.", "...", "/usr", "/usrlocal", "/usr/./lib/", "b/c/",
];

fn text(path: Option<FilePath>) -> Option<String> {
    path.map(|path| path.display())
}

fn std_text(path: Option<&Path>) -> Option<String> {
    path.map(|path| path.display().to_string())
}

#[test]
fn paths_behave_as_the_standard_library_has_them() {
    for one in SAMPLES {
        let (a, p) = (path(one), Path::new(one));
        assert_eq!(a.is_absolute(), p.is_absolute(), "{one:?}");
        assert_eq!(text(a.parent()), std_text(p.parent()), "parent of {one:?}");
        assert_eq!(
            text(a.file_name()),
            std_text(p.file_name().map(Path::new)),
            "file name of {one:?}"
        );
        assert_eq!(
            a.climbs(),
            p.components().any(|part| part.as_os_str() == ".."),
            "{one:?}"
        );
        for other in SAMPLES {
            let (b, q) = (path(other), Path::new(other));
            assert_eq!(a.same(&b), p == q, "{one:?} and {other:?}");
            assert_eq!(a.before(&b), p < q, "{one:?} before {other:?}");
            assert_eq!(a.starts_with(&b), p.starts_with(q), "{one:?} in {other:?}");
            assert_eq!(
                text(a.strip_prefix(&b)),
                std_text(p.strip_prefix(q).ok()),
                "{one:?} below {other:?}"
            );
            assert_eq!(
                a.join(&b).display(),
                p.join(q).display().to_string(),
                "{one:?} joined with {other:?}"
            );
        }
    }
}

#[test]
fn a_search_path_is_split_at_its_colons() {
    let shown = |text: &str| -> Vec<String> {
        path(text).split_paths().iter().map(FilePath::display).collect()
    };
    assert_eq!(shown("/a:b::/c:"), ["/a", "b", "", "/c", ""]);
    assert_eq!(shown(""), [""]);
    let absolute: Vec<String> =
        path("/a:b::/c:").search_directories().iter().map(FilePath::display).collect();
    assert_eq!(absolute, ["/a", "/c"]);
}

#[test]
fn a_path_may_be_anything_but_text() {
    let odd = FilePath::from_bytes(b"/a/\xff\xfeb");
    assert_eq!(odd.to_text(), None);
    assert_eq!(odd.display(), String::from_utf8_lossy(b"/a/\xff\xfeb"));
    assert_eq!(path("/é").to_text().as_deref(), Some("/é"));
    assert!(path("").is_empty());
    assert_eq!(odd.clone(), odd);
    assert_eq!(path("/a").join_text("b"), path("/a/b"));
}

#[test]
fn numbers_are_written_in_decimal() {
    for n in [0u64, 9, 10, 99, 100, 12_345, u64::MAX] {
        let mut text = "n=".to_owned();
        push_decimal(&mut text, n);
        assert_eq!(text, format!("n={n}"));
    }
    for n in [0i32, -1, 7, i32::MIN, i32::MAX] {
        let mut text = String::new();
        push_signed(&mut text, n);
        assert_eq!(text, n.to_string());
    }
}

#[test]
fn text_is_trimmed_split_and_joined() {
    for text in ["", " ", "\u{a0}a b\u{3000}", "\t x \n", "a", "\u{2028}\u{85}"] {
        assert_eq!(trim(text), text.trim());
        assert_eq!(trim_end(text), text.trim_end());
        assert_eq!(split_words(text), text.split_whitespace().collect::<Vec<_>>());
    }
    let parts = vec!["a".to_owned(), String::new(), "b".to_owned()];
    assert_eq!(join(&parts, ", "), "a, , b");
    assert_eq!(join(&Vec::new(), ", "), "");
    assert!(eq_ignore_ascii_case("Ab-É", "aB-É"));
    assert!(!eq_ignore_ascii_case("É", "é"));
    assert_eq!(to_hex(&[0, 0xa5, 0xff]), "00a5ff");
}

#[test]
fn every_space_and_control_character_is_known() {
    for c in (0..=0x10_ffff).filter_map(char::from_u32) {
        let u = c as u32;
        let space = matches!(
            u,
            0x09..=0x0d
                | 0x20
                | 0x85
                | 0xa0
                | 0x1680
                | 0x2000..=0x200a
                | 0x2028
                | 0x2029
                | 0x202f
                | 0x205f
                | 0x3000
        );
        assert_eq!(c.is_whitespace(), space, "{c:?}");
        assert_eq!(c.is_control(), u <= 0x1f || (0x7f..=0x9f).contains(&u), "{c:?}");
    }
}

#[test]
fn numbers_are_parsed_as_the_standard_library_does() {
    for text in [
        "", "+", "-", "0", "+5", "-5", "007", "18446744073709551615", "18446744073709551616", "1a",
        " 1", "1_0", "99999999999999999999999", "++1",
    ] {
        assert_eq!(parse_number(text), text.parse::<u64>().ok(), "{text:?}");
    }
}
