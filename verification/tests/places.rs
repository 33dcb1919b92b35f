use everyfile::paths::FilePath;
use everyfile::scopes::{is_covered, settle};
use everyfile::sorting::{sort, Sortable};
use everyfile::text::{
    compare_text, find_text, is_white_space, render, render_signed, split_words, text_of, Order,
};
use everyfile::unicode::is_latin;

fn path(text: &str) -> FilePath {
    FilePath::new(text)
}

fn parent(text: &str) -> Option<String> {
    path(text).parent().map(|parent| parent.as_str().to_owned())
}

#[test]
fn paths_compare_by_their_components() {
    assert_eq!(path("/a/b"), path("/a//b/"));
    assert_eq!(path("/a/./b"), path("/a/b"));
    assert_ne!(path("./a"), path("a"));
    assert_ne!(path("/a/../b"), path("/b"));
    assert_ne!(path("/a"), path("a"));
    assert_ne!(path(""), path("."));
}

#[test]
fn a_prefix_of_a_name_is_not_a_prefix_of_a_path() {
    assert!(path("/root/a/b").starts_with(&path("/root/a")));
    assert!(path("/root/a").starts_with(&path("/root/a/")));
    assert!(!path("/root/ab").starts_with(&path("/root/a")));
    assert!(!path("/root").starts_with(&path("/root/a")));
    assert!(path("/x").starts_with(&path("")));
}

#[test]
fn parents_drop_the_last_component() {
    assert_eq!(parent("/a/b"), Some("/a".into()));
    assert_eq!(parent("/a/b/"), Some("/a".into()));
    assert_eq!(parent("/a//b"), Some("/a".into()));
    assert_eq!(parent("/a"), Some("/".into()));
    assert_eq!(parent("//a"), Some("/".into()));
    assert_eq!(parent("a"), Some("".into()));
    assert_eq!(parent("./a"), Some(".".into()));
    assert_eq!(parent("/a/."), Some("/".into()));
    assert_eq!(parent("/"), None);
    assert_eq!(parent(""), None);
}

#[test]
fn parents_agree_with_the_standard_library() {
    for text in [
        "", "/", "//", "a", "a/", "a/b", "a/./b", "./a", "./", ".", "..", "../a", "/a/..", "/./a",
        "a//b//", "/a/b/c", "/.hidden", "/a/.b/.", "/...",
    ] {
        let expected = std::path::Path::new(text)
            .parent()
            .map(|parent| parent.to_str().unwrap().to_owned());
        assert_eq!(parent(text), expected, "{text}");
        for other in ["", "/", "a", "./a", "/a", "/a/b", "..", "/.hidden/x"] {
            let left = std::path::Path::new(text);
            let right = std::path::Path::new(other);
            assert_eq!(
                path(text).starts_with(&path(other)),
                left.starts_with(right),
                "{text} {other}"
            );
            assert_eq!(path(text) == path(other), left == right, "{text} {other}");
            let order = match left.cmp(right) {
                std::cmp::Ordering::Less => Order::Less,
                std::cmp::Ordering::Equal => Order::Equal,
                std::cmp::Ordering::Greater => Order::Greater,
            };
            assert_eq!(path(text).compare(&path(other)), order, "{text} {other}");
        }
    }
}

#[test]
fn entries_stand_in_their_directory() {
    assert_eq!(path("/a").child("b").as_str(), "/a/b");
    assert_eq!(path("/a/").child("b").as_str(), "/a/b");
    assert_eq!(path("").child("b").as_str(), "b");
    assert!(path("/a/").child("b").starts_with(&path("/a")));
    assert_eq!(path("/ä").byte_len(), 3);
}

#[test]
fn paths_sort_before_what_they_hold() {
    let sorted = sort(vec![
        path("/b"),
        path("/a-b"),
        path("/a/c"),
        path("/a"),
        path("x"),
        path("../x"),
    ]);
    let texts: Vec<_> = sorted.iter().map(|path| path.as_str()).collect();
    assert_eq!(texts, vec!["/a", "/a/c", "/a-b", "/b", "../x", "x"]);
}

#[test]
fn scopes_absorb_what_they_cover() {
    let scopes = settle(
        vec![path("/a/b"), path("/c")],
        vec![path("/a"), path("/c/d"), path("/0")],
    );
    assert_eq!(scopes, vec![path("/0"), path("/a"), path("/c")]);
    assert!(is_covered(&scopes, &path("/a/x")));
    assert!(!is_covered(&scopes, &path("/ab")));
}

#[test]
fn text_compares_searches_and_splits_by_character() {
    let chars = |text: &str| -> Vec<char> { text.chars().collect() };
    assert_eq!(compare_text(&chars("ab"), &chars("abc")), Order::Less);
    assert_eq!(compare_text(&chars("b"), &chars("abc")), Order::Greater);
    assert_eq!(compare_text(&chars("ä"), &chars("z")), Order::Greater);
    assert_eq!(find_text(&chars("aXbXc"), &chars("X"), 2), Some(3));
    assert_eq!(find_text(&chars("abc"), &chars("d"), 0), None);
    assert_eq!(find_text(&chars("abc"), &[], 3), Some(3));
    let words: Vec<String> = split_words(&chars(" one\u{a0}two\n"))
        .iter()
        .map(|word| text_of(word))
        .collect();
    assert_eq!(words, vec!["one", "two"]);
}

#[test]
fn white_space_is_that_of_unicode() {
    for code in 0..0x11_0000u32 {
        if let Some(character) = char::from_u32(code) {
            assert_eq!(is_white_space(character), character.is_whitespace(), "{code:x}");
        }
    }
}

#[test]
fn numbers_render_in_decimal() {
    assert_eq!(render(0), "0");
    assert_eq!(render(u64::MAX), u64::MAX.to_string());
    assert_eq!(render_signed(i64::MIN), i64::MIN.to_string());
    assert_eq!(render_signed(-7), "-7");
    assert_eq!(render_signed(1200), "1200");
}

#[test]
fn latin_characters_are_letters() {
    for (character, expected) in [
        ('@', false),
        ('A', true),
        ('Z', true),
        ('[', false),
        ('_', false),
        ('`', false),
        ('a', true),
        ('z', true),
        ('{', false),
        ('\u{bf}', false),
        ('\u{c0}', true),
        ('\u{d6}', true),
        ('\u{d7}', false),
        ('\u{d8}', true),
        ('\u{f6}', true),
        ('\u{f7}', false),
        ('\u{f8}', true),
        ('\u{24f}', true),
        ('\u{250}', true),
        ('\u{2af}', true),
        ('\u{2b9}', false),
        ('\u{391}', false),
        ('\u{1d26}', false),
        ('\u{1e00}', true),
        ('\u{1eff}', true),
        ('\u{1f00}', false),
        ('\u{2160}', false),
        ('\u{2c60}', true),
        ('\u{a721}', false),
        ('\u{a722}', true),
        ('\u{a788}', false),
        ('\u{ab30}', true),
        ('\u{ab5b}', false),
        ('\u{ab65}', false),
        ('\u{ff20}', false),
        ('\u{ff21}', true),
        ('\u{ff3b}', false),
        ('\u{ff5a}', true),
        ('\u{1df00}', true),
    ] {
        assert_eq!(is_latin(character), expected, "{character}");
    }
}
