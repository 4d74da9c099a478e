use rust_git::text::{contains_text, find_char, join_path, split_lines, starts_with_text, text_lt, trim_text};

#[test]
fn order_of_texts_is_that_of_strings() {
    let words = ["", "a", "A", "ab", "b", "é", "a/b", "a.b", "z", "Z", "日本"];
    for x in words {
        for y in words {
            assert_eq!(text_lt(x, y), x < y, "{} {}", x, y);
        }
    }
}

#[test]
fn trim_removes_unicode_white_space() {
    assert_eq!(trim_text("  a b \n"), "a b");
    assert_eq!(trim_text("\u{3000}x\u{a0}"), "x");
    assert_eq!(trim_text(" \t\n "), "");
    assert_eq!(trim_text(""), "");
    assert_eq!(trim_text("\u{200b}x"), "\u{200b}x");
    for s in ["  a  ", "\r\nq\r\n", "\u{85}z\u{2028}", "x\u{1680}"] {
        assert_eq!(trim_text(s), s.trim());
    }
}

#[test]
fn lines_like_str_lines() {
    for s in ["", "a", "a\n", "a\nb", "a\r\nb\r\n", "\n\n", "x\r", "a\rb\n", "\r\n"] {
        let mine = split_lines(s);
        let std: Vec<String> = s.lines().map(|l| l.to_string()).collect();
        assert_eq!(mine, std, "{:?}", s);
    }
}

#[test]
fn join_like_path_join() {
    assert_eq!(join_path(".", "a"), "./a");
    assert_eq!(join_path("", "a"), "a");
    assert_eq!(join_path("a/", "b"), "a/b");
    assert_eq!(join_path("a", "/b"), "/b");
    assert_eq!(join_path("a", ""), "a/");
    for (b, n) in [(".", "x"), ("", "y"), ("d/", "z"), ("d", "/abs"), ("d", "")] {
        let p = std::path::Path::new(b).join(n);
        assert_eq!(join_path(b, n), p.to_str().unwrap());
    }
}

#[test]
fn searching() {
    assert_eq!(find_char("a/b/c", '/'), Some(1));
    assert_eq!(find_char("abc", '/'), None);
    assert!(starts_with_text("ref: x", "ref: "));
    assert!(!starts_with_text("re", "ref"));
    assert!(contains_text("a/.git/b", "/.git"));
    assert!(!contains_text("a.git", "/.git"));
    assert!(contains_text("x", ""));
}
