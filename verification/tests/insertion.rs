use fish_reader::path_jump::insertion::{
    expand_search_shorthand, format_path_for_insertion, resolve_tilde,
};
use fish_reader::wide::wide;

fn expand(term: &str) -> String {
    expand_search_shorthand(&wide(term)).into_iter().collect()
}

fn format_path(path: &str) -> String {
    format_path_for_insertion(&wide(path), Some(&wide("/home/u"))).into_iter().collect()
}

fn resolve(path: &str, home: Option<&str>) -> String {
    let home = home.map(wide);
    resolve_tilde(&wide(path), home.as_deref()).into_iter().collect()
}

#[test]
fn test_expand_search_shorthand_h_prefix() {
    assert_eq!(expand("h/foo"), "~/foo");
    assert_eq!(expand("h/"), "~/");
}

#[test]
fn test_expand_search_shorthand_no_prefix() {
    assert_eq!(expand("foo"), "foo");
    assert_eq!(expand("/usr/bin"), "/usr/bin");
    assert_eq!(expand(""), "");
}

#[test]
fn test_format_path_simple() {
    assert_eq!(format_path("/usr/bin"), "/usr/bin");
    assert_eq!(format_path("foo/bar"), "foo/bar");
}

#[test]
fn test_format_path_with_spaces() {
    assert_eq!(format_path("/my dir/file"), "'/my dir/file'");
}

#[test]
fn test_format_path_with_single_quote() {
    assert_eq!(format_path("/it's/a/path"), "'/it'\\''s/a/path'");
}

#[test]
fn test_format_path_with_various_metacharacters() {
    // Dollar sign
    assert_eq!(format_path("/foo$bar"), "'/foo$bar'");
    // Asterisk
    assert_eq!(format_path("/foo*"), "'/foo*'");
    // Parentheses
    assert_eq!(format_path("/(foo)"), "'/(foo)'");
}

#[test]
fn every_metacharacter_is_quoted() {
    for c in " \t()\\\"$&;|<>*?#{}".chars() {
        let path = format!("a{c}b");
        assert_eq!(format_path(&path), format!("'{path}'"));
    }
    assert_eq!(format_path("a'b"), "'a'\\''b'");
    // Other characters are inserted as they are.
    assert_eq!(format_path("/a[1]-b_c.d,e=f@g%h+i~j!k"), "/a[1]-b_c.d,e=f@g%h+i~j!k");
    assert_eq!(format_path(""), "");
}

#[test]
fn tilde_is_resolved_before_quoting() {
    assert_eq!(format_path("~/x y"), "'/home/u/x y'");
    assert_eq!(format_path("~/x"), "/home/u/x");
    let path = wide("~/x");
    let plain: String = format_path_for_insertion(&path, None).into_iter().collect();
    assert_eq!(plain, "~/x");
    let odd: String =
        format_path_for_insertion(&path, Some(&wide("/home/a b"))).into_iter().collect();
    assert_eq!(odd, "'/home/a b/x'");
}

#[test]
fn resolve_tilde_cases() {
    assert_eq!(resolve("~/a", Some("/home/u")), "/home/u/a");
    assert_eq!(resolve("~/", Some("/home/u")), "/home/u/");
    assert_eq!(resolve("~/a", Some("")), "/a");
    assert_eq!(resolve("~/a", None), "~/a");
    assert_eq!(resolve("~", Some("/home/u")), "~");
    assert_eq!(resolve("~x/a", Some("/home/u")), "~x/a");
    assert_eq!(resolve("/a/~/b", Some("/home/u")), "/a/~/b");
}

/// Read a word made of plain characters, single-quoted text and backslash escapes.
fn read_word(text: &str) -> Option<String> {
    let mut read = String::new();
    let mut chars = text.chars();
    while let Some(c) = chars.next() {
        if c == '\'' {
            loop {
                match chars.next()? {
                    '\'' => break,
                    c => read.push(c),
                }
            }
        } else if c == '\\' {
            read.push(chars.next()?);
        } else if " \t()\"$&;|<>*?#{}".contains(c) {
            return None;
        } else {
            read.push(c);
        }
    }
    Some(read)
}

#[test]
fn inserted_word_reads_back() {
    for path in ["/usr/bin", "/it's/a/path", "''", "a\\b c\\", "", "x'y\"z", "{#}", "é ü"] {
        assert_eq!(read_word(&format_path(path)).as_deref(), Some(path));
    }
}

#[test]
fn inserted_words_of_different_paths_differ() {
    assert_ne!(format_path("a b"), format_path("'a b'"));
    assert_ne!(format_path("a'b"), format_path("a\\'b"));
}

#[test]
fn shorthand_is_home() {
    assert_eq!(expand("h/doc"), expand("~/doc"));
    assert_eq!(resolve(&expand("h/doc"), Some("/home/u")), "/home/u/doc");
    // Only the prefix counts.
    assert_eq!(expand("a/h/doc"), "a/h/doc");
    assert_eq!(expand("h"), "h");
}
