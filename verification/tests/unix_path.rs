use fish_reader::unix_path::{path_is_absolute, path_join, path_parent, path_starts_with};
use fish_reader::wide::wide;
use std::path::Path;

fn text(s: Vec<char>) -> String {
    s.into_iter().collect()
}

/// All texts of up to six characters over an alphabet in which paths are odd.
fn odd_paths() -> Vec<String> {
    let mut all = vec![String::new()];
    let mut last = all.clone();
    for _ in 0..6 {
        let mut next = Vec::new();
        for path in &last {
            for c in ['/', '.', 'a'] {
                next.push(format!("{path}{c}"));
            }
        }
        all.extend(next.iter().cloned());
        last = next;
    }
    all
}

#[test]
fn parents_agree_with_std() {
    for path in odd_paths() {
        let expected = Path::new(&path).parent().map(|p| p.to_str().unwrap().to_string());
        assert_eq!(path_parent(&wide(&path)).map(text), expected, "parent of {path:?}");
    }
}

#[test]
fn starts_with_agrees_with_std() {
    let short: Vec<String> = odd_paths().into_iter().filter(|p| p.len() <= 4).collect();
    for path in odd_paths().iter().filter(|p| p.len() <= 5) {
        for base in &short {
            let expected = Path::new(path).starts_with(base);
            assert_eq!(
                path_starts_with(&wide(path), &wide(base)),
                expected,
                "{path:?} starts with {base:?}"
            );
        }
    }
}

#[test]
fn joins_agree_with_std() {
    let short: Vec<String> = odd_paths().into_iter().filter(|p| p.len() <= 4).collect();
    for base in &short {
        for path in &short {
            let expected = Path::new(base).join(path).to_str().unwrap().to_string();
            assert_eq!(text(path_join(&wide(base), &wide(path))), expected);
        }
        assert_eq!(path_is_absolute(&wide(base)), Path::new(base).is_absolute());
    }
}

#[test]
fn parents_of_ordinary_paths() {
    let parent = |p: &str| path_parent(&wide(p)).map(text);
    assert_eq!(parent("/home/u/dev").as_deref(), Some("/home/u"));
    assert_eq!(parent("/home").as_deref(), Some("/"));
    assert_eq!(parent("/"), None);
    assert_eq!(parent(""), None);
    assert_eq!(parent("a").as_deref(), Some(""));
    assert_eq!(parent("/a//b/./").as_deref(), Some("/a"));
}

#[test]
fn components_decide_not_characters() {
    assert!(path_starts_with(&wide("/home/user/x"), &wide("/home/user")));
    assert!(path_starts_with(&wide("/home/user"), &wide("/home//user/")));
    assert!(!path_starts_with(&wide("/home/user2"), &wide("/home/user")));
    assert!(!path_starts_with(&wide("home/user"), &wide("/home")));
}

#[test]
fn parent_of_a_joined_name_is_the_directory() {
    for dir in ["/", "/a", "/a/", "a/b", "", "./x", "/a//b/."] {
        let joined = path_join(&wide(dir), &wide(".git"));
        let parent = path_parent(&joined).unwrap();
        assert!(path_starts_with(&parent, &wide(dir)));
        assert!(path_starts_with(&wide(dir), &parent));
    }
}

#[test]
fn lying_within_is_transitive() {
    let (a, b, c) = (wide("/x/y/z"), wide("/x/y/"), wide("//x"));
    assert!(path_starts_with(&a, &a));
    assert!(path_starts_with(&a, &b) && path_starts_with(&b, &c) && path_starts_with(&a, &c));
}
