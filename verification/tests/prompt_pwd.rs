use fish_reader::native_prompt::decimal::parse_usize_from_wstr;
use fish_reader::native_prompt::pwd::prompt_pwd_into;
use fish_reader::wide::wide;

fn pwd(path: &str, home: &str, dir_len: usize, full_dirs: usize) -> String {
    let mut out = Vec::new();
    prompt_pwd_into(&mut out, &wide(path), &wide(home), dir_len, full_dirs);
    out.into_iter().collect()
}

#[test]
fn pwd_shortens_middle_components() {
    assert_eq!(pwd("/home/u/dev/fish-shell", "/home/u", 1, 1), "~/d/fish-shell");
}

#[test]
fn pwd_no_shorten_when_zero() {
    assert_eq!(pwd("/home/u/dev/fish-shell", "/home/u", 0, 1), "~/dev/fish-shell");
}

#[test]
fn pwd_root() {
    assert_eq!(pwd("/", "/home/u", 1, 1), "/");
}

#[test]
fn pwd_preserves_leading_dot() {
    assert_eq!(pwd("/home/u/.config/fish", "/home/u", 1, 1), "~/.c/fish");
}

#[test]
fn pwd_home_exactly() {
    assert_eq!(pwd("/home/u", "/home/u", 1, 1), "~");
}

#[test]
fn pwd_no_tilde_when_outside_home() {
    assert_eq!(pwd("/var/log/syslog", "/home/u", 1, 1), "/v/l/syslog");
}

#[test]
fn pwd_no_false_tilde_on_prefix_match() {
    // /home/user2 should NOT match home=/home/user
    assert_eq!(pwd("/home/user2/foo", "/home/user", 1, 1), "/h/u/foo");
}

#[test]
fn parse_usize_works() {
    assert_eq!(parse_usize_from_wstr(&wide("0")), Some(0));
    assert_eq!(parse_usize_from_wstr(&wide("42")), Some(42));
    assert_eq!(parse_usize_from_wstr(&wide("")), None);
    assert_eq!(parse_usize_from_wstr(&wide("x")), None);
}

#[test]
fn parse_usize_limits() {
    let max = usize::MAX.to_string();
    assert_eq!(parse_usize_from_wstr(&wide(&max)), Some(usize::MAX));
    assert_eq!(parse_usize_from_wstr(&wide(&format!("000{max}"))), Some(usize::MAX));
    assert_eq!(parse_usize_from_wstr(&wide(&format!("{max}0"))), None);
    assert_eq!(parse_usize_from_wstr(&wide("18446744073709551616")), None);
    for text in ["-1", "+1", " 1", "1 ", "1x", "x1", "/", ":", "\u{661}"] {
        assert_eq!(parse_usize_from_wstr(&wide(text)), None);
    }
}

#[test]
fn numbers_parse_back_from_their_digits() {
    for n in [0usize, 7, 10, 99, 100, 65535, 1 << 40, usize::MAX - 1] {
        assert_eq!(parse_usize_from_wstr(&wide(&n.to_string())), Some(n));
    }
}

#[test]
fn pwd_is_appended() {
    let mut out = wide("at ");
    prompt_pwd_into(&mut out, &wide("/usr/lib"), &wide(""), 1, 1);
    assert_eq!(out.into_iter().collect::<String>(), "at /u/lib");
}

#[test]
fn pwd_lengths_and_full_components() {
    assert_eq!(pwd("/usr/local/share/fish", "", 2, 1), "/us/lo/sh/fish");
    assert_eq!(pwd("/usr/local/share/fish", "", 2, 2), "/us/lo/share/fish");
    assert_eq!(pwd("/usr/local/share/fish", "", 1, 0), "/u/l/s/f");
    assert_eq!(pwd("/home/u/a.b/...x/y", "/home/u", 1, 1), "~/a/../y");
    // The tilde is not shortened, nor is it one of the components that are.
    assert_eq!(pwd("/home/u/abc", "/home/u", 1, 0), "~/a");
    assert_eq!(pwd("/home/u", "/home/u", 1, 0), "~");
}

#[test]
fn pwd_odd_slashes() {
    assert_eq!(pwd("", "", 1, 1), "");
    assert_eq!(pwd("", "/home/u", 1, 1), "");
    assert_eq!(pwd("relative/path", "", 1, 1), "r/path");
    assert_eq!(pwd("/usr/lib/", "", 1, 1), "/u/l/");
    assert_eq!(pwd("//usr//lib", "", 1, 1), "//u//lib");
    assert_eq!(pwd("/home/u/", "/home/u", 1, 1), "~/");
    // A home of "/" covers only the root and what follows a double slash.
    assert_eq!(pwd("/", "/", 1, 1), "~");
    assert_eq!(pwd("/usr/lib", "/", 1, 1), "/u/lib");
    assert_eq!(pwd("//usr", "/", 1, 1), "~/usr");
}

#[test]
fn pwd_wide_characters_and_large_settings() {
    assert_eq!(pwd("/äöü/ß/日本", "", 1, 1), "/ä/ß/日本");
    assert_eq!(pwd("/.abc/def", "", usize::MAX, 0), "/.abc/def");
    assert_eq!(pwd("/.abc/def", "", 1, usize::MAX), "/.abc/def");
}

#[test]
fn components_are_kept() {
    let path = "/home/u/one/.two/three//four/";
    for dir_len in 1..6 {
        for full_dirs in 0..9 {
            let shown = pwd(path, "/home/u", dir_len, full_dirs);
            let parts: Vec<&str> = "/one/.two/three//four/".split('/').collect();
            let shown: Vec<&str> = shown.split('/').collect();
            assert_eq!(shown.len(), parts.len());
            assert_eq!(shown[0], "~");
            for i in 1..parts.len() {
                assert!(parts[i].starts_with(shown[i]));
                if i + full_dirs >= parts.len() {
                    assert_eq!(shown[i], parts[i]);
                } else {
                    let dot = usize::from(parts[i].starts_with('.'));
                    assert_eq!(shown[i].len(), parts[i].len().min(dir_len + dot));
                }
            }
        }
    }
}

#[test]
fn all_components_full_is_unshortened() {
    assert_eq!(
        pwd("/home/u/dev/fish-shell", "/home/u", 3, 3),
        pwd("/home/u/dev/fish-shell", "/home/u", 0, 3),
    );
    assert_eq!(pwd("/var/log", "/home/u", 1, 3), "/var/log");
}

#[test]
fn home_is_tilde_whatever_the_settings() {
    for dir_len in 0..4 {
        for full_dirs in 0..4 {
            assert_eq!(pwd("/home/u", "/home/u", dir_len, full_dirs), "~");
        }
    }
}
