use fish_reader::native_prompt::decimal::push_decimal;
use fish_reader::native_prompt::git::{
    find_git_dir_step, git_branch_start, git_file_step, DotGit, GitStep, Repo,
};
use fish_reader::native_prompt::head::{
    push_ascii, read_head_into, resolve_gitdir_file, GIT_FILE_LIMIT, HEAD_LIMIT,
};
use fish_reader::native_prompt::{
    finish_left_prompt, try_native_left_prompt, ColorKit, PromptState, PromptVars,
};
use fish_reader::wide::{wide, WString};
use std::collections::BTreeMap;

fn text(s: &[char]) -> String {
    s.iter().collect()
}

// ---- HEAD ----

fn label(contents: &[u8]) -> String {
    let mut out = Vec::new();
    let written = read_head_into(Some(contents), &mut out);
    assert_eq!(written, !out.is_empty());
    text(&out)
}

#[test]
fn branch_of_head() {
    assert_eq!(label(b"ref: refs/heads/main\n"), " main");
    assert_eq!(label(b"ref: refs/heads/feature/x y\n"), " feature/x y");
    assert_eq!(label(b"ref: refs/remotes/origin/main\n"), " refs/remotes/origin/main");
    assert_eq!(label(b"ref: refs/heads/main \t\r\n\n"), " main");
}

#[test]
fn detached_head_shows_eight_characters() {
    assert_eq!(label(b"0123456789abcdef0123456789abcdef01234567\n"), " 01234567");
    assert_eq!(label(b"0123456\n"), " 0123456");
    assert_eq!(label(b"01234567\n"), " 01234567");
}

#[test]
fn unusable_heads_write_nothing() {
    for contents in [&b""[..], b"\n", b"ref: refs/heads/ \xc2\xa0\n", b"\xff\xfe", b"abc\xe2\x82"] {
        let mut out = wide("x");
        assert!(!read_head_into(Some(contents), &mut out));
        assert_eq!(text(&out), "x");
    }
    let mut out = wide("x");
    assert!(!read_head_into(None, &mut out));
    assert_eq!(text(&out), "x");
    // The space of the prefix is lost with the end of the line.
    assert_eq!(label(b"ref: \n"), " ref:");
}

#[test]
fn branch_is_shown_as_it_is_written() {
    assert_eq!(label("ref: refs/heads/é\n".as_bytes()), " é");
    assert_eq!(label("ref: refs/heads/ветка/日本-🐟\n".as_bytes()), " ветка/日本-🐟");
    assert_eq!(label("ref: refs/tags/ü\n".as_bytes()), " refs/tags/ü");
}

#[test]
fn ascii_is_pushed_one_character_per_byte() {
    let mut out = wide(">");
    push_ascii(&mut out, "main");
    assert_eq!(text(&out), ">main");
    push_ascii(&mut out, "é");
    assert_eq!(text(&out), ">main\u{c3}\u{a9}");
}

#[test]
fn detached_head_is_cut_at_a_character() {
    // The eighth byte lies inside of a character.
    assert_eq!(label("1234567é".as_bytes()), " 1234567");
    assert_eq!(label("1234567é9".as_bytes()), " 1234567");
    assert_eq!(label("12345日8".as_bytes()), " 12345日");
    assert_eq!(label("123456日".as_bytes()), " 123456");
    assert_eq!(label("12345🐟".as_bytes()), " 12345");
    assert_eq!(label("123456é89".as_bytes()), " 123456é");
    assert_eq!(label("🐟🐟🐟".as_bytes()), " 🐟🐟");
    assert_eq!(label("ref: 67é9".as_bytes()), " 67é9");
}

#[test]
fn beginning_is_what_std_finds_at_a_boundary() {
    for c in '\0'..=char::MAX {
        let line = format!("12345{c}x{c}y");
        let end = (0..=8.min(line.len())).rev().find(|&i| line.is_char_boundary(i)).unwrap();
        assert_eq!(label(line.as_bytes()), format!(" {}", &line[..end]));
    }
}

#[test]
fn white_space_at_the_end_is_what_std_trims() {
    for c in '\0'..=char::MAX {
        let line = format!("ref: refs/heads/x{c}");
        let expected = &line.trim_end()["ref: refs/heads/".len()..];
        assert_eq!(label(line.as_bytes()), format!(" {expected}"));
    }
}

#[test]
fn read_limits() {
    assert_eq!((GIT_FILE_LIMIT, HEAD_LIMIT), (512, 256));
}

// ---- .git files ----

fn gitdir(path: &str, contents: &[u8]) -> Option<String> {
    resolve_gitdir_file(&wide(path), Some(contents)).map(|dir| text(&dir))
}

#[test]
fn gitdir_files_are_followed() {
    assert_eq!(
        gitdir("/w/.git", b"gitdir: /repo/.git/worktrees/w\n").as_deref(),
        Some("/repo/.git/worktrees/w")
    );
    assert_eq!(
        gitdir("/repo/sub/.git", b" \n\tgitdir: ../.git/modules/sub \n").as_deref(),
        Some("/repo/sub/../.git/modules/sub")
    );
    assert_eq!(gitdir(".git", b"gitdir: x").as_deref(), Some("x"));
    assert_eq!(gitdir("", b"gitdir: x"), None);
    assert_eq!(gitdir("", b"gitdir: /x").as_deref(), Some("/x"));
}

#[test]
fn bad_gitdir_files_lead_nowhere() {
    assert_eq!(gitdir("/w/.git", b""), None);
    assert_eq!(gitdir("/w/.git", b"gitdir:/repo"), None);
    assert_eq!(gitdir("/w/.git", b"gitdir: \n"), None);
    assert_eq!(gitdir("/w/.git", b"gitdir: /r\xff"), None);
    assert_eq!(resolve_gitdir_file(&wide("/w/.git"), None), None);
}

// ---- the search ----

/// What a path is in a small file system.
enum Node {
    Dir,
    File(&'static [u8]),
    Link,
}

struct Fs {
    nodes: BTreeMap<&'static str, Node>,
    looked: std::cell::RefCell<Vec<String>>,
}

impl Fs {
    fn new(nodes: Vec<(&'static str, Node)>) -> Fs {
        Fs { nodes: nodes.into_iter().collect(), looked: Default::default() }
    }

    fn entry(&self, path: &[char]) -> DotGit {
        self.looked.borrow_mut().push(text(path));
        match self.nodes.get(text(path).as_str()) {
            None => DotGit::Missing,
            Some(Node::Dir) => DotGit::Directory,
            Some(Node::File(_)) => DotGit::File,
            Some(Node::Link) => DotGit::Other,
        }
    }

    fn read(&self, path: &[char]) -> Option<&[u8]> {
        match self.nodes.get(text(path).as_str()) {
            Some(Node::File(contents)) => Some(contents),
            _ => None,
        }
    }

    fn search(&self, mut step: GitStep) -> Option<Repo> {
        loop {
            step = match step {
                GitStep::Probe { dir, dot_git } => find_git_dir_step(&dir, self.entry(&dot_git)),
                GitStep::ReadGitFile { dir, dot_git } => {
                    git_file_step(&dir, self.read(&dot_git))
                }
                GitStep::ReadHead { repo } => return Some(repo),
                GitStep::NoRepo => return None,
            };
        }
    }

    fn find(&self, cache: &Option<Repo>, cwd: &str) -> Option<Repo> {
        self.search(git_branch_start(cache, &wide(cwd)))
    }

    fn found(&self, cwd: &str) -> Option<(String, String)> {
        self.find(&None, cwd).map(|repo| (text(&repo.root), text(&repo.head)))
    }
}

fn pair(root: &str, head: &str) -> Option<(String, String)> {
    Some((root.to_string(), head.to_string()))
}

#[test]
fn nearest_dot_git_decides() {
    let fs = Fs::new(vec![
        ("/r/.git", Node::Dir),
        ("/r/a/b/.git", Node::Dir),
        ("/r/a/b/c/.git", Node::Link),
    ]);
    assert_eq!(fs.found("/r/a/b/c/d"), pair("/r/a/b", "/r/a/b/.git/HEAD"));
    assert_eq!(fs.found("/r/a"), pair("/r", "/r/.git/HEAD"));
    assert_eq!(fs.found("/r"), pair("/r", "/r/.git/HEAD"));
}

#[test]
fn no_dot_git_no_repo() {
    let fs = Fs::new(vec![("/x/.git", Node::Dir)]);
    assert_eq!(fs.found("/y/z"), None);
    assert_eq!(*fs.looked.borrow(), ["/y/z/.git", "/y/.git", "/.git"]);
    assert_eq!(fs.found("rel/dir"), None);
    assert_eq!(fs.looked.borrow()[3..], ["rel/dir/.git", "rel/.git", ".git"]);
    assert_eq!(fs.found(""), None);
}

#[test]
fn git_files_lead_to_the_git_directory() {
    let fs = Fs::new(vec![
        ("/r/.git", Node::Dir),
        ("/w/.git", Node::File(b"gitdir: /r/.git/worktrees/w\n")),
        ("/r/sub/.git", Node::File(b"gitdir: ../.git/modules/sub\n")),
        ("/r/bad/.git", Node::File(b"nonsense\n")),
    ]);
    // The root is the directory that holds the file.
    assert_eq!(fs.found("/w"), pair("/w", "/r/.git/worktrees/w/HEAD"));
    assert_eq!(fs.found("/w/x"), pair("/w", "/r/.git/worktrees/w/HEAD"));
    assert_eq!(fs.found("/r/sub"), pair("/r/sub", "/r/sub/../.git/modules/sub/HEAD"));
    // A file that leads nowhere ends the search, though there is a repository above.
    assert_eq!(fs.found("/r/bad/x"), None);
}

#[test]
fn found_repo_is_reused() {
    let fs = Fs::new(vec![("/r/.git", Node::Dir), ("/r/inner/.git", Node::Dir)]);
    let repo = fs.find(&None, "/r/a");
    fs.looked.borrow_mut().clear();
    for cwd in ["/r/a", "/r", "/r/a/b/c", "/r/inner"] {
        let again = fs.find(&repo, cwd).unwrap();
        assert_eq!((text(&again.root), text(&again.head)), pair("/r", "/r/.git/HEAD").unwrap());
    }
    assert!(fs.looked.borrow().is_empty());
    // Outside of it the search starts anew.
    assert!(fs.find(&repo, "/r2").is_none());
    assert_eq!(*fs.looked.borrow(), ["/r2/.git", "/.git"]);
}

#[test]
fn found_worktree_is_reused() {
    let fs = Fs::new(vec![("/w/.git", Node::File(b"gitdir: /m/.git/worktrees/w\n"))]);
    let repo = fs.find(&None, "/w/a");
    fs.looked.borrow_mut().clear();
    for cwd in ["/w", "/w/a", "/w/a/b"] {
        let again = fs.find(&repo, cwd).unwrap();
        let found = (text(&again.root), text(&again.head));
        assert_eq!(found, pair("/w", "/m/.git/worktrees/w/HEAD").unwrap());
    }
    assert!(fs.looked.borrow().is_empty());
}

#[test]
fn repo_of_the_directory_above() {
    let fs = Fs::new(vec![("/r/.git", Node::Dir), ("/r//.git", Node::Dir)]);
    assert_eq!(fs.found("/r/c"), fs.found("/r"));
    // Other spellings of the same directories.
    for cwd in ["/r//c/", "/r/./c", "/r/c/.", "/r//", "/r/"] {
        let (root, head) = fs.found(cwd).unwrap();
        assert_eq!(std::path::Path::new(&root), std::path::Path::new("/r"));
        assert_eq!(std::path::Path::new(&head), std::path::Path::new("/r/.git/HEAD"));
    }
}

// ---- the prompt ----

#[test]
fn numbers_are_written_as_std_writes_them() {
    for n in [0, 1, 9, 10, 99, 100, 127, 130, 255, i32::MAX, -1, -10, i32::MIN] {
        let mut out = wide("n");
        push_decimal(&mut out, n);
        assert_eq!(text(&out), format!("n{n}"));
    }
}

fn list(values: &[&str]) -> Option<Vec<WString>> {
    Some(values.iter().map(|v| wide(v)).collect())
}

fn vars(pwd: &str) -> PromptVars {
    PromptVars {
        native_prompt: true,
        pwd: list(&[pwd]),
        status: 0,
        denv_dirty: None,
        user: Some(wide("me")),
        hostname: Some(wide("box")),
        home: list(&["/home/me"]),
        dir_length: None,
        full_dirs: None,
    }
}

fn kit() -> ColorKit {
    ColorKit { brgreen: wide("<g>"), red: wide("<r>"), reset: wide("<0>") }
}

fn render(st: &mut PromptState, vars: &PromptVars, fs: &Fs) -> Option<String> {
    let mut out = wide("left over");
    let step = try_native_left_prompt(st, vars, kit(), &mut out)?;
    let repo = fs.search(step);
    let head_path = repo.as_ref().map(|repo| repo.head.clone());
    let head = head_path.and_then(|path| fs.read(&path));
    finish_left_prompt(st, repo, head, vars.status, &mut out);
    Some(text(&out))
}

fn repo_fs() -> Fs {
    Fs::new(vec![
        ("/home/me/dev/proj/.git", Node::Dir),
        ("/home/me/dev/proj/.git/HEAD", Node::File(b"ref: refs/heads/main\n")),
        ("/home/me/broken/.git", Node::Dir),
    ])
}

#[test]
fn prompt_in_a_repository() {
    let mut st = PromptState::new();
    let shown = render(&mut st, &vars("/home/me/dev/proj/src"), &repo_fs());
    assert_eq!(shown.as_deref(), Some("me@box <g>~/d/p/src<0> main $ "));
    assert_eq!(text(&st.git.as_ref().unwrap().root), "/home/me/dev/proj");
}

#[test]
fn prompt_outside_of_repositories() {
    let mut st = PromptState::new();
    assert_eq!(render(&mut st, &vars("/etc"), &repo_fs()).as_deref(), Some("me@box <g>/etc<0> $ "));
    assert!(st.git.is_none());
    // A repository whose HEAD cannot be read is kept, and no branch is shown.
    let shown = render(&mut st, &vars("/home/me/broken"), &repo_fs());
    assert_eq!(shown.as_deref(), Some("me@box <g>~/broken<0> $ "));
    assert!(st.git.is_some());
}

#[test]
fn status_sets_the_directory_color_and_is_told() {
    let mut st = PromptState::new();
    let mut v = vars("/etc");
    v.status = 1;
    assert_eq!(render(&mut st, &v, &repo_fs()).as_deref(), Some("me@box <r>/etc<0> 1 $ "));
    v.status = 130;
    assert_eq!(render(&mut st, &v, &repo_fs()).as_deref(), Some("me@box <r>/etc<0> 130 $ "));
    v.status = -1;
    assert_eq!(render(&mut st, &v, &repo_fs()).as_deref(), Some("me@box <r>/etc<0> -1 $ "));
    v.status = 0;
    assert_eq!(render(&mut st, &v, &repo_fs()).as_deref(), Some("me@box <g>/etc<0> $ "));
    // Behind the branch, where there is one.
    v = vars("/home/me/dev/proj");
    v.status = 2;
    let shown = render(&mut st, &v, &repo_fs());
    assert_eq!(shown.as_deref(), Some("me@box <r>~/d/proj<0> main 2 $ "));
}

#[test]
fn dirty_environment_is_marked() {
    let mut st = PromptState::new();
    let mut v = vars("/etc");
    v.denv_dirty = list(&["1"]);
    assert_eq!(render(&mut st, &v, &repo_fs()).as_deref(), Some("me@box <g>/etc*<0> $ "));
    v.status = 1;
    assert_eq!(render(&mut st, &v, &repo_fs()).as_deref(), Some("me@box <r>/etc*<0> 1 $ "));
    v.status = 0;
    for other in [list(&["0"]), list(&[]), list(&["11"]), list(&["0", "1"])] {
        v.denv_dirty = other;
        assert_eq!(render(&mut st, &v, &repo_fs()).as_deref(), Some("me@box <g>/etc<0> $ "));
    }
}

#[test]
fn falls_back_without_native_prompt_or_pwd() {
    let mut st = PromptState::new();
    let mut out = wide("kept");
    let mut v = vars("/etc");
    v.native_prompt = false;
    assert!(try_native_left_prompt(&mut st, &v, kit(), &mut out).is_none());
    v.native_prompt = true;
    v.pwd = None;
    assert!(try_native_left_prompt(&mut st, &v, kit(), &mut out).is_none());
    assert_eq!(text(&out), "kept");
    assert!(st.colors.is_none() && st.user_host.is_none() && st.home.is_none());
}

#[test]
fn missing_values_are_empty() {
    let mut st = PromptState::new();
    let mut v = vars("");
    v.pwd = list(&[]);
    v.user = None;
    v.hostname = None;
    v.home = list(&[]);
    assert_eq!(render(&mut st, &v, &repo_fs()).as_deref(), Some("@ <g><0> $ "));
}

#[test]
fn directory_settings_are_read() {
    for (dir_length, full_dirs, expected) in [
        (list(&["2"]), None, "~/de/pr/src"),
        (list(&["0"]), None, "~/dev/proj/src"),
        (None, list(&["2"]), "~/d/proj/src"),
        (list(&["x"]), list(&[]), "~/d/p/src"),
        (list(&["3", "1"]), list(&["0"]), "~/dev/pro/src"),
    ] {
        let mut st = PromptState::new();
        let mut v = vars("/home/me/dev/proj/src");
        v.dir_length = dir_length;
        v.full_dirs = full_dirs;
        let shown = render(&mut st, &v, &Fs::new(vec![])).unwrap();
        assert_eq!(shown, format!("me@box <g>{expected}<0> $ "));
    }
}

#[test]
fn next_prompt_is_the_same() {
    let fs = repo_fs();
    let mut st = PromptState::new();
    let first = render(&mut st, &vars("/home/me/dev/proj/src"), &fs);
    let mut later = vars("/home/me/dev/proj/src");
    later.user = Some(wide("other"));
    later.hostname = None;
    later.home = None;
    later.dir_length = list(&["5"]);
    later.full_dirs = list(&["5"]);
    assert_eq!(render(&mut st, &later, &fs), first);
    // In another directory the first settings still hold.
    later.pwd = list(&["/home/me/docs/old"]);
    assert_eq!(render(&mut st, &later, &fs).as_deref(), Some("me@box <g>~/d/old<0> $ "));
}
