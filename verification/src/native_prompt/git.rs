//! Finding the repository that a directory belongs to.
//!
//! The search is a sequence of steps. Each [`GitStep`] says what has to be looked up in the file
//! system, and what was found there leads to the next step.

use crate::native_prompt::head::{
    contents_view, gitdir_target, is_white_space, law_gitdir_is_followed, resolve_gitdir_file,
    resolved_gitdir,
};
use crate::segments::is_segment;
use crate::unix_path::{
    components, joined, law_lies_within_is_an_order, law_lies_within_is_by_component,
    law_parent_drops_last_component, law_parent_of_join, law_parent_of_name,
    law_spelling_makes_no_difference, lies_within, parent, path_join, path_parent,
    path_starts_with,
};
use crate::wide::{to_wide, wide, WString};
use vstd::prelude::*;
use vstd::utf8::encode_utf8;

verus! {

/// A repository: its root, which is the directory that holds `.git`, and the path of its `HEAD`
/// file.
pub struct Repo {
    pub root: WString,
    pub head: WString,
}

#[verifier::ext_equal]
pub struct RepoView {
    pub root: Seq<char>,
    pub head: Seq<char>,
}

impl View for Repo {
    type V = RepoView;

    open spec fn view(&self) -> RepoView {
        RepoView { root: self.root@, head: self.head@ }
    }
}

pub open spec fn repo_view(repo: Option<Repo>) -> Option<RepoView> {
    match repo {
        Some(repo) => Some(repo@),
        None => None,
    }
}

/// What stands in the file system under the name `.git`, links not followed.
#[derive(Clone, Copy, Debug, PartialEq, Eq, Structural)]
pub enum DotGit {
    /// Nothing, or nothing that can be looked at.
    Missing,
    Directory,
    File,
    /// A link, for instance.
    Other,
}

/// The next thing to do to find the repository of a directory.
pub enum GitStep {
    /// Look at `dot_git`, which is `.git` in the directory `dir`.
    Probe { dir: WString, dot_git: WString },
    /// Read `dot_git`, the `.git` file of the worktree or submodule in `dir`.
    ReadGitFile { dir: WString, dot_git: WString },
    /// The repository is known: read its `HEAD`.
    ReadHead { repo: Repo },
    /// There is no repository.
    NoRepo,
}

#[verifier::ext_equal]
pub enum GitStepView {
    Probe { dir: Seq<char>, dot_git: Seq<char> },
    ReadGitFile { dir: Seq<char>, dot_git: Seq<char> },
    ReadHead { repo: RepoView },
    NoRepo,
}

impl View for GitStep {
    type V = GitStepView;

    open spec fn view(&self) -> GitStepView {
        match self {
            GitStep::Probe { dir, dot_git } => GitStepView::Probe {
                dir: dir@,
                dot_git: dot_git@,
            },
            GitStep::ReadGitFile { dir, dot_git } => GitStepView::ReadGitFile {
                dir: dir@,
                dot_git: dot_git@,
            },
            GitStep::ReadHead { repo } => GitStepView::ReadHead { repo: repo@ },
            GitStep::NoRepo => GitStepView::NoRepo,
        }
    }
}

/// The path of `.git` in a directory.
pub open spec fn dot_git_in(dir: Seq<char>) -> Seq<char> {
    joined(dir, ".git"@)
}

pub open spec fn probe(dir: Seq<char>) -> GitStepView {
    GitStepView::Probe { dir, dot_git: dot_git_in(dir) }
}

/// The repository whose `.git` stands in `dir` and is, or leads to, the git directory `git_dir`.
pub open spec fn repo_at(dir: Seq<char>, git_dir: Seq<char>) -> RepoView {
    RepoView { root: dir, head: joined(git_dir, "HEAD"@) }
}

/// The search begins with the repository that was found last, if `cwd` is still inside it, and
/// in `cwd` otherwise.
pub open spec fn first_step(cache: Option<RepoView>, cwd: Seq<char>) -> GitStepView {
    match cache {
        Some(repo) if lies_within(cwd, repo.root) => GitStepView::ReadHead { repo },
        _ => probe(cwd),
    }
}

pub open spec fn step_into(dir: Seq<char>, git_dir: Option<Seq<char>>) -> GitStepView {
    match git_dir {
        Some(git_dir) => GitStepView::ReadHead { repo: repo_at(dir, git_dir) },
        None => GitStepView::NoRepo,
    }
}

/// A directory `.git` is the git directory, a file leads to it, and otherwise the search goes on
/// in the parent directory.
pub open spec fn step_after_probe(dir: Seq<char>, found: DotGit) -> GitStepView {
    match found {
        DotGit::Directory => step_into(dir, Some(dot_git_in(dir))),
        DotGit::File => GitStepView::ReadGitFile { dir, dot_git: dot_git_in(dir) },
        DotGit::Missing | DotGit::Other => match parent(dir) {
            Some(up) => probe(up),
            None => GitStepView::NoRepo,
        },
    }
}

/// The search ends with a `.git` file, whether it leads to a git directory or not.
pub open spec fn step_after_git_file(dir: Seq<char>, contents: Option<Seq<u8>>) -> GitStepView {
    step_into(dir, resolved_gitdir(dot_git_in(dir), contents))
}

fn probe_in(dir: &[char]) -> (step: GitStep)
    ensures
        step@ == probe(dir@),
{
    let dot_git = path_join(dir, &wide(".git"));
    GitStep::Probe { dir: to_wide(dir), dot_git }
}

fn enter_git_dir(dir: &[char], git_dir: &[char]) -> (step: GitStep)
    ensures
        step@ == step_into(dir@, Some(git_dir@)),
{
    let head = path_join(git_dir, &wide("HEAD"));
    GitStep::ReadHead { repo: Repo { root: to_wide(dir), head } }
}

/// Begin to look for the repository of `cwd`. Inside of the repository `cache`, found before, no
/// directory is looked at.
pub fn git_branch_start(cache: &Option<Repo>, cwd: &[char]) -> (step: GitStep)
    ensures
        step@ == first_step(repo_view(*cache), cwd@),
{
    if let Some(repo) = cache {
        if path_starts_with(cwd, &repo.root) {
            return GitStep::ReadHead {
                repo: Repo { root: to_wide(&repo.root), head: to_wide(&repo.head) },
            };
        }
    }
    probe_in(cwd)
}

/// Walk the ancestors of a directory looking for `.git`: what to do once `found` has been seen
/// under that name in `dir`.
pub fn find_git_dir_step(dir: &[char], found: DotGit) -> (step: GitStep)
    ensures
        step@ == step_after_probe(dir@, found),
{
    match found {
        DotGit::Directory => enter_git_dir(dir, &path_join(dir, &wide(".git"))),
        DotGit::File => GitStep::ReadGitFile {
            dir: to_wide(dir),
            dot_git: path_join(dir, &wide(".git")),
        },
        DotGit::Missing | DotGit::Other => match path_parent(dir) {
            Some(up) => probe_in(&up),
            None => GitStep::NoRepo,
        },
    }
}

/// What to do once the `.git` file in `dir` has been read. `contents` is `None` where that
/// failed.
pub fn git_file_step(dir: &[char], contents: Option<&[u8]>) -> (step: GitStep)
    ensures
        step@ == step_after_git_file(dir@, contents_view(contents)),
{
    let dot_git = path_join(dir, &wide(".git"));
    match resolve_gitdir_file(&dot_git, contents) {
        Some(git_dir) => enter_git_dir(dir, &git_dir),
        None => GitStep::NoRepo,
    }
}

/// How far a step is from the end of the search.
pub open spec fn steps_left(step: GitStepView) -> nat {
    match step {
        GitStepView::Probe { dir, .. } => dir.len() + 2,
        GitStepView::ReadGitFile { .. } => 1,
        _ => 0,
    }
}

/// The repository at the end of a search, in a file system where `.git` is what `entry` says and
/// files hold what `file` says.
pub open spec fn search(
    step: GitStepView,
    entry: spec_fn(Seq<char>) -> DotGit,
    file: spec_fn(Seq<char>) -> Option<Seq<u8>>,
) -> Option<RepoView>
    decreases steps_left(step),
{
    match step {
        GitStepView::Probe { dir, dot_git } => {
            proof {
                law_parent_drops_last_component(dir);
            }
            search(step_after_probe(dir, entry(dot_git)), entry, file)
        },
        GitStepView::ReadGitFile { dir, dot_git } => search(
            step_after_git_file(dir, file(dot_git)),
            entry,
            file,
        ),
        GitStepView::ReadHead { repo } => Some(repo),
        GitStepView::NoRepo => None,
    }
}

/// The directory `n` levels above `dir`, where there is one.
pub open spec fn ancestor(dir: Seq<char>, n: nat) -> Option<Seq<char>>
    decreases n,
{
    if n == 0 {
        Some(dir)
    } else {
        match parent(dir) {
            Some(up) => ancestor(up, (n - 1) as nat),
            None => None,
        }
    }
}

/// Whether the search stops in `dir`.
pub open spec fn has_dot_git(dir: Seq<char>, entry: spec_fn(Seq<char>) -> DotGit) -> bool {
    entry(dot_git_in(dir)) == DotGit::Directory || entry(dot_git_in(dir)) == DotGit::File
}

/// The git directory that `.git` in `dir` is or leads to.
pub open spec fn git_dir_of(
    dir: Seq<char>,
    entry: spec_fn(Seq<char>) -> DotGit,
    file: spec_fn(Seq<char>) -> Option<Seq<u8>>,
) -> Option<Seq<char>> {
    if entry(dot_git_in(dir)) == DotGit::Directory {
        Some(dot_git_in(dir))
    } else {
        resolved_gitdir(dot_git_in(dir), file(dot_git_in(dir)))
    }
}

/// The nearest directory with a `.git` directory or file decides: `cwd` itself, or else the
/// first such directory above it.
pub proof fn law_nearest_dot_git_decides(
    cwd: Seq<char>,
    n: nat,
    entry: spec_fn(Seq<char>) -> DotGit,
    file: spec_fn(Seq<char>) -> Option<Seq<u8>>,
)
    requires
        ancestor(cwd, n) matches Some(dir) && has_dot_git(dir, entry),
        forall|m: nat|
            m < n ==> (#[trigger] ancestor(cwd, m) matches Some(dir) ==> !has_dot_git(dir, entry)),
    ensures
        ({
            let dir = ancestor(cwd, n)->0;
            search(first_step(None, cwd), entry, file) == (match git_dir_of(dir, entry, file) {
                Some(git_dir) => Some(repo_at(dir, git_dir)),
                None => None,
            })
        }),
    decreases n,
{
    reveal_with_fuel(search, 3);
    if n > 0 {
        let up = parent(cwd)->0;
        assert(ancestor(cwd, 0) == Some(cwd));
        assert forall|m: nat|
            m < n - 1 && (#[trigger] ancestor(up, m)) is Some implies !has_dot_git(
            ancestor(up, m)->0,
            entry,
        ) by {
            assert(ancestor(cwd, m + 1) == ancestor(up, m));
        }
        law_nearest_dot_git_decides(up, (n - 1) as nat, entry, file);
    }
}

/// Where neither `cwd` nor a directory above it has a `.git` directory or file, there is no
/// repository.
pub proof fn law_no_dot_git_no_repo(
    cwd: Seq<char>,
    entry: spec_fn(Seq<char>) -> DotGit,
    file: spec_fn(Seq<char>) -> Option<Seq<u8>>,
)
    requires
        forall|m: nat|
            #[trigger] ancestor(cwd, m) matches Some(dir) ==> !has_dot_git(dir, entry),
    ensures
        search(first_step(None, cwd), entry, file) is None,
    decreases cwd.len(),
{
    reveal_with_fuel(search, 3);
    assert(ancestor(cwd, 0) == Some(cwd));
    law_parent_drops_last_component(cwd);
    if let Some(up) = parent(cwd) {
        assert forall|m: nat| (#[trigger] ancestor(up, m)) is Some implies !has_dot_git(
            ancestor(up, m)->0,
            entry,
        ) by {
            assert(ancestor(cwd, m + 1) == ancestor(up, m));
        }
        law_no_dot_git_no_repo(up, entry, file);
    }
}

/// Once a repository has been found for `cwd`, by a `.git` directory or by a `.git` file, `cwd`
/// lies within its root, and it is used without a search in `cwd` and everywhere below its root.
pub proof fn law_found_repo_is_reused(
    cwd: Seq<char>,
    entry: spec_fn(Seq<char>) -> DotGit,
    file: spec_fn(Seq<char>) -> Option<Seq<u8>>,
    below: Seq<char>,
)
    requires
        search(first_step(None, cwd), entry, file) is Some,
    ensures
        ({
            let repo = search(first_step(None, cwd), entry, file)->0;
            &&& lies_within(cwd, repo.root)
            &&& lies_within(below, repo.root) ==> first_step(Some(repo), below)
                == GitStepView::ReadHead { repo }
            &&& first_step(Some(repo), cwd) == GitStepView::ReadHead { repo }
        }),
    decreases cwd.len(),
{
    reveal_with_fuel(search, 3);
    law_lies_within_is_an_order(cwd, cwd, cwd);
    if !has_dot_git(cwd, entry) {
        law_parent_drops_last_component(cwd);
        let up = parent(cwd)->0;
        law_found_repo_is_reused(up, entry, file, below);
        let repo = search(first_step(None, up), entry, file)->0;
        law_lies_within_is_an_order(cwd, up, repo.root);
    }
}

/// Whether a file system takes the spellings of a path, such as `/a/b` and `/a//b/`, for the same
/// path.
pub open spec fn spelling_blind(
    entry: spec_fn(Seq<char>) -> DotGit,
    file: spec_fn(Seq<char>) -> Option<Seq<u8>>,
) -> bool {
    forall|p: Seq<char>, q: Seq<char>|
        #![trigger components(p), components(q)]
        components(p) == components(q) ==> entry(p) == entry(q) && file(p) == file(q)
}

/// Whether two searches have ended alike: both without a repository, or with the same one, up to
/// the spelling of its paths.
pub open spec fn same_repo(a: Option<RepoView>, b: Option<RepoView>) -> bool {
    match (a, b) {
        (Some(a), Some(b)) => components(a.root) == components(b.root) && components(a.head)
            == components(b.head),
        (None, None) => true,
        _ => false,
    }
}

/// Two spellings of a directory have the same repository.
pub proof fn law_spellings_have_one_repo(
    a: Seq<char>,
    b: Seq<char>,
    entry: spec_fn(Seq<char>) -> DotGit,
    file: spec_fn(Seq<char>) -> Option<Seq<u8>>,
)
    requires
        spelling_blind(entry, file),
        components(a) == components(b),
    ensures
        same_repo(
            search(first_step(None, a), entry, file),
            search(first_step(None, b), entry, file),
        ),
    decreases a.len(),
{
    reveal_with_fuel(search, 3);
    law_spelling_makes_no_difference(a, b, ".git"@);
    let (x, y) = (dot_git_in(a), dot_git_in(b));
    assert(entry(x) == entry(y) && file(x) == file(y));
    if entry(x) == DotGit::Directory {
        law_spelling_makes_no_difference(x, y, "HEAD"@);
    } else if entry(x) == DotGit::File {
        law_spelling_makes_no_difference(x, y, "HEAD"@);
        if let (Some(target), Some(p), Some(q)) = (gitdir_target(file(x)), parent(x), parent(y)) {
            law_spelling_makes_no_difference(p, q, target);
            law_spelling_makes_no_difference(joined(p, target), joined(q, target), "HEAD"@);
        }
    } else if let (Some(p), Some(q)) = (parent(a), parent(b)) {
        law_parent_drops_last_component(a);
        law_spellings_have_one_repo(p, q, entry, file);
    }
}

/// A directory without a `.git` directory or file has the repository of the directory above it,
/// however that directory is spelled.
pub proof fn law_repo_of_the_directory_above(
    dir: Seq<char>,
    name: Seq<char>,
    entry: spec_fn(Seq<char>) -> DotGit,
    file: spec_fn(Seq<char>) -> Option<Seq<u8>>,
)
    requires
        is_segment(name),
        name.len() > 0,
        name != seq!['.'],
        spelling_blind(entry, file),
        !has_dot_git(joined(dir, name), entry),
    ensures
        same_repo(
            search(first_step(None, joined(dir, name)), entry, file),
            search(first_step(None, dir), entry, file),
        ),
{
    reveal_with_fuel(search, 2);
    law_parent_of_join(dir, name);
    let up = parent(joined(dir, name))->0;
    law_spellings_have_one_repo(up, dir, entry, file);
}

/// A step is seen as it is, with all its paths.
pub proof fn law_steps_are_seen_whole(step: GitStep, repo: Option<Repo>)
    ensures
        step matches GitStep::Probe { dir, dot_git } ==> step@ == (GitStepView::Probe {
            dir: dir@,
            dot_git: dot_git@,
        }),
        step matches GitStep::ReadGitFile { dir, dot_git } ==> step@ == (GitStepView::ReadGitFile {
            dir: dir@,
            dot_git: dot_git@,
        }),
        step matches GitStep::ReadHead { repo } ==> step@ == (GitStepView::ReadHead {
            repo: RepoView { root: repo.root@, head: repo.head@ },
        }),
        step is NoRepo ==> step@ is NoRepo,
        repo is None ==> repo_view(repo) is None,
        repo matches Some(r) ==> repo_view(repo) == Some(
            RepoView { root: r.root@, head: r.head@ },
        ),
{
}

proof fn lemma_dot_git()
    ensures
        ".git"@ == seq!['.', 'g', 'i', 't'],
        "/.git"@ == seq!['/'] + ".git"@,
        "/HEAD"@ == seq!['/'] + "HEAD"@,
        "HEAD"@ == seq!['H', 'E', 'A', 'D'],
        "/.git/HEAD"@ == "/.git"@ + "/HEAD"@,
{
    reveal_strlit(".git");
    reveal_strlit("/.git");
    reveal_strlit("HEAD");
    reveal_strlit("/HEAD");
    reveal_strlit("/.git/HEAD");
    assert(".git"@ =~= seq!['.', 'g', 'i', 't']);
    assert("HEAD"@ =~= seq!['H', 'E', 'A', 'D']);
    assert("/.git"@ =~= seq!['/'] + ".git"@);
    assert("/HEAD"@ =~= seq!['/'] + "HEAD"@);
    assert("/.git/HEAD"@ =~= "/.git"@ + "/HEAD"@);
}

/// The search begins with `.git` in the directory itself, and a directory of that name ends it:
/// its `HEAD` is the one to read, and the directory is the root of the repository.
pub proof fn law_git_directory_is_found(
    dir: Seq<char>,
    entry: spec_fn(Seq<char>) -> DotGit,
    file: spec_fn(Seq<char>) -> Option<Seq<u8>>,
)
    requires
        dir.len() > 0 && dir.last() != '/',
    ensures
        first_step(None, dir) == (GitStepView::Probe { dir, dot_git: dir + "/.git"@ }),
        first_step(None, seq!['/']) == (GitStepView::Probe {
            dir: seq!['/'],
            dot_git: "/.git"@,
        }),
        first_step(None, Seq::empty()) == (GitStepView::Probe {
            dir: Seq::empty(),
            dot_git: ".git"@,
        }),
        entry(dir + "/.git"@) == DotGit::Directory ==> search(first_step(None, dir), entry, file)
            == Some(RepoView { root: dir, head: dir + "/.git/HEAD"@ }),
        entry("/.git"@) == DotGit::Directory ==> search(first_step(None, seq!['/']), entry, file)
            == Some(RepoView { root: seq!['/'], head: "/.git/HEAD"@ }),
        entry(".git"@) == DotGit::Directory ==> search(first_step(None, Seq::empty()), entry, file)
            == Some(RepoView { root: Seq::empty(), head: ".git/HEAD"@ }),
{
    reveal_with_fuel(search, 3);
    lemma_dot_git();
    reveal_strlit(".git/HEAD");
    assert(joined(dir, ".git"@) =~= dir + "/.git"@);
    assert(joined(dir + "/.git"@, "HEAD"@) =~= dir + "/.git/HEAD"@);
    assert(joined(seq!['/'], ".git"@) =~= "/.git"@);
    assert(joined("/.git"@, "HEAD"@) =~= "/.git/HEAD"@);
    assert(joined(".git"@, "HEAD"@) =~= ".git/HEAD"@);
}

/// A `.git` file in the directory `up/last` leads to the git directory that it names, seen from
/// there. Its `HEAD` is the one to read, and the directory of the file is the root of the
/// repository. A file that names none ends the search without a repository.
pub proof fn law_git_file_is_followed(
    up: Seq<char>,
    last: Seq<char>,
    target: Seq<char>,
    after: Seq<char>,
    entry: spec_fn(Seq<char>) -> DotGit,
    file: spec_fn(Seq<char>) -> Option<Seq<u8>>,
)
    requires
        last.len() > 0,
        last != seq!['.'],
        forall|i: int| 0 <= i < last.len() ==> #[trigger] last[i] != '/',
        target.len() > 0,
        target.last() != '/',
        !is_white_space(target.last()),
        forall|i: int| 0 <= i < after.len() ==> is_white_space(#[trigger] after[i]),
        entry(up + seq!['/'] + last + "/.git"@) == DotGit::File,
    ensures
        ({
            let dir = up + seq!['/'] + last;
            let contents = file(dir + "/.git"@);
            let found = search(first_step(None, dir), entry, file);
            &&& contents == Some(encode_utf8("gitdir: "@ + target + after)) && target[0] == '/'
                ==> found == Some(RepoView { root: dir, head: target + "/HEAD"@ })
            &&& contents == Some(encode_utf8("gitdir: "@ + target + after)) && target[0] != '/'
                ==> found == Some(
                RepoView { root: dir, head: dir + seq!['/'] + target + "/HEAD"@ },
            )
            &&& contents is None || resolved_gitdir(dir + "/.git"@, contents) is None ==> found is None
        }),
{
    reveal_with_fuel(search, 3);
    lemma_dot_git();
    let dir = up + seq!['/'] + last;
    let none = Seq::<char>::empty();
    assert(joined(dir, ".git"@) =~= dir + "/.git"@);
    assert(dir + "/.git"@ =~= dir + seq!['/'] + ".git"@);
    assert(".git"@[0] == '.' && ".git"@[1] == 'g');
    assert(forall|i: int| 0 <= i < 4 ==> #[trigger] ".git"@[i] != '/');
    law_parent_of_name(up, last, ".git"@);
    law_gitdir_is_followed(dir + "/.git"@, none, target, after);
    assert(none + "gitdir: "@ =~= "gitdir: "@);
    assert(joined(target, "HEAD"@) =~= target + "/HEAD"@);
    assert(joined(dir, target) =~= (if target[0] == '/' {
        target
    } else {
        dir + seq!['/'] + target
    }));
    assert(joined(dir + seq!['/'] + target, "HEAD"@) =~= dir + seq!['/'] + target + "/HEAD"@);
}

/// Where `.git` is neither a directory nor a file, the repository of a directory is that of the
/// one above it. Above the root there is none.
pub proof fn law_search_goes_up(
    up: Seq<char>,
    last: Seq<char>,
    name: Seq<char>,
    entry: spec_fn(Seq<char>) -> DotGit,
    file: spec_fn(Seq<char>) -> Option<Seq<u8>>,
)
    requires
        last.len() > 0,
        last != seq!['.'],
        forall|i: int| 0 <= i < last.len() ==> #[trigger] last[i] != '/',
        name.len() > 0,
        name != seq!['.'],
        forall|i: int| 0 <= i < name.len() ==> #[trigger] name[i] != '/',
    ensures
        ({
            let found = |dir: Seq<char>| search(first_step(None, dir), entry, file);
            let passed = |dot_git: Seq<char>|
                entry(dot_git) == DotGit::Missing || entry(dot_git) == DotGit::Other;
            let base = up + seq!['/'] + last;
            &&& passed(base + seq!['/'] + name + "/.git"@) ==> found(base + seq!['/'] + name)
                == found(base)
            &&& passed(last + seq!['/'] + name + "/.git"@) ==> found(last + seq!['/'] + name)
                == found(last)
            &&& passed(seq!['/'] + name + "/.git"@) ==> found(seq!['/'] + name) == found(seq!['/'])
            &&& passed(name + "/.git"@) ==> found(name) == found(Seq::empty())
            &&& passed("/.git"@) ==> found(seq!['/']) is None
            &&& passed(".git"@) ==> found(Seq::empty()) is None
        }),
{
    reveal_with_fuel(search, 3);
    lemma_dot_git();
    law_parent_of_name(up, last, name);
    let base = up + seq!['/'] + last;
    let a = base + seq!['/'] + name;
    let b = last + seq!['/'] + name;
    let c = seq!['/'] + name;
    assert(name.last() != '/');
    assert(joined(a, ".git"@) =~= a + "/.git"@);
    assert(joined(b, ".git"@) =~= b + "/.git"@);
    assert(joined(c, ".git"@) =~= c + "/.git"@);
    assert(joined(name, ".git"@) =~= name + "/.git"@);
    assert(joined(seq!['/'], ".git"@) =~= "/.git"@);
}

/// A repository that was found before is used again in its root and below it, and nowhere else.
pub proof fn law_kept_repo_is_used_inside(repo: Repo, cwd: Seq<char>, rest: Seq<char>)
    ensures
        first_step(repo_view(Some(repo)), repo.root@) == (GitStepView::ReadHead {
            repo: RepoView { root: repo.root@, head: repo.head@ },
        }),
        repo.root@.len() > 0 ==> first_step(
            repo_view(Some(repo)),
            repo.root@ + seq!['/'] + rest,
        ) == (GitStepView::ReadHead { repo: RepoView { root: repo.root@, head: repo.head@ } }),
        components(cwd).len() < components(repo.root@).len() ==> first_step(
            repo_view(Some(repo)),
            cwd,
        ) == first_step(None, cwd),
        forall|i: int|
            0 <= i < components(cwd).len() && i < components(repo.root@).len()
                && #[trigger] components(cwd)[i] != components(repo.root@)[i] ==> first_step(
                repo_view(Some(repo)),
                cwd,
            ) == first_step(None, cwd),
{
    let root = repo.root@;
    law_lies_within_is_an_order(root, root, root);
    law_lies_within_is_by_component(cwd, root, rest);
}

/// Each step of the search, for any spelling of the directory: `.git` in it is looked at first. A
/// directory of that name is the git directory, a file leads to it or ends the search, and
/// otherwise the search goes on in the parent directory while there is one.
pub proof fn law_search_takes_one_step(
    dir: Seq<char>,
    entry: spec_fn(Seq<char>) -> DotGit,
    file: spec_fn(Seq<char>) -> Option<Seq<u8>>,
)
    ensures
        ({
            let dot_git = joined(dir, ".git"@);
            let found = search(first_step(None, dir), entry, file);
            &&& first_step(None, dir) == (GitStepView::Probe { dir, dot_git })
            &&& entry(dot_git) == DotGit::Directory ==> found == Some(
                RepoView { root: dir, head: joined(dot_git, "HEAD"@) },
            )
            &&& entry(dot_git) == DotGit::File ==> found == (match resolved_gitdir(
                dot_git,
                file(dot_git),
            ) {
                Some(git_dir) => Some(RepoView { root: dir, head: joined(git_dir, "HEAD"@) }),
                None => None,
            })
            &&& entry(dot_git) == DotGit::Missing || entry(dot_git) == DotGit::Other ==> found == (
            match parent(dir) {
                Some(up) => search(first_step(None, up), entry, file),
                None => None,
            })
        }),
{
    reveal_with_fuel(search, 3);
}

} // verus!
