//! The native left prompt.
//!
//! Layout: `user@host [color]pwd[*][reset][ branch][ status] $ `

pub mod decimal;
pub mod git;
pub mod head;
pub mod pwd;

use crate::native_prompt::decimal::{
    all_digits, decimal_text, decimal_value, law_decimal_texts_differ, law_digits_add_up,
    parse_usize_from_wstr, push_decimal,
};
use crate::native_prompt::git::{
    first_step, git_branch_start, repo_view, search, DotGit, GitStep, Repo, RepoView,
};
use crate::native_prompt::head::{
    branch_label, contents_view, is_white_space, law_whole_branch_is_shown, read_head_into,
};
use crate::native_prompt::pwd::{prompt_pwd, prompt_pwd_into};
use crate::wide::{push_str, push_wide, same_text, to_wide, WString};
use vstd::prelude::*;
use vstd::utf8::encode_utf8;

verus! {

/// The shell variables that the prompt reads, and the status of the last command. A variable
/// that is not set is `None`.
pub struct PromptVars {
    /// Whether `fish_native_prompt` is set.
    pub native_prompt: bool,
    /// The list of values of `PWD`.
    pub pwd: Option<Vec<WString>>,
    /// The status of the last command.
    pub status: i32,
    /// The list of values of `__DENV_DIRTY`.
    pub denv_dirty: Option<Vec<WString>>,
    /// `USER` as one text.
    pub user: Option<WString>,
    /// `hostname` as one text.
    pub hostname: Option<WString>,
    /// The list of values of `HOME`.
    pub home: Option<Vec<WString>>,
    /// The list of values of `fish_prompt_pwd_dir_length`.
    pub dir_length: Option<Vec<WString>>,
    /// The list of values of `fish_prompt_pwd_full_dirs`.
    pub full_dirs: Option<Vec<WString>>,
}

/// The terminal sequences that the prompt writes.
pub struct ColorKit {
    pub brgreen: WString,
    pub red: WString,
    pub reset: WString,
}

#[verifier::ext_equal]
pub struct ColorKitView {
    pub brgreen: Seq<char>,
    pub red: Seq<char>,
    pub reset: Seq<char>,
}

impl View for ColorKit {
    type V = ColorKitView;

    open spec fn view(&self) -> ColorKitView {
        ColorKitView { brgreen: self.brgreen@, red: self.red@, reset: self.reset@ }
    }
}

/// What is kept from one prompt to the next.
pub struct PromptState {
    /// Immutable after the first prompt.
    pub colors: Option<ColorKit>,
    /// Immutable after the first prompt.
    pub user_host: Option<WString>,
    /// Immutable after the first prompt.
    pub home: Option<WString>,
    /// `(dir_len, full_dirs)`, immutable after the first prompt.
    pub pwd_cfg: Option<(usize, usize)>,
    /// The repository that the prompt is inside of.
    pub git: Option<Repo>,
    /// The directory of the last prompt.
    pub pwd_last: WString,
}

#[verifier::ext_equal]
pub struct PromptStateView {
    pub colors: Option<ColorKitView>,
    pub user_host: Option<Seq<char>>,
    pub home: Option<Seq<char>>,
    pub pwd_cfg: Option<(usize, usize)>,
    pub git: Option<RepoView>,
    pub pwd_last: Seq<char>,
}

pub open spec fn wide_view(s: Option<WString>) -> Option<Seq<char>> {
    match s {
        Some(s) => Some(s@),
        None => None,
    }
}

impl View for PromptState {
    type V = PromptStateView;

    open spec fn view(&self) -> PromptStateView {
        PromptStateView {
            colors: match self.colors {
                Some(kit) => Some(kit@),
                None => None,
            },
            user_host: wide_view(self.user_host),
            home: wide_view(self.home),
            pwd_cfg: self.pwd_cfg,
            git: repo_view(self.git),
            pwd_last: self.pwd_last@,
        }
    }
}

/// The first of the values of a variable, where it has one.
pub open spec fn first_value(values: Option<Vec<WString>>) -> Option<Seq<char>> {
    match values {
        Some(values) if values@.len() > 0 => Some(values@[0]@),
        _ => None,
    }
}

pub open spec fn text_or_empty(text: Option<Seq<char>>) -> Seq<char> {
    match text {
        Some(text) => text,
        None => Seq::empty(),
    }
}

/// The number that the first value of a variable writes, or 1.
pub open spec fn number_or_one(values: Option<Vec<WString>>) -> usize {
    let text = text_or_empty(first_value(values));
    if text.len() > 0 && all_digits(text) && decimal_value(text) <= usize::MAX {
        decimal_value(text) as usize
    } else {
        1
    }
}

/// Whether there is a native prompt for these variables.
pub open spec fn is_native(vars: PromptVars) -> bool {
    vars.native_prompt && vars.pwd is Some
}

pub open spec fn current_dir(vars: PromptVars) -> Seq<char> {
    text_or_empty(first_value(vars.pwd))
}

pub open spec fn is_dirty(vars: PromptVars) -> bool {
    first_value(vars.denv_dirty) == Some(seq!['1'])
}

/// `user@host` and a space.
pub open spec fn user_host_text(vars: PromptVars) -> Seq<char> {
    text_or_empty(wide_view(vars.user)).push('@') + text_or_empty(wide_view(vars.hostname)).push(
        ' ',
    )
}

/// The state with everything that a prompt reads once filled in, and the directory noted. What
/// was filled in before stays.
pub open spec fn settled(
    st: PromptStateView,
    vars: PromptVars,
    colors: ColorKitView,
) -> PromptStateView {
    PromptStateView {
        colors: if st.colors is Some {
            st.colors
        } else {
            Some(colors)
        },
        user_host: if st.user_host is Some {
            st.user_host
        } else {
            Some(user_host_text(vars))
        },
        home: if st.home is Some {
            st.home
        } else {
            Some(text_or_empty(first_value(vars.home)))
        },
        pwd_cfg: if st.pwd_cfg is Some {
            st.pwd_cfg
        } else {
            Some((number_or_one(vars.dir_length), number_or_one(vars.full_dirs)))
        },
        git: st.git,
        pwd_last: current_dir(vars),
    }
}

/// The prompt up to the branch, where `st` is settled.
pub open spec fn prompt_start(st: PromptStateView, vars: PromptVars) -> Seq<char> {
    let kit = st.colors->0;
    let (dir_len, full_dirs) = st.pwd_cfg->0;
    let color = if vars.status == 0 {
        kit.brgreen
    } else {
        kit.red
    };
    let dir = prompt_pwd(st.pwd_last, st.home->0, dir_len as nat, full_dirs as nat);
    let dirty = if is_dirty(vars) {
        "*"@
    } else {
        Seq::empty()
    };
    st.user_host->0 + color + dir + dirty + kit.reset
}

/// What is shown of the status of the last command: a space and the number, unless it is 0.
pub open spec fn status_label(status: i32) -> Seq<char> {
    if status == 0 {
        Seq::empty()
    } else {
        seq![' '] + decimal_text(status as int)
    }
}

/// The prompt from the branch on: the branch, if there is a repository, the status of a failed
/// command, and the prompt sign.
pub open spec fn prompt_end(
    repo: Option<RepoView>,
    head: Option<Seq<u8>>,
    status: i32,
) -> Seq<char> {
    let branch = if repo is Some {
        branch_label(head)
    } else {
        Seq::empty()
    };
    branch + status_label(status) + " $ "@
}

impl PromptState {
    /// The state before the first prompt.
    pub fn new() -> (st: PromptState)
        ensures
            st@ == (PromptStateView {
                colors: None,
                user_host: None,
                home: None,
                pwd_cfg: None,
                git: None,
                pwd_last: Seq::empty(),
            }),
    {
        PromptState {
            colors: None,
            user_host: None,
            home: None,
            pwd_cfg: None,
            git: None,
            pwd_last: Vec::new(),
        }
    }
}

/// A variable as text, empty where it is not set.
fn var_str(value: &Option<WString>) -> (text: WString)
    ensures
        text@ == text_or_empty(wide_view(*value)),
{
    match value {
        Some(text) => to_wide(text),
        None => Vec::new(),
    }
}

/// The first value of a variable, empty where there is none.
fn first_or_empty(values: &Option<Vec<WString>>) -> (text: WString)
    ensures
        text@ == text_or_empty(first_value(*values)),
{
    if let Some(values) = values {
        if values.len() > 0 {
            return to_wide(&values[0]);
        }
    }
    Vec::new()
}

fn configured_number(values: &Option<Vec<WString>>) -> (n: usize)
    ensures
        n == number_or_one(*values),
{
    match parse_usize_from_wstr(&first_or_empty(values)) {
        Some(n) => n,
        None => 1,
    }
}

/// Fill in what the prompt reads only once, and note the directory where it has changed.
fn settle(st: &mut PromptState, vars: &PromptVars, colors: ColorKit, pwd: &[char])
    requires
        pwd@ == current_dir(*vars),
    ensures
        final(st)@ == settled(old(st)@, *vars, colors@),
{
    if st.colors.is_none() {
        st.colors = Some(colors);
    }
    if st.user_host.is_none() {
        let mut s = var_str(&vars.user);
        s.push('@');
        push_wide(&mut s, &var_str(&vars.hostname));
        s.push(' ');
        assert(s@ =~= user_host_text(*vars));
        st.user_host = Some(s);
    }
    if st.home.is_none() {
        st.home = Some(first_or_empty(&vars.home));
    }
    if st.pwd_cfg.is_none() {
        let dir_len = configured_number(&vars.dir_length);
        let full_dirs = configured_number(&vars.full_dirs);
        st.pwd_cfg = Some((dir_len, full_dirs));
    }
    if !same_text(&st.pwd_last, pwd) {
        st.pwd_last = to_wide(pwd);
    }
}

/// Generate the left prompt natively when `fish_native_prompt` is set, up to the branch. `None`
/// means to fall back to the prompt function: nothing has been written then. Otherwise `out`
/// holds the first part of the prompt, and the step returned is the first of the search for the
/// repository. The prompt is complete after [`finish_left_prompt`].
pub fn try_native_left_prompt(
    st: &mut PromptState,
    vars: &PromptVars,
    colors: ColorKit,
    out: &mut WString,
) -> (step: Option<GitStep>)
    ensures
        step is Some <==> is_native(*vars),
        step is None ==> *final(st) == *old(st) && *final(out) == *old(out),
        step matches Some(step) ==> {
            &&& final(st)@ == settled(old(st)@, *vars, colors@)
            &&& final(out)@ == prompt_start(final(st)@, *vars)
            &&& step@ == first_step(old(st)@.git, current_dir(*vars))
        },
{
    if !vars.native_prompt {
        return None;
    }
    if vars.pwd.is_none() {
        return None;
    }
    let pwd = first_or_empty(&vars.pwd);
    let ghost kit = colors@;
    settle(st, vars, colors, &pwd);
    out.clear();
    let one: [char; 1] = ['1'];
    assert(one@ =~= seq!['1']);
    let denv_dirty = match &vars.denv_dirty {
        Some(values) => values.len() > 0 && same_text(&values[0], &one),
        None => false,
    };
    assert(denv_dirty == is_dirty(*vars));
    assert(st@ == settled(old(st)@, *vars, kit));
    if let (Some(kit), Some(user_host), Some(home), Some(cfg)) = (
        &st.colors,
        &st.user_host,
        &st.home,
        &st.pwd_cfg,
    ) {
        push_wide(out, user_host);
        if vars.status == 0 {
            push_wide(out, &kit.brgreen);
        } else {
            push_wide(out, &kit.red);
        }
        prompt_pwd_into(out, &pwd, home, cfg.0, cfg.1);
        if denv_dirty {
            push_str(out, "*");
        }
        push_wide(out, &kit.reset);
    }
    assert(out@ =~= prompt_start(st@, *vars));
    Some(git_branch_start(&st.git, &pwd))
}

/// Complete a prompt, where the search has ended with the repository `repo`, `head` is what was
/// read of its `HEAD`, `None` if reading failed, and `status` is the status of the last command.
/// The repository is kept for the next prompt.
pub fn finish_left_prompt(
    st: &mut PromptState,
    repo: Option<Repo>,
    head: Option<&[u8]>,
    status: i32,
    out: &mut WString,
)
    ensures
        final(st)@ == (PromptStateView { git: repo_view(repo), ..old(st)@ }),
        final(out)@ == old(out)@ + prompt_end(repo_view(repo), contents_view(head), status),
{
    if repo.is_some() {
        read_head_into(head, out);
    }
    if status != 0 {
        out.push(' ');
        push_decimal(out, status);
    }
    push_str(out, " $ ");
    st.git = repo;
    assert(out@ =~= old(out)@ + prompt_end(repo_view(repo), contents_view(head), status));
}

/// A whole prompt, in a file system where `.git` is what `entry` says and files hold what `file`
/// says: the state it leaves and its text.
pub open spec fn rendered(
    st: PromptStateView,
    vars: PromptVars,
    colors: ColorKitView,
    entry: spec_fn(Seq<char>) -> DotGit,
    file: spec_fn(Seq<char>) -> Option<Seq<u8>>,
) -> (PromptStateView, Seq<char>) {
    let ready = settled(st, vars, colors);
    let repo = search(first_step(st.git, current_dir(vars)), entry, file);
    let head = match repo {
        Some(repo) => file(repo.head),
        None => None,
    };
    (
        PromptStateView { git: repo, ..ready },
        prompt_start(ready, vars) + prompt_end(repo, head, vars.status),
    )
}

/// Once a prompt has been rendered, its colors, user, host, home directory and directory settings
/// do not change any more: the next prompt in the same directory, with the same status and the
/// same file system, is the same, whatever those variables then say.
pub proof fn law_next_prompt_is_the_same(
    st: PromptStateView,
    vars: PromptVars,
    later: PromptVars,
    colors: ColorKitView,
    later_colors: ColorKitView,
    entry: spec_fn(Seq<char>) -> DotGit,
    file: spec_fn(Seq<char>) -> Option<Seq<u8>>,
)
    requires
        current_dir(vars) == current_dir(later),
        vars.status == later.status,
        is_dirty(vars) == is_dirty(later),
    ensures
        rendered(
            rendered(st, vars, colors, entry, file).0,
            later,
            later_colors,
            entry,
            file,
        ) == rendered(st, vars, colors, entry, file),
{
    let cwd = current_dir(vars);
    let repo = search(first_step(st.git, cwd), entry, file);
    assert(search(first_step(repo, cwd), entry, file) == repo);
}

/// Up to the branch, a failed command shows in the color of the directory and in nothing else.
pub proof fn law_status_sets_directory_color(st: PromptStateView, ok: PromptVars, failed: PromptVars)
    requires
        ok.status == 0,
        failed.status != 0,
        is_dirty(ok) == is_dirty(failed),
    ensures
        exists|rest: Seq<char>|
            prompt_start(st, ok) == #[trigger] (st.user_host->0 + st.colors->0.brgreen + rest)
                && prompt_start(st, failed) == st.user_host->0 + st.colors->0.red + rest,
{
    let kit = st.colors->0;
    let (dir_len, full_dirs) = st.pwd_cfg->0;
    let dir = prompt_pwd(st.pwd_last, st.home->0, dir_len as nat, full_dirs as nat);
    let dirty = if is_dirty(ok) {
        "*"@
    } else {
        Seq::empty()
    };
    let rest = dir + dirty + kit.reset;
    assert(prompt_start(st, ok) =~= st.user_host->0 + kit.brgreen + rest);
    assert(prompt_start(st, failed) =~= st.user_host->0 + kit.red + rest);
}

/// The end of a prompt tells the status: after different ones it is different.
pub proof fn law_status_is_told(
    repo: Option<RepoView>,
    head: Option<Seq<u8>>,
    a: i32,
    b: i32,
)
    requires
        prompt_end(repo, head, a) == prompt_end(repo, head, b),
    ensures
        a == b,
{
    let branch = if repo is Some {
        branch_label(head)
    } else {
        Seq::empty()
    };
    let (x, y) = (status_label(a), status_label(b));
    let from = branch.len() as int;
    let sign = " $ "@;
    assert(prompt_end(repo, head, a) == branch + x + sign);
    assert(prompt_end(repo, head, b) == branch + y + sign);
    assert((branch + x + sign).len() == from + x.len() + sign.len());
    assert((branch + y + sign).len() == from + y.len() + sign.len());
    assert((branch + x + sign).subrange(from, from + x.len()) =~= x);
    assert((branch + y + sign).subrange(from, from + y.len()) =~= y);
    if a != 0 && b != 0 {
        assert(x.skip(1) =~= decimal_text(a as int));
        assert(y.skip(1) =~= decimal_text(b as int));
        law_decimal_texts_differ(a as int, b as int);
    }
}

/// There is a native prompt exactly where it is asked for and the directory is known. The
/// directory is the first value of its variable, and empty where there is none.
pub proof fn law_native_prompt_is_chosen(vars: PromptVars)
    ensures
        is_native(vars) <==> vars.native_prompt && vars.pwd is Some,
        vars.pwd matches Some(values) ==> current_dir(vars) == (if values@.len() > 0 {
            values@[0]@
        } else {
            Seq::empty()
        }),
{
}

/// A setting is the number that the first value of its variable writes in digits, and 1 where
/// there is no value, where it is anything else and where the number is too large.
pub proof fn law_settings_are_numbers(values: Option<Vec<WString>>)
    ensures
        values is None ==> number_or_one(values) == 1,
        values matches Some(list) ==> list@.len() == 0 ==> number_or_one(values) == 1,
        values matches Some(list) ==> list@.len() > 0 ==> {
            let text = list@[0]@;
            let digits = text.len() > 0 && forall|i: int|
                0 <= i < text.len() ==> '0' <= #[trigger] text[i] <= '9';
            &&& digits && decimal_value(text) <= usize::MAX ==> number_or_one(values)
                == decimal_value(text)
            &&& !digits || decimal_value(text) > usize::MAX ==> number_or_one(values) == 1
        },
{
    if let Some(list) = values {
        if list@.len() > 0 {
            law_digits_add_up(list@[0]@, '0');
        }
    }
}

/// The prompt up to the branch: user, `@`, host and a space, then in the color of the status the
/// directory as it is shortened, a star right behind it where the environment is dirty, and the
/// reset. What the state already holds is used, and the variables only for what it does not.
pub proof fn law_prompt_starts_with_its_parts(st: PromptState, vars: PromptVars, fresh: ColorKit)
    ensures
        ({
            let none = Seq::<char>::empty();
            let user = match vars.user {
                Some(user) => user@,
                None => none,
            };
            let host = match vars.hostname {
                Some(host) => host@,
                None => none,
            };
            let user_host = match st.user_host {
                Some(text) => text@,
                None => user + seq!['@'] + host + seq![' '],
            };
            let kit = match st.colors {
                Some(kit) => kit,
                None => fresh,
            };
            let color = if vars.status == 0 {
                kit.brgreen@
            } else {
                kit.red@
            };
            let pwd = match vars.pwd {
                Some(values) if values@.len() > 0 => values@[0]@,
                _ => none,
            };
            let home = match (st.home, vars.home) {
                (Some(home), _) => home@,
                (None, Some(values)) if values@.len() > 0 => values@[0]@,
                _ => none,
            };
            let cfg = match st.pwd_cfg {
                Some(cfg) => cfg,
                None => (number_or_one(vars.dir_length), number_or_one(vars.full_dirs)),
            };
            let star = match vars.denv_dirty {
                Some(values) if values@.len() > 0 && values@[0]@ == seq!['1'] => seq!['*'],
                _ => none,
            };
            prompt_start(settled(st@, vars, fresh@), vars) == user_host + color + prompt_pwd(
                pwd,
                home,
                cfg.0 as nat,
                cfg.1 as nat,
            ) + star + kit.reset@
        }),
{
    let none = Seq::<char>::empty();
    let user = match vars.user {
        Some(user) => user@,
        None => none,
    };
    let host = match vars.hostname {
        Some(host) => host@,
        None => none,
    };
    assert(user_host_text(vars) =~= user + seq!['@'] + host + seq![' ']);
    reveal_strlit("*");
    assert("*"@ =~= seq!['*']);
}

/// What the first prompt settles stays, whatever the variables say later, while the directory and
/// the repository are always those of the present.
pub proof fn law_first_values_are_kept(
    st: PromptState,
    vars: PromptVars,
    later: PromptVars,
    fresh: ColorKit,
    other: ColorKit,
)
    ensures
        ({
            let first = settled(st@, vars, fresh@);
            let second = settled(first, later, other@);
            &&& first.colors is Some && second.colors == first.colors
            &&& first.user_host is Some && second.user_host == first.user_host
            &&& first.home is Some && second.home == first.home
            &&& first.pwd_cfg is Some && second.pwd_cfg == first.pwd_cfg
            &&& second.pwd_last == (match later.pwd {
                Some(values) if values@.len() > 0 => values@[0]@,
                _ => Seq::empty(),
            })
            &&& first.git == (match st.git {
                Some(repo) => Some(RepoView { root: repo.root@, head: repo.head@ }),
                None => None,
            })
            &&& second.git == first.git
            &&& st@.pwd_last == st.pwd_last@
        }),
{
}

/// The end of a prompt inside a repository whose `HEAD` names a branch: a space and the whole of
/// the branch, then for a failed command a space and its status, then the prompt sign.
pub proof fn law_prompt_shows_the_whole_branch(
    repo: Repo,
    head: &[u8],
    branch: Seq<char>,
    end: Seq<char>,
    status: i32,
)
    requires
        branch.len() > 0,
        !is_white_space(branch.last()),
        forall|i: int| 0 <= i < end.len() ==> is_white_space(#[trigger] end[i]),
        head@ == encode_utf8("ref: refs/heads/"@ + branch + end),
    ensures
        prompt_end(repo_view(Some(repo)), contents_view(Some(head)), status) == seq![' '] + branch
            + (if status == 0 {
            Seq::empty()
        } else {
            seq![' '] + decimal_text(status as int)
        }) + seq![' ', '$', ' '],
{
    law_whole_branch_is_shown(branch, end);
    lemma_sign();
}

proof fn lemma_sign()
    ensures
        " $ "@ == seq![' ', '$', ' '],
{
    reveal_strlit(" $ ");
    assert(" $ "@ =~= seq![' ', '$', ' ']);
}

/// The end of a prompt: what is shown of `HEAD` where there is a repository, then for a failed
/// command a space and its status, then the prompt sign. Outside of repositories no branch is
/// shown.
pub proof fn law_prompt_ends_with_its_parts(
    repo: Option<Repo>,
    head: Option<&[u8]>,
    status: i32,
)
    ensures
        ({
            let tail = (if status == 0 {
                Seq::empty()
            } else {
                seq![' '] + decimal_text(status as int)
            }) + seq![' ', '$', ' '];
            let shown = prompt_end(repo_view(repo), contents_view(head), status);
            &&& repo is None ==> shown == tail
            &&& repo is Some && head is None ==> shown == tail
            &&& repo is Some && head is Some ==> shown == branch_label(Some(head->0@)) + tail
        }),
{
    lemma_sign();
    let tail = (if status == 0 {
        Seq::empty()
    } else {
        seq![' '] + decimal_text(status as int)
    }) + seq![' ', '$', ' '];
    let shown = prompt_end(repo_view(repo), contents_view(head), status);
    if repo is None || head is None {
        assert(shown =~= tail);
    } else {
        assert(shown =~= branch_label(Some(head->0@)) + tail);
    }
}

/// A whole prompt inside a repository: the part up to the branch, a space and the whole of the
/// branch that `HEAD` names, the status of a failed command, and the prompt sign.
pub proof fn law_rendered_prompt_shows_the_branch(
    st: PromptStateView,
    vars: PromptVars,
    colors: ColorKitView,
    entry: spec_fn(Seq<char>) -> DotGit,
    file: spec_fn(Seq<char>) -> Option<Seq<u8>>,
    repo: RepoView,
    branch: Seq<char>,
    end: Seq<char>,
)
    requires
        search(first_step(st.git, current_dir(vars)), entry, file) == Some(repo),
        branch.len() > 0,
        !is_white_space(branch.last()),
        forall|i: int| 0 <= i < end.len() ==> is_white_space(#[trigger] end[i]),
        file(repo.head) == Some(encode_utf8("ref: refs/heads/"@ + branch + end)),
    ensures
        rendered(st, vars, colors, entry, file).0 == (PromptStateView {
            git: Some(repo),
            ..settled(st, vars, colors)
        }),
        rendered(st, vars, colors, entry, file).1 == prompt_start(
            settled(st, vars, colors),
            vars,
        ) + seq![' '] + branch + (if vars.status == 0 {
            Seq::empty()
        } else {
            seq![' '] + decimal_text(vars.status as int)
        }) + seq![' ', '$', ' '],
{
    law_whole_branch_is_shown(branch, end);
    lemma_sign();
    assert(rendered(st, vars, colors, entry, file).1 =~= prompt_start(
        settled(st, vars, colors),
        vars,
    ) + seq![' '] + branch + (if vars.status == 0 {
        Seq::empty()
    } else {
        seq![' '] + decimal_text(vars.status as int)
    }) + seq![' ', '$', ' ']);
}

} // verus!
