//! The working directory as the prompt shows it.

use crate::segments::{
    is_segment, join, law_join_inverts_split, law_split_gives_segments, law_split_inverts_join,
    lemma_split_concat, lemma_split_grows, lemma_split_nonempty, lemma_split_segment, split,
};
use crate::wide::{has_prefix, push_wide, skip, WString};
use vstd::prelude::*;

verus! {

/// Whether `pwd` is the home directory or lies below it. An empty `home` is no home.
pub open spec fn in_home(pwd: Seq<char>, home: Seq<char>) -> bool {
    &&& home.len() > 0
    &&& home.is_prefix_of(pwd)
    &&& pwd.len() == home.len() || pwd[home.len() as int] == '/'
}

/// What is left of `pwd` once the home directory has been contracted.
pub open spec fn below_home(pwd: Seq<char>, home: Seq<char>) -> Seq<char> {
    if in_home(pwd, home) {
        pwd.skip(home.len() as int)
    } else {
        pwd
    }
}

/// `pwd` with the home directory contracted to `~` and nothing else changed.
pub open spec fn contracted(pwd: Seq<char>, home: Seq<char>) -> Seq<char> {
    if in_home(pwd, home) {
        seq!['~'] + below_home(pwd, home)
    } else {
        pwd
    }
}

/// How many characters an abbreviated segment keeps at most: a leading dot does not count.
pub open spec fn abbreviated_width(part: Seq<char>, dir_len: nat) -> nat {
    if part.len() > 0 && part[0] == '.' {
        dir_len + 1
    } else {
        dir_len
    }
}

/// The leading characters of `part` that the prompt shows of it.
pub open spec fn abbreviated(part: Seq<char>, dir_len: nat) -> Seq<char> {
    let width = abbreviated_width(part, dir_len);
    if part.len() <= width {
        part
    } else {
        part.take(width as int)
    }
}

/// How segment `i` is shown, where the first `cut` segments are abbreviated and `tilde` says
/// that segment 0 stands for the home directory.
pub open spec fn shown_segment(
    tilde: bool,
    cut: int,
    dir_len: nat,
    i: int,
    part: Seq<char>,
) -> Seq<char> {
    if tilde && i == 0 {
        seq!['~']
    } else if i < cut {
        abbreviated(part, dir_len)
    } else {
        part
    }
}

pub open spec fn shown_segments(
    tilde: bool,
    cut: int,
    dir_len: nat,
    parts: Seq<Seq<char>>,
) -> Seq<Seq<char>> {
    Seq::new(parts.len(), |i: int| shown_segment(tilde, cut, dir_len, i, parts[i]))
}

/// The text that the prompt shows for `pwd`: the home directory as `~`, all segments but the
/// last `full_dirs` abbreviated to `dir_len` characters. A `dir_len` of 0 abbreviates nothing.
pub open spec fn prompt_pwd(
    pwd: Seq<char>,
    home: Seq<char>,
    dir_len: nat,
    full_dirs: nat,
) -> Seq<char> {
    if dir_len == 0 {
        contracted(pwd, home)
    } else {
        let parts = split(below_home(pwd, home));
        join(shown_segments(in_home(pwd, home), parts.len() - full_dirs, dir_len, parts))
    }
}

/// Shorten the working directory for display: contract the home directory to `~`, then
/// abbreviate leading components to `dir_len` characters (0 = no shortening), keeping the last
/// `full_dirs` components full. The text is appended to `out`.
pub fn prompt_pwd_into(
    out: &mut WString,
    pwd: &[char],
    home: &[char],
    dir_len: usize,
    full_dirs: usize,
)
    ensures
        final(out)@ == old(out)@ + prompt_pwd(pwd@, home@, dir_len as nat, full_dirs as nat),
{
    let tilde = !home.is_empty() && has_prefix(pwd, home) && (pwd.len() == home.len()
        || pwd[home.len()] == '/');
    assert(tilde == in_home(pwd@, home@));
    let remainder: &[char] = if tilde {
        skip(pwd, home.len())
    } else {
        pwd
    };
    if dir_len == 0 {
        if tilde {
            out.push('~');
        }
        push_wide(out, remainder);
        assert(out@ == old(out)@ + contracted(pwd@, home@));
        return;
    }
    let slashes = count_slashes(remainder);
    let ghost cut = slashes + 1 - full_dirs;
    let ghost before = out@;
    let ghost rem = remainder@;
    let ghost width_limit = dir_len as nat;
    if tilde {
        out.push('~');
    }
    // The segment that the next character belongs to, how much of it has been seen, and
    // whether it starts with a dot.
    let mut i: usize = 0;
    let mut width: usize = 0;
    let mut dotted = false;
    assert(rem.take(0) == Seq::<char>::empty());
    proof {
        let first = split(rem.take(0));
        assert(first == seq![Seq::<char>::empty()]);
        assert(out@ == before + join(shown_segments(tilde, cut, width_limit, first)));
    }
    for k in 0..remainder.len()
        invariant
            remainder@ == rem,
            dir_len > 0,
            width_limit == dir_len,
            tilde ==> rem.len() == 0 || rem[0] == '/',
            tilde && k > 0 ==> i > 0,
            i <= k,
            width <= k,
            slashes + 1 == split(rem).len(),
            cut == slashes + 1 - full_dirs,
            split(rem.take(k as int)).len() == i + 1,
            split(rem.take(k as int)).last().len() == width,
            dotted == (width > 0 && split(rem.take(k as int)).last()[0] == '.'),
            out@ == before + join(
                shown_segments(tilde, cut, width_limit, split(rem.take(k as int))),
            ),
    {
        let c = remainder[k];
        proof {
            lemma_split_grows(rem, k as int);
        }
        let ghost parts = split(rem.take(k as int));
        let ghost shown = shown_segments(tilde, cut, width_limit, parts);
        assert(rem.take(k + 1).drop_last() == rem.take(k as int));
        let ghost parts2 = split(rem.take(k + 1));
        let ghost shown2 = shown_segments(tilde, cut, width_limit, parts2);
        if c == '/' {
            proof {
                assert(shown2.drop_last() =~= shown);
                assert(shown2.last() == Seq::<char>::empty());
                assert(join(shown2) == join(shown).push('/'));
            }
            out.push('/');
            i = i + 1;
            width = 0;
            dotted = false;
        } else {
            if width == 0 {
                dotted = c == '.';
            }
            let ghost part = parts.last();
            let ghost part2 = part.push(c);
            assert(parts2 == parts.drop_last().push(part2));
            assert(part2[0] == (if width == 0 { c } else { part[0] }));
            let keep = full_dirs > slashes - i || width < dir_len || (dotted && width == dir_len);
            proof {
                assert(!(tilde && i == 0));
                lemma_abbreviated_push(part, c, width_limit);
                assert(shown2.drop_last() =~= shown.drop_last());
                assert(shown2.last() == (if keep { shown.last().push(c) } else { shown.last() }));
                lemma_join_last(shown.drop_last(), shown.last(), c);
                assert(shown.drop_last().push(shown.last()) =~= shown);
                assert(shown2 =~= shown.drop_last().push(shown2.last()));
            }
            if keep {
                out.push(c);
            }
            width = width + 1;
        }
    }
    assert(rem.take(rem.len() as int) == rem);
    proof {
        let parts = split(rem);
        assert(shown_segments(tilde, cut, width_limit, parts) =~= shown_segments(
            tilde,
            parts.len() - full_dirs,
            width_limit,
            parts,
        ));
    }
}

/// The number of slashes in `s`, one less than it has segments.
fn count_slashes(s: &[char]) -> (n: usize)
    ensures
        n + 1 == split(s@).len(),
{
    let mut n: usize = 0;
    assert(s@.take(0) == Seq::<char>::empty());
    for k in 0..s.len()
        invariant
            n <= k,
            n + 1 == split(s@.take(k as int)).len(),
    {
        assert(s@.take(k + 1).drop_last() == s@.take(k as int));
        if s[k] == '/' {
            n = n + 1;
        }
    }
    assert(s@.take(s@.len() as int) == s@);
    n
}

/// A further character of a segment is shown exactly while there is room for it.
proof fn lemma_abbreviated_push(part: Seq<char>, c: char, dir_len: nat)
    requires
        dir_len > 0,
    ensures
        abbreviated(part.push(c), dir_len) == (if part.len() < abbreviated_width(
            part.push(c),
            dir_len,
        ) {
            abbreviated(part, dir_len).push(c)
        } else {
            abbreviated(part, dir_len)
        }),
{
    let longer = part.push(c);
    if part.len() > 0 {
        assert(longer[0] == part[0]);
    }
    assert(abbreviated(longer, dir_len) =~= (if part.len() < abbreviated_width(longer, dir_len) {
        abbreviated(part, dir_len).push(c)
    } else {
        abbreviated(part, dir_len)
    }));
}

/// A character added to the last segment is added to the whole text.
proof fn lemma_join_last(init: Seq<Seq<char>>, last: Seq<char>, c: char)
    ensures
        join(init.push(last.push(c))) == join(init.push(last)).push(c),
{
    let with = init.push(last.push(c));
    let without = init.push(last);
    assert(with.drop_last() == init);
    assert(without.drop_last() == init);
    if init.len() > 0 {
        let head = join(init).push('/');
        assert(head + last.push(c) == (head + last).push(c));
    }
}

/// Shortening keeps every slash: each component is still there, the last `full_dirs` of them in
/// full, the others as their leading characters. Only the home directory turns into `~`.
pub proof fn law_components_kept(pwd: Seq<char>, home: Seq<char>, dir_len: nat, full_dirs: nat)
    requires
        dir_len > 0,
    ensures
        ({
            let parts = split(below_home(pwd, home));
            let shown = split(prompt_pwd(pwd, home, dir_len, full_dirs));
            &&& shown.len() == parts.len()
            &&& in_home(pwd, home) ==> parts[0].len() == 0 && shown[0] == seq!['~']
            &&& forall|i: int|
                0 <= i < parts.len() && !(in_home(pwd, home) && i == 0) ==> {
                    &&& (#[trigger] shown[i]).is_prefix_of(parts[i])
                    &&& i >= parts.len() - full_dirs ==> shown[i] == parts[i]
                    &&& i < parts.len() - full_dirs ==> shown[i] == abbreviated(parts[i], dir_len)
                }
        }),
{
    let tilde = in_home(pwd, home);
    let rem = below_home(pwd, home);
    let parts = split(rem);
    let cut = parts.len() - full_dirs;
    let shown = shown_segments(tilde, cut, dir_len, parts);
    lemma_split_nonempty(rem);
    law_split_gives_segments(rem);
    assert forall|i: int| 0 <= i < shown.len() implies is_segment(#[trigger] shown[i]) by {
        assert(is_segment(parts[i]));
        if shown[i].contains('/') {
            let j = choose|j: int| 0 <= j < shown[i].len() && shown[i][j] == '/';
            if !(tilde && i == 0) {
                assert(parts[i][j] == '/');
            }
        }
    }
    law_split_inverts_join(shown);
    if tilde {
        lemma_first_segment_empty(rem);
    }
    assert forall|i: int| 0 <= i < parts.len() && !(tilde && i == 0) implies (
    #[trigger] shown[i]).is_prefix_of(parts[i]) by {
        assert(parts[i].subrange(0, shown[i].len() as int) =~= shown[i]);
    }
}

/// With as many full components as there are, nothing is shortened: the same as a `dir_len` of 0.
pub proof fn law_all_components_full(pwd: Seq<char>, home: Seq<char>, dir_len: nat, full_dirs: nat)
    requires
        full_dirs >= split(below_home(pwd, home)).len(),
    ensures
        prompt_pwd(pwd, home, dir_len, full_dirs) == contracted(pwd, home),
{
    let tilde = in_home(pwd, home);
    let rem = below_home(pwd, home);
    let parts = split(rem);
    if dir_len > 0 {
        let shown = shown_segments(tilde, parts.len() - full_dirs, dir_len, parts);
        lemma_split_nonempty(rem);
        law_join_inverts_split(rem);
        if tilde {
            lemma_first_segment_empty(rem);
            assert(shown =~= parts.update(0, seq!['~'] + parts[0]));
            lemma_join_first(parts, seq!['~']);
        } else {
            assert(shown =~= parts);
        }
    }
}

/// The home directory itself is shown as `~`, however much is shortened.
pub proof fn law_home_is_tilde(home: Seq<char>, dir_len: nat, full_dirs: nat)
    requires
        home.len() > 0,
    ensures
        prompt_pwd(home, home, dir_len, full_dirs) == seq!['~'],
{
    assert(home.subrange(0, home.len() as int) =~= home);
    let rem = below_home(home, home);
    assert(rem =~= Seq::<char>::empty());
    assert(split(rem) == seq![Seq::<char>::empty()]);
    assert(seq!['~'] + rem =~= seq!['~']);
}

/// Nothing stands before a leading slash.
proof fn lemma_first_segment_empty(s: Seq<char>)
    requires
        s.len() == 0 || s[0] == '/',
    ensures
        split(s)[0].len() == 0,
    decreases s.len(),
{
    if s.len() > 1 {
        lemma_first_segment_empty(s.drop_last());
        lemma_split_nonempty(s.drop_last());
        if s.last() != '/' && split(s.drop_last()).len() == 1 {
            law_join_inverts_split(s.drop_last());
        }
    } else if s.len() == 1 {
        assert(s.drop_last() == Seq::<char>::empty());
        assert(split(s.drop_last()) == seq![Seq::<char>::empty()]);
    }
}

/// Text put before the first segment is put before the whole text.
proof fn lemma_join_first(parts: Seq<Seq<char>>, before: Seq<char>)
    requires
        parts.len() >= 1,
    ensures
        join(parts.update(0, before + parts[0])) == before + join(parts),
    decreases parts.len(),
{
    let with = parts.update(0, before + parts[0]);
    if parts.len() > 1 {
        let init = parts.drop_last();
        lemma_join_first(init, before);
        assert(with.drop_last() =~= init.update(0, before + init[0]));
        assert(join(with) =~= before + join(parts));
    }
}

/// A directory that is home, or lies below it, is shown as `~` and what follows home, and what
/// follows is shown as if there were no home.
pub proof fn law_home_is_contracted(home: Seq<char>, rest: Seq<char>, dir_len: nat, full_dirs: nat)
    requires
        home.len() > 0,
        rest.len() == 0 || rest[0] == '/',
    ensures
        prompt_pwd(home + rest, home, dir_len, full_dirs) == seq!['~'] + prompt_pwd(
            rest,
            Seq::empty(),
            dir_len,
            full_dirs,
        ),
        prompt_pwd(home + rest, home, 0, full_dirs) == seq!['~'] + rest,
{
    let pwd = home + rest;
    assert(pwd.subrange(0, home.len() as int) =~= home);
    assert(in_home(pwd, home));
    assert(below_home(pwd, home) =~= rest);
    let parts = split(rest);
    let cut = parts.len() - full_dirs;
    let with = shown_segments(true, cut, dir_len, parts);
    let without = shown_segments(false, cut, dir_len, parts);
    lemma_split_nonempty(rest);
    lemma_first_segment_empty(rest);
    if dir_len > 0 {
        assert(without[0] =~= Seq::<char>::empty());
        assert(with =~= without.update(0, seq!['~'] + without[0]));
        lemma_join_first(without, seq!['~']);
    }
}

/// A directory that is not home and does not lie below it is shown as if there were no home. With
/// a `dir_len` of 0 it is shown as it is.
pub proof fn law_no_tilde_outside_home(pwd: Seq<char>, home: Seq<char>, dir_len: nat, full_dirs: nat)
    requires
        home.len() == 0 || forall|rest: Seq<char>|
            pwd == #[trigger] (home + rest) ==> rest.len() > 0 && rest[0] != '/',
    ensures
        prompt_pwd(pwd, home, dir_len, full_dirs) == prompt_pwd(
            pwd,
            Seq::empty(),
            dir_len,
            full_dirs,
        ),
        prompt_pwd(pwd, home, 0, full_dirs) == pwd,
{
    if in_home(pwd, home) {
        assert(pwd =~= home + pwd.skip(home.len() as int));
    }
}

/// The last component follows a slash. With `full_dirs` above 0 it is shown in full, and the
/// directory before it with one full component less. Otherwise it is shown as its first `dir_len`
/// characters, and one more where it begins with a dot.
pub proof fn law_last_component_is_shown(
    dir: Seq<char>,
    name: Seq<char>,
    dir_len: nat,
    full_dirs: nat,
)
    requires
        forall|i: int| 0 <= i < name.len() ==> #[trigger] name[i] != '/',
        dir_len > 0,
    ensures
        ({
            let none = Seq::<char>::empty();
            let width = if name.len() > 0 && name[0] == '.' {
                dir_len + 1
            } else {
                dir_len
            };
            let short = if name.len() <= width {
                name
            } else {
                name.take(width as int)
            };
            let shown = prompt_pwd(dir + seq!['/'] + name, none, dir_len, full_dirs);
            &&& full_dirs > 0 ==> shown == prompt_pwd(dir, none, dir_len, (full_dirs - 1) as nat)
                + seq!['/'] + name
            &&& full_dirs == 0 ==> shown == prompt_pwd(dir, none, dir_len, 0) + seq!['/'] + short
            &&& full_dirs > 0 ==> prompt_pwd(name, none, dir_len, full_dirs) == name
            &&& full_dirs == 0 ==> prompt_pwd(name, none, dir_len, 0) == short
        }),
{
    let none = Seq::<char>::empty();
    let pwd = dir + seq!['/'] + name;
    assert(pwd =~= dir.push('/') + name);
    assert(is_segment(name));
    lemma_split_concat(dir, name);
    lemma_split_segment(name);
    lemma_split_nonempty(dir);
    let parts = split(dir);
    let all = split(pwd);
    assert(all =~= parts.push(name));
    let fewer: nat = if full_dirs > 0 {
        (full_dirs - 1) as nat
    } else {
        0
    };
    let shown = shown_segments(false, all.len() - full_dirs, dir_len, all);
    let before = shown_segments(false, parts.len() - fewer, dir_len, parts);
    let last = shown_segment(false, all.len() - full_dirs, dir_len, parts.len() as int, name);
    assert(shown =~= before.push(last));
    assert(shown.drop_last() =~= before);
    assert(join(shown) =~= join(before) + seq!['/'] + last);
    let only = shown_segments(false, 1 - full_dirs, dir_len, split(name));
    assert(join(only) == only[0]);
}

} // verus!
