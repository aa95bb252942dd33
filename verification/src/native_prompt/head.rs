//! The contents of `.git` files and of `.git/HEAD`.

use crate::unix_path::{absolute, joined, parent, path_is_absolute, path_join, path_parent};
use crate::wide::{has_prefix, push_str, wide, WString};
use vstd::prelude::*;
use vstd::string::{StrSliceExecFns, StringSliceAdditionalSpecFns};
use vstd::utf8::{
    char_is_scalar, decode_utf8, encode_scalar, encode_utf8, encode_utf8_decode_utf8,
    encode_utf8_valid_utf8, is_ascii_chars, is_ascii_chars_encode_utf8, is_ascii_chars_nat_bound,
    valid_utf8,
};

verus! {

/// How many bytes are read of a `.git` file.
pub const GIT_FILE_LIMIT: usize = 512;

/// How many bytes are read of `HEAD`.
pub const HEAD_LIMIT: usize = 256;

/// How many bytes are shown of the commit of a detached head, at most.
pub const SHORT_COMMIT: usize = 8;

/// The characters that Unicode counts as white space.
pub open spec fn is_white_space(c: char) -> bool {
    ||| '\u{9}' <= c <= '\u{d}'
    ||| c == ' '
    ||| c == '\u{85}'
    ||| c == '\u{a0}'
    ||| c == '\u{1680}'
    ||| '\u{2000}' <= c <= '\u{200a}'
    ||| c == '\u{2028}'
    ||| c == '\u{2029}'
    ||| c == '\u{202f}'
    ||| c == '\u{205f}'
    ||| c == '\u{3000}'
}

/// `s` without the white space at its end.
pub open spec fn trimmed_end(s: Seq<char>) -> Seq<char>
    decreases s.len(),
{
    if s.len() > 0 && is_white_space(s.last()) {
        trimmed_end(s.drop_last())
    } else {
        s
    }
}

/// `s` without the white space at its beginning.
pub open spec fn trimmed_start(s: Seq<char>) -> Seq<char>
    decreases s.len(),
{
    if s.len() > 0 && is_white_space(s[0]) {
        trimmed_start(s.skip(1))
    } else {
        s
    }
}

/// One character for each byte, with the byte as its number.
pub open spec fn bytes_as_chars(bytes: Seq<u8>) -> Seq<char> {
    Seq::new(bytes.len(), |i: int| bytes[i] as char)
}

/// The text of a file: nothing where it could not be read or is not UTF-8.
pub open spec fn file_text(contents: Option<Seq<u8>>) -> Option<Seq<char>> {
    match contents {
        Some(bytes) if valid_utf8(bytes) => Some(decode_utf8(bytes)),
        _ => None,
    }
}

/// The view of what was read of a file.
pub open spec fn contents_view(contents: Option<&[u8]>) -> Option<Seq<u8>> {
    match contents {
        Some(bytes) => Some(bytes@),
        None => None,
    }
}

/// The longest beginning of `s` that takes at most `limit` bytes in UTF-8.
pub open spec fn beginning_within(s: Seq<char>, limit: nat) -> Seq<char>
    decreases s.len(),
{
    if s.len() == 0 || encode_utf8(s).len() <= limit {
        s
    } else {
        beginning_within(s.drop_last(), limit)
    }
}

/// The name of the branch, where `line` is the text of `HEAD`: what follows the reference prefix,
/// and for a detached head the beginning of the commit.
pub open spec fn branch_text(line: Seq<char>) -> Seq<char> {
    let branch = "ref: refs/heads/"@;
    let other = "ref: "@;
    if branch.is_prefix_of(line) {
        line.skip(branch.len() as int)
    } else if other.is_prefix_of(line) {
        line.skip(other.len() as int)
    } else {
        beginning_within(line, SHORT_COMMIT as nat)
    }
}

/// What the prompt shows of `HEAD`: a space and the branch, or nothing.
pub open spec fn branch_label(contents: Option<Seq<u8>>) -> Seq<char> {
    match file_text(contents) {
        Some(text) => {
            let branch = branch_text(trimmed_end(text));
            if branch.len() == 0 {
                Seq::empty()
            } else {
                seq![' '] + branch
            }
        },
        None => Seq::empty(),
    }
}

/// The path that a `.git` file names behind `gitdir: `.
pub open spec fn gitdir_target(contents: Option<Seq<u8>>) -> Option<Seq<char>> {
    match file_text(contents) {
        Some(text) => {
            let raw = trimmed_start(trimmed_end(text));
            if "gitdir: "@.is_prefix_of(raw) {
                Some(raw.skip("gitdir: "@.len() as int))
            } else {
                None
            }
        },
        None => None,
    }
}

/// The git directory that the `.git` file `path` leads to. A relative target is seen from the
/// directory of the file.
pub open spec fn resolved_gitdir(path: Seq<char>, contents: Option<Seq<u8>>) -> Option<Seq<char>> {
    match (gitdir_target(contents), parent(path)) {
        (Some(target), Some(dir)) => Some(joined(dir, target)),
        (Some(target), None) if absolute(target) => Some(target),
        _ => None,
    }
}

/// The bytes as text, with `std::str::from_utf8`: a result exactly where they are valid UTF-8,
/// and then the text whose encoding they are.
#[verifier::external_body]
fn utf8_text(bytes: &[u8]) -> (r: Option<&str>)
    ensures
        r is Some <==> valid_utf8(bytes@),
        r matches Some(s) ==> s.spec_bytes() == bytes@,
{
    std::str::from_utf8(bytes).ok()
}

/// The text of a file from the bytes read of it.
fn text_of(contents: Option<&[u8]>) -> (r: Option<&str>)
    ensures
        r is Some <==> file_text(contents_view(contents)) is Some,
        r matches Some(s) ==> file_text(contents_view(contents)) == Some(s@),
{
    match contents {
        Some(bytes) => {
            let r = utf8_text(bytes);
            proof {
                if let Some(s) = r {
                    encode_utf8_decode_utf8(s@);
                }
            }
            r
        },
        None => None,
    }
}

fn white_space(c: char) -> (r: bool)
    ensures
        r == is_white_space(c),
{
    ('\u{9}' <= c && c <= '\u{d}') || c == ' ' || c == '\u{85}' || c == '\u{a0}' || c == '\u{1680}'
        || ('\u{2000}' <= c && c <= '\u{200a}') || c == '\u{2028}' || c == '\u{2029}' || c
        == '\u{202f}' || c == '\u{205f}' || c == '\u{3000}'
}

fn trim_end(s: &str) -> (r: &str)
    ensures
        r@ == trimmed_end(s@),
{
    let chars = wide(s);
    let mut end: usize = chars.len();
    assert(s@.take(end as int) == s@);
    while end > 0 && white_space(chars[end - 1])
        invariant
            chars@ == s@,
            end <= chars@.len(),
            trimmed_end(s@.take(end as int)) == trimmed_end(s@),
        decreases end,
    {
        assert(s@.take(end as int).drop_last() == s@.take(end - 1));
        end = end - 1;
    }
    proof {
        if end > 0 {
            assert(s@.take(end as int).last() == s@[end - 1]);
        }
    }
    s.substring_char(0, end)
}

fn trim_start(s: &str) -> (r: &str)
    ensures
        r@ == trimmed_start(s@),
{
    let chars = wide(s);
    let mut start: usize = 0;
    assert(s@.skip(0) == s@);
    while start < chars.len() && white_space(chars[start])
        invariant
            chars@ == s@,
            start <= chars@.len(),
            trimmed_start(s@.skip(start as int)) == trimmed_start(s@),
        decreases chars@.len() - start,
    {
        assert(s@.skip(start as int).skip(1) == s@.skip(start + 1));
        start = start + 1;
    }
    s.substring_char(start, chars.len())
}

fn strip_prefix<'a>(s: &'a str, prefix: &str) -> (r: Option<&'a str>)
    ensures
        r is Some <==> prefix@.is_prefix_of(s@),
        r matches Some(rest) ==> rest@ == s@.skip(prefix@.len() as int),
{
    let chars = wide(s);
    let start = wide(prefix);
    if has_prefix(&chars, &start) {
        Some(s.substring_char(start.len(), chars.len()))
    } else {
        None
    }
}

/// Push the bytes of `s` directly into a wide string, one character per byte.
pub fn push_ascii(out: &mut WString, s: &str)
    ensures
        final(out)@ == old(out)@ + bytes_as_chars(s.spec_bytes()),
{
    let bytes = s.as_bytes();
    let ghost before = out@;
    out.reserve(bytes.len());
    for i in 0..bytes.len()
        invariant
            bytes@ == s.spec_bytes(),
            out@ == before + bytes_as_chars(bytes@.take(i as int)),
    {
        out.push(bytes[i] as char);
        assert(bytes_as_chars(bytes@.take(i + 1)) =~= bytes_as_chars(bytes@.take(i as int)).push(
            bytes@[i as int] as char,
        ));
    }
    assert(bytes@.take(bytes@.len() as int) == bytes@);
}

/// How many bytes a character takes in UTF-8.
fn utf8_width(c: char) -> (width: usize)
    ensures
        width == encode_scalar(c as u32).len(),
{
    proof {
        char_is_scalar(c);
    }
    let v: u32 = c as u32;
    if v <= 0x7f {
        1
    } else if v <= 0x7ff {
        2
    } else if v <= 0xffff {
        3
    } else {
        4
    }
}

/// The commit of a detached head, cut short at a character.
fn short_commit(line: &str) -> (r: &str)
    ensures
        r@ == beginning_within(line@, SHORT_COMMIT as nat),
{
    let chars = wide(line);
    let mut used: usize = 0;
    let mut n: usize = 0;
    assert(line@.take(0) == Seq::<char>::empty());
    while n < chars.len()
        invariant
            chars@ == line@,
            n <= chars@.len(),
            used == encode_utf8(line@.take(n as int)).len(),
            used <= SHORT_COMMIT,
        decreases chars@.len() - n,
    {
        let width = utf8_width(chars[n]);
        proof {
            lemma_encode_push(line@.take(n as int), line@[n as int]);
            assert(line@.take(n + 1) == line@.take(n as int).push(line@[n as int]));
        }
        if width > SHORT_COMMIT - used {
            proof {
                lemma_beginning_ends(line@, SHORT_COMMIT as nat, n as int);
            }
            return line.substring_char(0, n);
        }
        used = used + width;
        n = n + 1;
    }
    assert(line@.take(n as int) == line@);
    line
}

/// Write a space and the branch that `HEAD` names into `out`, where `contents` is what was read
/// of the file, `None` if reading failed. Returns whether a branch was written.
pub fn read_head_into(contents: Option<&[u8]>, out: &mut WString) -> (written: bool)
    ensures
        final(out)@ == old(out)@ + branch_label(contents_view(contents)),
        written == (branch_label(contents_view(contents)).len() > 0),
{
    let line = match text_of(contents) {
        Some(text) => trim_end(text),
        None => {
            assert(out@ =~= old(out)@ + branch_label(contents_view(contents)));
            return false;
        },
    };
    let branch: &str = if let Some(branch) = strip_prefix(line, "ref: refs/heads/") {
        branch
    } else if let Some(branch) = strip_prefix(line, "ref: ") {
        branch
    } else {
        short_commit(line)
    };
    assert(branch@ == branch_text(line@));
    proof {
        lemma_encoding_empty(branch@);
    }
    if branch.as_bytes().is_empty() {
        assert(out@ =~= old(out)@ + branch_label(contents_view(contents)));
        return false;
    }
    out.push(' ');
    if branch.is_ascii() {
        proof {
            lemma_ascii_bytes_as_chars(branch@);
        }
        push_ascii(out, branch);
    } else {
        push_str(out, branch);
    }
    assert(out@ =~= old(out)@ + branch_label(contents_view(contents)));
    true
}

/// Follow the `gitdir:` indirection in a worktree or submodule `.git` file, where `contents` is
/// what was read of the file at `path`, `None` if reading failed.
pub fn resolve_gitdir_file(path: &[char], contents: Option<&[u8]>) -> (r: Option<WString>)
    ensures
        r is Some <==> resolved_gitdir(path@, contents_view(contents)) is Some,
        r matches Some(dir) ==> resolved_gitdir(path@, contents_view(contents)) == Some(dir@),
{
    let raw = match text_of(contents) {
        Some(text) => trim_start(trim_end(text)),
        None => return None,
    };
    let target = match strip_prefix(raw, "gitdir: ") {
        Some(target) => wide(target),
        None => return None,
    };
    if path_is_absolute(&target) {
        Some(target)
    } else {
        match path_parent(path) {
            Some(dir) => Some(path_join(&dir, &target)),
            None => None,
        }
    }
}

/// A branch that `HEAD` names is shown as it is written, behind a space.
pub proof fn law_branch_is_shown(branch: Seq<char>)
    requires
        branch.len() > 0,
        !is_white_space(branch.last()),
    ensures
        branch_label(Some(encode_utf8("ref: refs/heads/"@ + branch + "\n"@))) == seq![' '] + branch,
{
    let prefix = "ref: refs/heads/"@;
    let line = prefix + branch;
    let text = line + "\n"@;
    encode_utf8_valid_utf8(text);
    encode_utf8_decode_utf8(text);
    reveal_strlit("\n");
    assert(text.drop_last() =~= line);
    assert(text.last() == '\n');
    assert(line.last() == branch.last());
    assert(trimmed_end(line) == line);
    assert(trimmed_end(text) == line);
    assert(line.subrange(0, prefix.len() as int) =~= prefix);
    assert(line.skip(prefix.len() as int) =~= branch);
}

/// A detached head is shown as the first eight characters of the commit.
pub proof fn law_detached_head_is_shown(commit: Seq<char>)
    requires
        commit.len() >= 8,
        is_ascii_chars(commit),
        !is_white_space(commit.last()),
        !"ref: "@.is_prefix_of(commit),
    ensures
        branch_label(Some(encode_utf8(commit + "\n"@))) == seq![' '] + commit.take(8),
{
    let text = commit + "\n"@;
    encode_utf8_valid_utf8(text);
    encode_utf8_decode_utf8(text);
    reveal_strlit("\n");
    reveal_strlit("ref: refs/heads/");
    reveal_strlit("ref: ");
    assert(text.drop_last() =~= commit);
    assert(trimmed_end(commit) == commit);
    assert(trimmed_end(text) == commit);
    if "ref: refs/heads/"@.is_prefix_of(commit) {
        assert(commit.subrange(0, 5) =~= commit.subrange(0, "ref: refs/heads/"@.len() as int).take(
            5,
        ));
        assert("ref: refs/heads/"@.take(5) =~= "ref: "@);
    }
    is_ascii_chars_encode_utf8(commit.take(8));
    if commit.len() == 8 {
        assert(commit.take(8) =~= commit);
    } else {
        is_ascii_chars_encode_utf8(commit.take(9));
        lemma_beginning_ends(commit, SHORT_COMMIT as nat, 8);
    }
}

/// What is shown of a detached head is a beginning of the commit that fits into the limit, and
/// no longer beginning does.
pub proof fn law_beginning_is_longest(s: Seq<char>, limit: nat, k: int)
    requires
        0 <= k <= s.len(),
    ensures
        beginning_within(s, limit).is_prefix_of(s),
        encode_utf8(beginning_within(s, limit)).len() <= limit,
        k > beginning_within(s, limit).len() ==> encode_utf8(s.take(k)).len() > limit,
    decreases s.len(),
{
    let shown = beginning_within(s, limit);
    if s.len() == 0 || encode_utf8(s).len() <= limit {
        assert(s.subrange(0, s.len() as int) =~= s);
    } else {
        let init = s.drop_last();
        if k == s.len() {
            assert(s.take(k) =~= s);
            law_beginning_is_longest(init, limit, 0);
        } else {
            assert(s.take(k) =~= init.take(k));
            law_beginning_is_longest(init, limit, k);
        }
        assert(s.subrange(0, shown.len() as int) =~= init.subrange(0, shown.len() as int));
    }
}

/// The last character is encoded last.
proof fn lemma_encode_push(s: Seq<char>, c: char)
    ensures
        encode_utf8(s.push(c)) == encode_utf8(s) + encode_scalar(c as u32),
    decreases s.len(),
{
    let longer = s.push(c);
    if s.len() == 0 {
        assert(longer.drop_first() =~= Seq::empty());
        assert(encode_utf8(longer.drop_first()) =~= Seq::empty());
        assert(encode_utf8(s) =~= Seq::empty());
    } else {
        lemma_encode_push(s.drop_first(), c);
        assert(longer.drop_first() =~= s.drop_first().push(c));
        assert(encode_utf8(longer) =~= encode_utf8(s) + encode_scalar(c as u32));
    }
}

/// A longer beginning takes more bytes.
proof fn lemma_encoding_grows(s: Seq<char>, k: int)
    requires
        0 <= k <= s.len(),
    ensures
        encode_utf8(s.take(k)).len() <= encode_utf8(s).len(),
    decreases s.len() - k,
{
    if k < s.len() {
        lemma_encoding_grows(s, k + 1);
        lemma_encode_push(s.take(k), s[k]);
        assert(s.take(k + 1) =~= s.take(k).push(s[k]));
    } else {
        assert(s.take(k) =~= s);
    }
}

/// Where one more character is too much, the beginning ends.
proof fn lemma_beginning_ends(s: Seq<char>, limit: nat, n: int)
    requires
        0 <= n < s.len(),
        encode_utf8(s.take(n)).len() <= limit,
        encode_utf8(s.take(n + 1)).len() > limit,
    ensures
        beginning_within(s, limit) == s.take(n),
    decreases s.len(),
{
    lemma_encoding_grows(s, n + 1);
    let init = s.drop_last();
    if n < init.len() {
        assert(init.take(n) =~= s.take(n));
        assert(init.take(n + 1) =~= s.take(n + 1));
        lemma_beginning_ends(init, limit, n);
    } else {
        assert(init =~= s.take(n));
        assert(beginning_within(init, limit) == init);
    }
}

/// Only the empty text takes no bytes.
proof fn lemma_encoding_empty(s: Seq<char>)
    ensures
        encode_utf8(s).len() == 0 <==> s.len() == 0,
{
    if s.len() > 0 {
        assert(encode_utf8(s) == encode_scalar(s[0] as u32) + encode_utf8(s.drop_first()));
    }
}

/// The bytes of ASCII text are its characters.
proof fn lemma_ascii_bytes_as_chars(s: Seq<char>)
    requires
        is_ascii_chars(s),
    ensures
        bytes_as_chars(encode_utf8(s)) == s,
{
    is_ascii_chars_encode_utf8(s);
    is_ascii_chars_nat_bound(s);
    assert forall|i: int| 0 <= i < s.len() implies bytes_as_chars(encode_utf8(s))[i] == s[i] by {
        assert((s[i] as nat) < 128);
        assert((s[i] as u8) as char == s[i]);
    }
    assert(bytes_as_chars(encode_utf8(s)) =~= s);
}

/// White space at the end of a text is dropped, and at its beginning too, up to what is not white
/// space.
pub proof fn law_white_space_is_dropped(before: Seq<char>, text: Seq<char>, after: Seq<char>)
    requires
        forall|i: int| 0 <= i < before.len() ==> is_white_space(#[trigger] before[i]),
        forall|i: int| 0 <= i < after.len() ==> is_white_space(#[trigger] after[i]),
    ensures
        text.len() == 0 || !is_white_space(text.last()) ==> trimmed_end(text + after) == text,
        text.len() == 0 || !is_white_space(text[0]) ==> trimmed_start(before + text) == text,
    decreases before.len() + after.len(),
{
    if after.len() > 0 {
        let shorter = after.drop_last();
        assert forall|i: int| 0 <= i < shorter.len() implies is_white_space(
            #[trigger] shorter[i],
        ) by {
            assert(is_white_space(after[i]));
        }
        assert(is_white_space(after[after.len() - 1]));
        assert((text + after).drop_last() =~= text + shorter);
        law_white_space_is_dropped(before, text, shorter);
    } else if before.len() > 0 {
        let shorter = before.skip(1);
        assert forall|i: int| 0 <= i < shorter.len() implies is_white_space(
            #[trigger] shorter[i],
        ) by {
            assert(is_white_space(before[i + 1]));
        }
        assert(is_white_space(before[0]));
        assert((before + text).skip(1) =~= shorter + text);
        law_white_space_is_dropped(shorter, text, after);
        assert(text + after =~= text);
    } else {
        assert(text + after =~= text);
        assert(before + text =~= text);
    }
}

proof fn lemma_text_of_file(text: Seq<char>)
    ensures
        file_text(Some(encode_utf8(text))) == Some(text),
{
    encode_utf8_valid_utf8(text);
    encode_utf8_decode_utf8(text);
}

/// The whole name behind `ref: refs/heads/` is shown, up to the white space at the end of the
/// file. Where there is no name, nothing is.
pub proof fn law_whole_branch_is_shown(branch: Seq<char>, end: Seq<char>)
    requires
        branch.len() > 0 ==> !is_white_space(branch.last()),
        forall|i: int| 0 <= i < end.len() ==> is_white_space(#[trigger] end[i]),
    ensures
        branch_label(Some(encode_utf8("ref: refs/heads/"@ + branch + end))) == (if branch.len()
            == 0 {
            Seq::empty()
        } else {
            seq![' '] + branch
        }),
{
    let prefix = "ref: refs/heads/"@;
    let line = prefix + branch;
    reveal_strlit("ref: refs/heads/");
    lemma_text_of_file(line + end);
    assert(prefix.last() == '/');
    assert(line.last() == (if branch.len() > 0 {
        branch.last()
    } else {
        '/'
    }));
    law_white_space_is_dropped(Seq::empty(), line, end);
    assert(line.subrange(0, prefix.len() as int) =~= prefix);
    assert(line.skip(prefix.len() as int) =~= branch);
}

/// A reference to anything else is shown whole.
pub proof fn law_other_reference_is_shown(name: Seq<char>, end: Seq<char>)
    requires
        name.len() > 0,
        !is_white_space(name.last()),
        !"refs/heads/"@.is_prefix_of(name),
        forall|i: int| 0 <= i < end.len() ==> is_white_space(#[trigger] end[i]),
    ensures
        branch_label(Some(encode_utf8("ref: "@ + name + end))) == seq![' '] + name,
{
    let prefix = "ref: "@;
    let branch = "ref: refs/heads/"@;
    let line = prefix + name;
    reveal_strlit("ref: ");
    reveal_strlit("refs/heads/");
    reveal_strlit("ref: refs/heads/");
    lemma_text_of_file(line + end);
    assert(line.last() == name.last());
    law_white_space_is_dropped(Seq::empty(), line, end);
    assert(line.subrange(0, 5) =~= prefix);
    assert(line.skip(5) =~= name);
    if branch.is_prefix_of(line) {
        assert(name.subrange(0, 11) =~= line.subrange(0, 16).skip(5));
        assert(branch.skip(5) =~= "refs/heads/"@);
    }
}

/// Of a head without a reference the longest beginning of at most eight bytes is shown.
pub proof fn law_detached_head_is_cut(line: Seq<char>, end: Seq<char>)
    requires
        line.len() > 0,
        !is_white_space(line.last()),
        !"ref: "@.is_prefix_of(line),
        forall|i: int| 0 <= i < end.len() ==> is_white_space(#[trigger] end[i]),
    ensures
        exists|n: int| #[trigger]
            line.take(n).len() == n && 0 < n <= line.len() && branch_label(
                Some(encode_utf8(line + end)),
            ) == seq![' '] + line.take(n) && encode_utf8(line.take(n)).len() <= 8 && (n
                == line.len() || encode_utf8(line.take(n + 1)).len() > 8),
{
    let branch = "ref: refs/heads/"@;
    reveal_strlit("ref: ");
    reveal_strlit("ref: refs/heads/");
    lemma_text_of_file(line + end);
    law_white_space_is_dropped(Seq::empty(), line, end);
    if branch.is_prefix_of(line) {
        assert(line.subrange(0, 5) =~= line.subrange(0, 16).take(5));
        assert(branch.take(5) =~= "ref: "@);
    }
    let shown = beginning_within(line, 8);
    let n = shown.len() as int;
    law_beginning_is_longest(line, 8, 0);
    assert(line.take(n) =~= shown);
    if n < line.len() {
        law_beginning_is_longest(line, 8, n + 1);
    }
    if n == 0 {
        assert(line.take(1).drop_first() =~= Seq::<char>::empty());
        assert(encode_utf8(line.take(1).drop_first()).len() == 0);
        assert(encode_utf8(line.take(1)).len() <= 4);
    }
    assert(line.take(n).len() == n);
}

/// Nothing is shown where `HEAD` could not be read, where it is not UTF-8 and where it holds only
/// white space.
pub proof fn law_unusable_head_is_not_shown(head: Option<&[u8]>)
    ensures
        head is None ==> contents_view(head) is None,
        head matches Some(bytes) ==> contents_view(head) == Some(bytes@),
        branch_label(None) == Seq::<char>::empty(),
        forall|bytes: Seq<u8>| !valid_utf8(bytes) ==> #[trigger] branch_label(Some(bytes)) == Seq::<
            char,
        >::empty(),
        forall|end: Seq<char>|
            (forall|i: int| 0 <= i < end.len() ==> is_white_space(#[trigger] end[i]))
                ==> #[trigger] branch_label(Some(encode_utf8(end))) == Seq::<char>::empty(),
{
    assert forall|end: Seq<char>|
        (forall|i: int| 0 <= i < end.len() ==> is_white_space(
            #[trigger] end[i],
        )) implies #[trigger] branch_label(Some(encode_utf8(end))) == Seq::<char>::empty() by {
        let none = Seq::<char>::empty();
        lemma_text_of_file(end);
        law_white_space_is_dropped(none, none, end);
        assert(none + end =~= end);
        reveal_strlit("ref: ");
        reveal_strlit("ref: refs/heads/");
    }
}

/// A `.git` file with `gitdir: ` and a path leads to that path, seen from the directory of the
/// file. White space around it makes no difference.
pub proof fn law_gitdir_is_followed(
    path: Seq<char>,
    before: Seq<char>,
    target: Seq<char>,
    after: Seq<char>,
)
    requires
        target.len() > 0,
        !is_white_space(target.last()),
        forall|i: int| 0 <= i < before.len() ==> is_white_space(#[trigger] before[i]),
        forall|i: int| 0 <= i < after.len() ==> is_white_space(#[trigger] after[i]),
    ensures
        ({
            let contents = Some(encode_utf8(before + "gitdir: "@ + target + after));
            &&& target[0] == '/' ==> resolved_gitdir(path, contents) == Some(target)
            &&& target[0] != '/' ==> resolved_gitdir(path, contents) == (match parent(path) {
                Some(dir) => Some(joined(dir, target)),
                None => None,
            })
        }),
{
    let prefix = "gitdir: "@;
    let line = prefix + target;
    let head = before + line;
    let text = before + prefix + target + after;
    reveal_strlit("gitdir: ");
    lemma_text_of_file(text);
    assert(text =~= head + after);
    assert(head.last() == target.last());
    law_white_space_is_dropped(before, head, after);
    assert(line[0] == 'g');
    law_white_space_is_dropped(before, line, after);
    assert(line.subrange(0, 8) =~= prefix);
    assert(line.skip(8) =~= target);
}

/// A `.git` file that could not be read, that is not UTF-8, or that holds anything but `gitdir: `
/// and a path, leads nowhere.
pub proof fn law_other_git_files_lead_nowhere(
    path: Seq<char>,
    before: Seq<char>,
    text: Seq<char>,
    after: Seq<char>,
)
    requires
        text.len() > 0 ==> !is_white_space(text[0]) && !is_white_space(text.last()),
        !"gitdir: "@.is_prefix_of(text),
        forall|i: int| 0 <= i < before.len() ==> is_white_space(#[trigger] before[i]),
        forall|i: int| 0 <= i < after.len() ==> is_white_space(#[trigger] after[i]),
    ensures
        resolved_gitdir(path, None) is None,
        forall|bytes: Seq<u8>|
            !valid_utf8(bytes) ==> (#[trigger] resolved_gitdir(path, Some(bytes))) is None,
        resolved_gitdir(path, Some(encode_utf8(before + text + after))) is None,
{
    let none = Seq::<char>::empty();
    let head = before + text;
    lemma_text_of_file(head + after);
    if text.len() > 0 {
        assert(head.last() == text.last());
        law_white_space_is_dropped(before, head, after);
        law_white_space_is_dropped(before, text, after);
    } else {
        let blank = head + after;
        assert forall|i: int| 0 <= i < blank.len() implies is_white_space(#[trigger] blank[i]) by {
            if i < before.len() {
                assert(is_white_space(before[i]));
            } else {
                assert(is_white_space(after[i - before.len()]));
            }
        }
        law_white_space_is_dropped(none, none, blank);
        assert(none + blank =~= blank);
        assert(text =~= none);
    }
}

/// Each byte is pushed as the character of its number, so that ASCII text is pushed as it is.
pub proof fn law_ascii_is_pushed_as_it_is(bytes: Seq<u8>, text: Seq<char>)
    ensures
        bytes_as_chars(bytes).len() == bytes.len(),
        forall|i: int|
            0 <= i < bytes.len() ==> (#[trigger] bytes_as_chars(bytes)[i]) as nat == bytes[i],
        is_ascii_chars(text) ==> bytes_as_chars(encode_utf8(text)) == text,
{
    if is_ascii_chars(text) {
        lemma_ascii_bytes_as_chars(text);
    }
}

} // verus!
