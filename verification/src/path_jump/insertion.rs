//! Home-directory shorthands, and paths written so that the shell reads them as one word.

use crate::wide::{has_prefix, push_wide, skip, to_wide, WString};
use vstd::prelude::*;

verus! {

/// A search term with the shorthand `h/` for the home directory spelled out as `~/`.
pub open spec fn shorthand_expanded(term: Seq<char>) -> Seq<char> {
    if seq!['h', '/'].is_prefix_of(term) {
        seq!['~', '/'] + term.skip(2)
    } else {
        term
    }
}

/// A path with a leading `~/` replaced by the home directory and a slash, where there is one.
pub open spec fn tilde_resolved(path: Seq<char>, home: Option<Seq<char>>) -> Seq<char> {
    match home {
        Some(home) if seq!['~', '/'].is_prefix_of(path) => home + path.skip(1),
        _ => path,
    }
}

/// The characters because of which a path is quoted.
pub open spec fn is_metacharacter(c: char) -> bool {
    ||| c == ' '
    ||| c == '\t'
    ||| c == '('
    ||| c == ')'
    ||| c == '\\'
    ||| c == '\''
    ||| c == '"'
    ||| c == '$'
    ||| c == '&'
    ||| c == ';'
    ||| c == '|'
    ||| c == '<'
    ||| c == '>'
    ||| c == '*'
    ||| c == '?'
    ||| c == '#'
    ||| c == '{'
    ||| c == '}'
}

pub open spec fn needs_quotes(s: Seq<char>) -> bool {
    exists|i: int| 0 <= i < s.len() && is_metacharacter(#[trigger] s[i])
}

/// The text between single quotes that stands for `s`. For a single quote the quoted text ends,
/// an escaped quote follows, and quoted text begins again.
pub open spec fn quoted_body(s: Seq<char>) -> Seq<char>
    decreases s.len(),
{
    if s.len() == 0 {
        Seq::empty()
    } else if s.last() == '\'' {
        quoted_body(s.drop_last()) + seq!['\'', '\\', '\'', '\'']
    } else {
        quoted_body(s.drop_last()).push(s.last())
    }
}

/// `s` as it is inserted into the command line.
pub open spec fn shell_word(s: Seq<char>) -> Seq<char> {
    if needs_quotes(s) {
        (seq!['\''] + quoted_body(s)).push('\'')
    } else {
        s
    }
}

/// Expand the prefix `h/` to `~/` in search terms for convenience.
pub fn expand_search_shorthand(term: &[char]) -> (r: WString)
    ensures
        r@ == shorthand_expanded(term@),
{
    let shorthand: [char; 2] = ['h', '/'];
    assert(shorthand@ == seq!['h', '/']);
    if has_prefix(term, &shorthand) {
        let mut expanded: WString = Vec::new();
        expanded.push('~');
        expanded.push('/');
        push_wide(&mut expanded, skip(term, 2));
        assert(expanded@ == seq!['~', '/'] + term@.skip(2));
        expanded
    } else {
        to_wide(term)
    }
}

/// Resolve `~/` to the home directory in a path. Without a home directory the path is returned
/// unchanged.
pub fn resolve_tilde(path: &[char], home: Option<&[char]>) -> (r: WString)
    ensures
        r@ == tilde_resolved(path@, home_text(home)),
{
    let tilde: [char; 2] = ['~', '/'];
    assert(tilde@ == seq!['~', '/']);
    if has_prefix(path, &tilde) {
        if let Some(home) = home {
            let mut resolved = to_wide(home);
            push_wide(&mut resolved, skip(path, 1));
            return resolved;
        }
    }
    to_wide(path)
}

pub open spec fn home_text(home: Option<&[char]>) -> Option<Seq<char>> {
    match home {
        Some(home) => Some(home@),
        None => None,
    }
}

fn is_shell_metacharacter(c: char) -> (r: bool)
    ensures
        r == is_metacharacter(c),
{
    matches!(c,
        ' ' | '\t' | '(' | ')' | '\\' | '\'' | '"' | '$' |
        '&' | ';' | '|' | '<' | '>' | '*' | '?' | '#' | '{' | '}'
    )
}

fn has_shell_metacharacter(s: &[char]) -> (r: bool)
    ensures
        r == needs_quotes(s@),
{
    for i in 0..s.len()
        invariant
            forall|j: int| 0 <= j < i ==> !is_metacharacter(#[trigger] s@[j]),
    {
        if is_shell_metacharacter(s[i]) {
            return true;
        }
    }
    false
}

/// Format a path for insertion into the command line: `~/` becomes the home directory `home`,
/// and a path with shell metacharacters is put in single quotes.
pub fn format_path_for_insertion(path: &[char], home: Option<&[char]>) -> (r: WString)
    ensures
        r@ == shell_word(tilde_resolved(path@, home_text(home))),
{
    let expanded = resolve_tilde(path, home);
    if has_shell_metacharacter(&expanded) {
        let mut result: WString = Vec::new();
        result.push('\'');
        assert(quoted_body(expanded@.take(0)) == Seq::<char>::empty());
        for i in 0..expanded.len()
            invariant
                result@ == seq!['\''] + quoted_body(expanded@.take(i as int)),
        {
            assert(expanded@.take(i + 1).drop_last() == expanded@.take(i as int));
            let c = expanded[i];
            if c == '\'' {
                let reopened: [char; 4] = ['\'', '\\', '\'', '\''];
                assert(reopened@ == seq!['\'', '\\', '\'', '\'']);
                push_wide(&mut result, &reopened);
            } else {
                result.push(c);
            }
        }
        assert(expanded@.take(expanded@.len() as int) == expanded@);
        result.push('\'');
        result
    } else {
        expanded
    }
}

/// Where a shell stands in reading a word.
pub enum WordState {
    /// Outside of quotes.
    Bare,
    /// Inside single quotes, where every character stands for itself.
    Quoted,
    /// After a backslash outside of quotes.
    Escaped,
    /// Behind a metacharacter that ends the word or has a meaning of its own.
    Broken,
}

/// What a shell that knows single quotes and the backslash makes of the word `text`: where it
/// stands at the end, and the characters it has read.
pub open spec fn word_read(text: Seq<char>) -> (WordState, Seq<char>)
    decreases text.len(),
{
    if text.len() == 0 {
        (WordState::Bare, Seq::empty())
    } else {
        let (state, read) = word_read(text.drop_last());
        let c = text.last();
        match state {
            WordState::Bare => if c == '\'' {
                (WordState::Quoted, read)
            } else if c == '\\' {
                (WordState::Escaped, read)
            } else if " \t()\\'\"$&;|<>*?#{}"@.contains(c) {
                (WordState::Broken, read)
            } else {
                (WordState::Bare, read.push(c))
            },
            WordState::Quoted => if c == '\'' {
                (WordState::Bare, read)
            } else {
                (WordState::Quoted, read.push(c))
            },
            WordState::Escaped => (WordState::Bare, read.push(c)),
            WordState::Broken => (WordState::Broken, read),
        }
    }
}

/// What is inserted for a path is one shell word, and the shell reads the path back from it.
pub proof fn law_inserted_word_reads_back(path: Seq<char>, home: Option<Seq<char>>)
    ensures
        word_read(shell_word(tilde_resolved(path, home))) == (
            WordState::Bare,
            tilde_resolved(path, home),
        ),
{
    let s = tilde_resolved(path, home);
    if needs_quotes(s) {
        lemma_quoted_reads_back(s);
        let open = seq!['\''] + quoted_body(s);
        assert(open.push('\'').drop_last() == open);
    } else {
        lemma_plain_reads_back(s);
    }
}

/// Two paths never become the same inserted word.
pub proof fn law_inserted_words_differ(a: Seq<char>, b: Seq<char>)
    requires
        shell_word(a) == shell_word(b),
    ensures
        a == b,
{
    law_inserted_word_reads_back(a, None);
    law_inserted_word_reads_back(b, None);
}

/// A search by `h/` is a search by `~/`.
pub proof fn law_shorthand_is_home(rest: Seq<char>, home: Option<Seq<char>>)
    ensures
        shorthand_expanded(seq!['h', '/'] + rest) == seq!['~', '/'] + rest,
        shorthand_expanded(seq!['~', '/'] + rest) == seq!['~', '/'] + rest,
        home matches Some(h) ==> tilde_resolved(
            shorthand_expanded(seq!['h', '/'] + rest),
            home,
        ) == h + seq!['/'] + rest,
{
    let short = seq!['h', '/'] + rest;
    let long = seq!['~', '/'] + rest;
    assert(short.subrange(0, 2) =~= seq!['h', '/']);
    assert(long.subrange(0, 2) =~= seq!['~', '/']);
    assert(short.skip(2) =~= rest);
    assert(long.skip(1) =~= seq!['/'] + rest);
    assert(long[0] != seq!['h', '/'][0]);
    if seq!['h', '/'].is_prefix_of(long) {
        assert(long.subrange(0, 2)[0] == 'h');
    }
    if let Some(h) = home {
        assert(h + (seq!['/'] + rest) =~= h + seq!['/'] + rest);
    }
}

proof fn lemma_plain_reads_back(s: Seq<char>)
    requires
        !needs_quotes(s),
    ensures
        word_read(s) == (WordState::Bare, s),
    decreases s.len(),
{
    if s.len() > 0 {
        let rest = s.drop_last();
        assert forall|i: int| 0 <= i < rest.len() implies !is_metacharacter(#[trigger] rest[i]) by {
            assert(!is_metacharacter(s[i]));
        }
        lemma_plain_reads_back(rest);
        assert(!is_metacharacter(s[s.len() - 1]));
        lemma_metacharacters(s.last());
        assert(rest.push(s.last()) =~= s);
    } else {
        assert(s =~= Seq::empty());
    }
}

proof fn lemma_quoted_reads_back(s: Seq<char>)
    ensures
        word_read(seq!['\''] + quoted_body(s)) == (WordState::Quoted, s),
    decreases s.len(),
{
    let open = seq!['\''] + quoted_body(s);
    if s.len() == 0 {
        assert(open.drop_last() =~= Seq::<char>::empty());
        assert(word_read(open.drop_last()) == (WordState::Bare, Seq::<char>::empty()));
        assert(s =~= Seq::empty());
    } else {
        let rest = s.drop_last();
        let before = seq!['\''] + quoted_body(rest);
        lemma_quoted_reads_back(rest);
        assert(rest.push(s.last()) =~= s);
        if s.last() == '\'' {
            let closed = before.push('\'');
            let escaped = closed.push('\\');
            let escaped_quote = escaped.push('\'');
            assert(open =~= escaped_quote.push('\''));
            assert(closed.drop_last() =~= before);
            assert(escaped.drop_last() =~= closed);
            assert(escaped_quote.drop_last() =~= escaped);
            assert(open.drop_last() =~= escaped_quote);
            assert(word_read(closed) == (WordState::Bare, rest));
            assert(word_read(escaped) == (WordState::Escaped, rest));
            assert(word_read(escaped_quote) == (WordState::Bare, s));
        } else {
            assert(open =~= before.push(s.last()));
            assert(open.drop_last() =~= before);
        }
    }
}

/// The characters because of which a path is quoted, in one text.
proof fn lemma_metacharacters(c: char)
    ensures
        is_metacharacter(c) <==> " \t()\\'\"$&;|<>*?#{}"@.contains(c),
{
    let all = " \t()\\'\"$&;|<>*?#{}"@;
    reveal_strlit(" \t()\\'\"$&;|<>*?#{}");
    assert(all.len() == 18);
    assert(all[0] == ' ' && all[1] == '\t' && all[2] == '(' && all[3] == ')' && all[4] == '\\');
    assert(all[5] == '\'' && all[6] == '"' && all[7] == '$' && all[8] == '&' && all[9] == ';');
    assert(all[10] == '|' && all[11] == '<' && all[12] == '>' && all[13] == '*' && all[14] == '?');
    assert(all[15] == '#' && all[16] == '{' && all[17] == '}');
    assert forall|i: int| 0 <= i < 18 implies is_metacharacter(#[trigger] all[i]) by {}
}

/// A search term changes only in its first character, and only where it begins with `h/`: there
/// it begins with `~/` instead. Every other term is left alone.
pub proof fn law_other_terms_are_left_alone(term: Seq<char>)
    ensures
        shorthand_expanded(term).len() == term.len(),
        forall|i: int| 1 <= i < term.len() ==> #[trigger] shorthand_expanded(term)[i] == term[i],
        term.len() >= 2 && term[0] == 'h' && term[1] == '/' ==> shorthand_expanded(term)[0] == '~',
        !(term.len() >= 2 && term[0] == 'h' && term[1] == '/') ==> shorthand_expanded(term) == term,
{
    if seq!['h', '/'].is_prefix_of(term) {
        assert(term.subrange(0, 2)[0] == 'h' && term.subrange(0, 2)[1] == '/');
    } else if term.len() >= 2 && term[0] == 'h' && term[1] == '/' {
        assert(term.subrange(0, 2) =~= seq!['h', '/']);
    }
}

/// Only a leading `~/` is resolved: it becomes the home directory and a slash, and what follows
/// stays. Every other path, and every path where there is no home directory, stays as it is.
pub proof fn law_only_a_leading_tilde_is_resolved(path: Seq<char>, home: Option<Seq<char>>)
    ensures
        !(path.len() >= 2 && path[0] == '~' && path[1] == '/') ==> tilde_resolved(path, home)
            == path,
        home is None ==> tilde_resolved(path, home) == path,
        home matches Some(h) ==> forall|rest: Seq<char>|
            path == seq!['~', '/'] + rest ==> tilde_resolved(path, home) == #[trigger] (h + seq!['/']
                + rest),
{
    if seq!['~', '/'].is_prefix_of(path) {
        assert(path.subrange(0, 2)[0] == '~' && path.subrange(0, 2)[1] == '/');
    }
    if let Some(h) = home {
        assert forall|rest: Seq<char>| path == seq!['~', '/'] + rest implies tilde_resolved(
            path,
            home,
        ) == #[trigger] (h + seq!['/'] + rest) by {
            assert(path.subrange(0, 2) =~= seq!['~', '/']);
            assert(h + path.skip(1) =~= h + seq!['/'] + rest);
        }
    }
}

/// A path that does not begin with `~/` is inserted as itself, whatever the home directory is:
/// the shell reads just that path back from the inserted word.
pub proof fn law_other_paths_read_back_as_themselves(path: Seq<char>, home: Option<Seq<char>>)
    requires
        !(path.len() >= 2 && path[0] == '~' && path[1] == '/'),
    ensures
        word_read(shell_word(tilde_resolved(path, home))) == (WordState::Bare, path),
{
    law_only_a_leading_tilde_is_resolved(path, home);
    law_inserted_word_reads_back(path, home);
}

/// A path below `~/` is inserted as the same path below the home directory: the shell reads that
/// back from the inserted word.
pub proof fn law_home_paths_read_back_below_home(rest: Seq<char>, home: Seq<char>)
    ensures
        word_read(shell_word(tilde_resolved(seq!['~', '/'] + rest, Some(home)))) == (
            WordState::Bare,
            home + seq!['/'] + rest,
        ),
{
    let path = seq!['~', '/'] + rest;
    law_only_a_leading_tilde_is_resolved(path, Some(home));
    law_inserted_word_reads_back(path, Some(home));
}

/// A path without metacharacters is inserted without quotes. With one, but without a single
/// quote, it is inserted between two single quotes.
pub proof fn law_quotes_only_where_needed(s: Seq<char>)
    ensures
        (forall|i: int| 0 <= i < s.len() ==> !" \t()\\'\"$&;|<>*?#{}"@.contains(
            #[trigger] s[i],
        )) ==> shell_word(s) == s,
        (exists|i: int| 0 <= i < s.len() && " \t()\\'\"$&;|<>*?#{}"@.contains(
            #[trigger] s[i],
        )) && (forall|i: int| 0 <= i < s.len() ==> #[trigger] s[i] != '\'') ==> shell_word(s)
            == seq!['\''] + s + seq!['\''],
{
    assert forall|i: int| 0 <= i < s.len() implies is_metacharacter(#[trigger] s[i])
        == " \t()\\'\"$&;|<>*?#{}"@.contains(s[i]) by {
        lemma_metacharacters(s[i]);
    }
    if exists|i: int| 0 <= i < s.len() && " \t()\\'\"$&;|<>*?#{}"@.contains(#[trigger] s[i]) {
        let i = choose|i: int| 0 <= i < s.len() && " \t()\\'\"$&;|<>*?#{}"@.contains(#[trigger] s[i]);
        assert(is_metacharacter(s[i]));
    }
    if forall|i: int| 0 <= i < s.len() ==> #[trigger] s[i] != '\'' {
        lemma_quoted_plain(s);
        assert((seq!['\''] + s).push('\'') =~= seq!['\''] + s + seq!['\'']);
    }
}

/// At the first single quote of a path the quoted text ends, an escaped quote follows, and quoted
/// text begins again for the rest of the path, whether the rest needs quotes or not.
pub proof fn law_single_quotes_are_escaped(a: Seq<char>, b: Seq<char>)
    requires
        forall|i: int| 0 <= i < a.len() ==> #[trigger] a[i] != '\'',
    ensures
        shell_word(a + seq!['\''] + b) == seq!['\''] + a + seq!['\'', '\\', '\''] + (if shell_word(
            b,
        ) == b {
            seq!['\''] + b + seq!['\'']
        } else {
            shell_word(b)
        }),
{
    let quote = seq!['\''];
    let s = a + quote + b;
    assert(is_metacharacter(s[a.len() as int]));
    lemma_quoted_plain(a);
    lemma_quoted_concat(a + quote, b);
    assert((a + quote).drop_last() =~= a);
    let around = (quote + quoted_body(b)).push('\'');
    if needs_quotes(b) {
        lemma_quoted_longer(b);
    } else {
        assert forall|i: int| 0 <= i < b.len() implies #[trigger] b[i] != '\'' by {
            assert(!is_metacharacter(b[i]));
        }
        lemma_quoted_plain(b);
        assert(around =~= quote + b + quote);
    }
    assert(shell_word(s) =~= quote + a + seq!['\'', '\\', '\''] + around);
}

proof fn lemma_quoted_plain(s: Seq<char>)
    requires
        forall|i: int| 0 <= i < s.len() ==> #[trigger] s[i] != '\'',
    ensures
        quoted_body(s) == s,
    decreases s.len(),
{
    if s.len() > 0 {
        let init = s.drop_last();
        assert forall|i: int| 0 <= i < init.len() implies #[trigger] init[i] != '\'' by {
            assert(s[i] != '\'');
        }
        lemma_quoted_plain(init);
        assert(s[s.len() - 1] != '\'');
        assert(init.push(s.last()) =~= s);
    } else {
        assert(s =~= Seq::empty());
    }
}

proof fn lemma_quoted_concat(a: Seq<char>, b: Seq<char>)
    ensures
        quoted_body(a + b) == quoted_body(a) + quoted_body(b),
    decreases b.len(),
{
    if b.len() == 0 {
        assert(a + b =~= a);
        assert(quoted_body(a) + quoted_body(b) =~= quoted_body(a));
    } else {
        lemma_quoted_concat(a, b.drop_last());
        assert((a + b).drop_last() =~= a + b.drop_last());
        assert(quoted_body(a + b) =~= quoted_body(a) + quoted_body(b));
    }
}

/// Quoting makes a text longer.
proof fn lemma_quoted_longer(s: Seq<char>)
    ensures
        quoted_body(s).len() >= s.len(),
    decreases s.len(),
{
    if s.len() > 0 {
        lemma_quoted_longer(s.drop_last());
    }
}

} // verus!
