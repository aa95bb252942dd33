//! Text cut into segments at `/`.

use vstd::prelude::*;

verus! {

/// The segments of `s`: what stands before, between and after its slashes. There is always at
/// least one, and a segment may be empty.
pub open spec fn split(s: Seq<char>) -> Seq<Seq<char>>
    decreases s.len(),
{
    if s.len() == 0 {
        seq![Seq::empty()]
    } else {
        let parts = split(s.drop_last());
        if s.last() == '/' {
            parts.push(Seq::empty())
        } else {
            parts.drop_last().push(parts.last().push(s.last()))
        }
    }
}

/// The text whose segments are `parts`, with one slash between neighbours.
pub open spec fn join(parts: Seq<Seq<char>>) -> Seq<char>
    decreases parts.len(),
{
    if parts.len() == 0 {
        Seq::empty()
    } else if parts.len() == 1 {
        parts[0]
    } else {
        join(parts.drop_last()).push('/') + parts.last()
    }
}

/// Whether `part` can be a segment: it holds no slash.
pub open spec fn is_segment(part: Seq<char>) -> bool {
    !part.contains('/')
}

/// The text before any slash is a segment too: there is always one.
pub proof fn lemma_split_nonempty(s: Seq<char>)
    ensures
        split(s).len() >= 1,
    decreases s.len(),
{
    if s.len() > 0 {
        lemma_split_nonempty(s.drop_last());
    }
}

/// The beginning of a text has no more segments than the text.
pub proof fn lemma_split_grows(s: Seq<char>, k: int)
    requires
        0 <= k <= s.len(),
    ensures
        split(s.take(k)).len() <= split(s).len(),
    decreases s.len() - k,
{
    if k < s.len() {
        lemma_split_nonempty(s.take(k));
        assert(s.take(k + 1).drop_last() == s.take(k));
        lemma_split_grows(s, k + 1);
    } else {
        assert(s.take(k) == s);
    }
}

/// Putting the segments of a text together again gives the text.
pub proof fn law_join_inverts_split(s: Seq<char>)
    ensures
        join(split(s)) == s,
    decreases s.len(),
{
    if s.len() > 0 {
        let rest = s.drop_last();
        let parts = split(rest);
        lemma_split_nonempty(rest);
        law_join_inverts_split(rest);
        if s.last() == '/' {
            assert(split(s).drop_last() == parts);
            assert(join(split(s)) == s);
        } else {
            let last = parts.last().push(s.last());
            assert(split(s).drop_last() == parts.drop_last());
            if parts.len() == 1 {
                assert(join(split(s)) == last);
            } else {
                let head = join(parts.drop_last()).push('/');
                assert(join(split(s)) == head + last);
                assert(head + last == (head + parts.last()).push(s.last()));
            }
            assert(rest.push(s.last()) == s);
        }
    }
}

/// No segment of a text holds a slash.
pub proof fn law_split_gives_segments(s: Seq<char>)
    ensures
        forall|i: int| 0 <= i < split(s).len() ==> is_segment(#[trigger] split(s)[i]),
    decreases s.len(),
{
    if s.len() > 0 {
        let parts = split(s.drop_last());
        lemma_split_nonempty(s.drop_last());
        law_split_gives_segments(s.drop_last());
        assert forall|i: int| 0 <= i < split(s).len() implies is_segment(
            #[trigger] split(s)[i],
        ) by {
            if i < parts.len() {
                assert(is_segment(parts[i]));
            }
        }
    }
}

/// Splitting is what joining undoes: segments put together are found again.
pub proof fn law_split_inverts_join(parts: Seq<Seq<char>>)
    requires
        parts.len() >= 1,
        forall|i: int| 0 <= i < parts.len() ==> is_segment(#[trigger] parts[i]),
    ensures
        split(join(parts)) == parts,
    decreases parts.len(),
{
    if parts.len() == 1 {
        lemma_split_segment(parts[0]);
        assert(seq![parts[0]] == parts);
    } else {
        let init = parts.drop_last();
        assert forall|i: int| 0 <= i < init.len() implies is_segment(#[trigger] init[i]) by {
            assert(is_segment(parts[i]));
        }
        law_split_inverts_join(init);
        lemma_split_concat(join(init), parts.last());
        lemma_split_segment(parts.last());
        assert(init + seq![parts.last()] == parts);
    }
}

/// A text without a slash is its own only segment.
pub proof fn lemma_split_segment(s: Seq<char>)
    requires
        is_segment(s),
    ensures
        split(s) == seq![s],
    decreases s.len(),
{
    if s.len() > 0 {
        let rest = s.drop_last();
        assert(is_segment(rest)) by {
            if rest.contains('/') {
                let i = choose|i: int| 0 <= i < rest.len() && rest[i] == '/';
                assert(s[i] == '/');
            }
        }
        lemma_split_segment(rest);
        assert(s.last() != '/');
        assert(split(s) =~= seq![rest.push(s.last())]);
        assert(rest.push(s.last()) == s);
    } else {
        assert(s == Seq::<char>::empty());
    }
}

/// A slash between two texts keeps their segments apart.
pub proof fn lemma_split_concat(a: Seq<char>, b: Seq<char>)
    ensures
        split(a.push('/') + b) == split(a) + split(b),
    decreases b.len(),
{
    let s = a.push('/') + b;
    if b.len() == 0 {
        assert(s.drop_last() == a);
        assert(split(s) =~= split(a) + split(b));
    } else {
        lemma_split_nonempty(b.drop_last());
        assert(s.drop_last() == a.push('/') + b.drop_last());
        lemma_split_concat(a, b.drop_last());
        assert(s.last() == b.last());
        assert(split(s) =~= split(a) + split(b));
    }
}

} // verus!
