//! Unix paths, taken as text: components, parents and joins. Nothing here looks at a file system.

use crate::segments::{
    is_segment, law_split_gives_segments, lemma_split_concat, lemma_split_nonempty, lemma_split_segment, split,
};
use crate::wide::{push_wide, same_text, to_wide, WString};
use vstd::prelude::*;
use vstd::slice::slice_subrange;

verus! {

/// The component that stands for the root directory.
pub open spec fn root_component() -> Seq<char> {
    seq!['/']
}

/// Whether a path is absolute: it starts at the root directory.
pub open spec fn absolute(path: Seq<char>) -> bool {
    path.len() > 0 && path[0] == '/'
}

/// Whether segment `i` of a path is one of its components. An empty segment is none, and `.` is
/// one only where the path begins with it.
pub open spec fn is_name(part: Seq<char>, i: int) -> bool {
    part.len() > 0 && (i == 0 || part != seq!['.'])
}

/// Those of the segments `parts` that are components.
pub open spec fn names(parts: Seq<Seq<char>>) -> Seq<Seq<char>>
    decreases parts.len(),
{
    if parts.len() == 0 {
        Seq::empty()
    } else if is_name(parts.last(), parts.len() - 1) {
        names(parts.drop_last()).push(parts.last())
    } else {
        names(parts.drop_last())
    }
}

/// The components of a path. Repeated slashes, a slash at the end and a `.` that does not begin
/// the path make no difference.
pub open spec fn components(path: Seq<char>) -> Seq<Seq<char>> {
    if absolute(path) {
        seq![root_component()] + names(split(path))
    } else {
        names(split(path))
    }
}

/// Whether `path` is `base` or lies below it, component by component.
pub open spec fn lies_within(path: Seq<char>, base: Seq<char>) -> bool {
    components(base).is_prefix_of(components(path))
}

/// Whether the first `e` characters are the shortest beginning of `path` with the components
/// `target`.
pub open spec fn ends_at(path: Seq<char>, target: Seq<Seq<char>>, e: int) -> bool {
    &&& 0 <= e <= path.len()
    &&& components(path.take(e)) == target
    &&& forall|j: int| 0 <= j < e ==> components(#[trigger] path.take(j)) != target
}

/// The path without its last component: the shortest beginning that has all the others. The
/// root directory and the empty path have no parent.
pub open spec fn parent(path: Seq<char>) -> Option<Seq<char>> {
    let comps = components(path);
    if comps.len() == 0 || comps == seq![root_component()] {
        None
    } else {
        Some(path.take(choose|e: int| ends_at(path, comps.drop_last(), e)))
    }
}

/// `path` as seen from the directory `base`. An absolute `path` stays what it is.
pub open spec fn joined(base: Seq<char>, path: Seq<char>) -> Seq<char> {
    if absolute(path) || base.len() == 0 {
        path
    } else if base.last() == '/' {
        base + path
    } else {
        base.push('/') + path
    }
}

/// How the components of a path change when a character is added to it.
proof fn lemma_components_push(path: Seq<char>, c: char)
    ensures
        ({
            let before = components(path);
            let after = components(path.push(c));
            let last = split(path).last();
            let index = split(path).len() - 1;
            if c == '/' {
                if path.len() == 0 {
                    &&& before == Seq::<Seq<char>>::empty()
                    &&& after == seq![root_component()]
                } else {
                    after == before
                }
            } else if is_name(last, index) {
                &&& before.len() > 0
                &&& before.last() == last
                &&& after == before.drop_last().push(last.push(c))
            } else if is_name(last.push(c), index) {
                after == before.push(last.push(c))
            } else {
                after == before
            }
        }),
{
    let longer = path.push(c);
    let parts = split(path);
    lemma_split_nonempty(path);
    assert(longer.drop_last() == path);
    if path.len() > 0 {
        assert(absolute(longer) == absolute(path));
    }
    if c == '/' {
        assert(split(longer) == parts.push(Seq::empty()));
        assert(split(longer).drop_last() == parts);
        if path.len() == 0 {
            assert(parts.drop_last() == Seq::<Seq<char>>::empty());
            assert(names(parts.drop_last()) == Seq::<Seq<char>>::empty());
            assert(names(parts) == Seq::<Seq<char>>::empty());
            assert(components(longer) =~= seq![root_component()]);
        }
    } else {
        let init = parts.drop_last();
        let last = parts.last();
        assert(split(longer) == init.push(last.push(c)));
        assert(split(longer).drop_last() == init);
        assert(components(longer) =~= (if is_name(last, parts.len() - 1) {
            components(path).drop_last().push(last.push(c))
        } else if is_name(last.push(c), parts.len() - 1) {
            components(path).push(last.push(c))
        } else {
            components(path)
        }));
    }
}

/// A longer beginning of a path has at least as many components as a shorter one.
proof fn lemma_components_grow(path: Seq<char>, j: int, k: int)
    requires
        0 <= j <= k <= path.len(),
    ensures
        components(path.take(j)).len() <= components(path.take(k)).len(),
        components(path.take(j)).len() == components(path.take(k)).len() && components(
            path.take(k),
        ).len() > 0 ==> components(path.take(j)).last().len() <= components(
            path.take(k),
        ).last().len(),
    decreases k - j,
{
    if j < k {
        lemma_components_grow(path, j, k - 1);
        assert(path.take(k) == path.take(k - 1).push(path[k - 1]));
        lemma_components_push(path.take(k - 1), path[k - 1]);
    }
}

/// Whether `range` is where component `i` of `comps` stands in `path`, no later than `k`.
spec fn is_range_of(
    path: Seq<char>,
    comps: Seq<Seq<char>>,
    i: int,
    range: (usize, usize),
    k: int,
) -> bool {
    &&& range.0 <= range.1 <= k <= path.len()
    &&& path.subrange(range.0 as int, range.1 as int) == comps[i]
    &&& ends_at(path, comps.take(i + 1), range.1 as int)
}

/// Where the components of `path` stand in it.
fn component_ranges(path: &[char]) -> (ranges: Vec<(usize, usize)>)
    ensures
        ranges@.len() == components(path@).len(),
        forall|i: int|
            0 <= i < ranges@.len() ==> is_range_of(
                path@,
                components(path@),
                i,
                #[trigger] ranges@[i],
                path@.len() as int,
            ),
{
    let mut ranges: Vec<(usize, usize)> = Vec::new();
    // The segment that the next character belongs to, and whether it is a component so far.
    let mut start: usize = 0;
    let mut first = true;
    let mut in_name = false;
    proof {
        assert(path@.take(0) == Seq::<char>::empty());
        let parts = split(path@.take(0));
        assert(parts == seq![Seq::<char>::empty()]);
        assert(parts.drop_last() == Seq::<Seq<char>>::empty());
        assert(names(parts.drop_last()) == Seq::<Seq<char>>::empty());
        assert(path@.subrange(0, 0) == Seq::<char>::empty());
    }
    for k in 0..path.len()
        invariant
            start <= k <= path@.len(),
            split(path@.take(k as int)).len() >= 1,
            split(path@.take(k as int)).last() == path@.subrange(start as int, k as int),
            first == (split(path@.take(k as int)).len() == 1),
            in_name == is_name(
                split(path@.take(k as int)).last(),
                split(path@.take(k as int)).len() - 1,
            ),
            ranges@.len() == components(path@.take(k as int)).len(),
            in_name ==> ranges@.len() > 0 && ranges@.last() == (start, k),
            forall|i: int|
                0 <= i < ranges@.len() ==> is_range_of(
                    path@,
                    components(path@.take(k as int)),
                    i,
                    #[trigger] ranges@[i],
                    k as int,
                ),
    {
        let c = path[k];
        let ghost here = path@.take(k as int);
        let ghost comps = components(here);
        let ghost after = components(path@.take(k + 1));
        let ghost last = split(here).last();
        let ghost before_ranges = ranges@;
        proof {
            assert(path@.take(k + 1) == here.push(c));
            assert(here.push(c).drop_last() == here);
            lemma_components_push(here, c);
            assert(last.push(c) == path@.subrange(start as int, k + 1));
            assert forall|j: int| 0 <= j < k + 1 && after != comps implies components(
                #[trigger] path@.take(j),
            ) != after by {
                lemma_components_grow(path@, j, k as int);
            }
            if after == comps {
                assert forall|i: int| 0 <= i < ranges@.len() implies is_range_of(
                    path@,
                    after,
                    i,
                    #[trigger] ranges@[i],
                    k + 1,
                ) by {}
            }
        }
        if c == '/' {
            if k == 0 {
                ranges.push((0, 1));
                assert(path@.subrange(0, 1) =~= root_component());
                assert(after.take(1) =~= after);
            }
            start = k + 1;
            first = false;
            in_name = false;
            assert(path@.subrange(start as int, k + 1) =~= Seq::<char>::empty());
        } else if in_name {
            let n = ranges.len();
            ranges.set(n - 1, (start, k + 1));
            proof {
                assert(after.take(n as int) =~= after);
                assert forall|i: int| 0 <= i < ranges@.len() implies is_range_of(
                    path@,
                    after,
                    i,
                    #[trigger] ranges@[i],
                    k + 1,
                ) by {
                    if i < n - 1 {
                        assert(is_range_of(path@, comps, i, before_ranges[i], k as int));
                        assert(after.take(i + 1) =~= comps.take(i + 1));
                    }
                }
            }
        } else {
            in_name = first || start < k || c != '.';
            proof {
                assert(seq!['.'].len() == 1);
                assert(start < k ==> last == seq!['.']);
                assert(start == k ==> last.push(c) =~= seq![c]);
                assert(seq![c][0] == c && seq!['.'][0] == '.');
                assert(in_name == is_name(last.push(c), split(here).len() - 1));
            }
            if in_name {
                ranges.push((start, k + 1));
                proof {
                    assert(after.take(ranges@.len() as int) =~= after);
                    assert forall|i: int| 0 <= i < ranges@.len() implies is_range_of(
                        path@,
                        after,
                        i,
                        #[trigger] ranges@[i],
                        k + 1,
                    ) by {
                        if i < ranges@.len() - 1 {
                            assert(is_range_of(path@, comps, i, before_ranges[i], k as int));
                            assert(after.take(i + 1) =~= comps.take(i + 1));
                        }
                    }
                }
            }
        }
    }
    assert(path@.take(path@.len() as int) == path@);
    ranges
}

/// Whether `path` is `base` or lies below it.
pub fn path_starts_with(path: &[char], base: &[char]) -> (r: bool)
    ensures
        r == lies_within(path@, base@),
{
    let inner = component_ranges(path);
    let outer = component_ranges(base);
    let ghost comps = components(path@);
    let ghost base_comps = components(base@);
    if inner.len() < outer.len() {
        return false;
    }
    for i in 0..outer.len()
        invariant
            comps == components(path@),
            base_comps == components(base@),
            inner@.len() == comps.len(),
            outer@.len() == base_comps.len(),
            outer@.len() <= inner@.len(),
            forall|j: int|
                0 <= j < inner@.len() ==> is_range_of(
                    path@,
                    comps,
                    j,
                    #[trigger] inner@[j],
                    path@.len() as int,
                ),
            forall|j: int|
                0 <= j < outer@.len() ==> is_range_of(
                    base@,
                    base_comps,
                    j,
                    #[trigger] outer@[j],
                    base@.len() as int,
                ),
            forall|j: int| 0 <= j < i ==> #[trigger] comps[j] == base_comps[j],
    {
        let (a, b) = inner[i];
        let (c, d) = outer[i];
        assert(is_range_of(path@, comps, i as int, inner@[i as int], path@.len() as int));
        assert(is_range_of(base@, base_comps, i as int, outer@[i as int], base@.len() as int));
        if !same_text(slice_subrange(path, a, b), slice_subrange(base, c, d)) {
            assert(comps.subrange(0, base_comps.len() as int)[i as int] != base_comps[i as int]);
            return false;
        }
    }
    assert(comps.subrange(0, base_comps.len() as int) =~= base_comps);
    true
}

/// The path without its last component, where it has one that is not the root.
pub fn path_parent(path: &[char]) -> (r: Option<WString>)
    ensures
        r is Some <==> parent(path@) is Some,
        r matches Some(p) ==> Some(p@) == parent(path@),
{
    let ranges = component_ranges(path);
    let ghost comps = components(path@);
    let n = ranges.len();
    if n == 0 {
        return None;
    }
    proof {
        assert(is_range_of(path@, comps, n - 1, ranges@[n - 1], path@.len() as int));
        if absolute(path@) && n == 1 {
            assert(comps =~= seq![root_component()]);
        }
    }
    if n == 1 && path_is_absolute(path) {
        return None;
    }
    let end: usize = if n == 1 {
        0
    } else {
        ranges[n - 2].1
    };
    proof {
        if n == 1 {
            assert(path@.take(0) == Seq::<char>::empty());
            lemma_no_components();
            assert(comps.drop_last() =~= Seq::<Seq<char>>::empty());
            assert(comps != seq![root_component()]) by {
                law_only_root_has_slash(path@, 0);
                assert(root_component()[0] == '/');
                assert(root_component().contains('/'));
                assert(seq![root_component()][0] == root_component());
            }
        } else {
            assert(is_range_of(path@, comps, n - 2, ranges@[n - 2], path@.len() as int));
            assert(comps.take(n - 1) =~= comps.drop_last());
            assert(seq![root_component()].len() == 1);
        }
        assert(ends_at(path@, comps.drop_last(), end as int));
        lemma_end_unique(path@, comps.drop_last());
    }
    Some(to_wide(slice_subrange(path, 0, end)))
}

/// Whether `path` starts at the root directory.
pub fn path_is_absolute(path: &[char]) -> (r: bool)
    ensures
        r == absolute(path@),
{
    !path.is_empty() && path[0] == '/'
}

/// `path` as seen from the directory `base`.
pub fn path_join(base: &[char], path: &[char]) -> (r: WString)
    ensures
        r@ == joined(base@, path@),
{
    if path_is_absolute(path) || base.is_empty() {
        return to_wide(path);
    }
    let mut r = to_wide(base);
    if base[base.len() - 1] != '/' {
        r.push('/');
    }
    push_wide(&mut r, path);
    r
}

/// The empty path has no components.
proof fn lemma_no_components()
    ensures
        components(Seq::<char>::empty()) == Seq::<Seq<char>>::empty(),
{
    let parts = split(Seq::<char>::empty());
    assert(parts == seq![Seq::<char>::empty()]);
    assert(parts.drop_last() == Seq::<Seq<char>>::empty());
    assert(names(parts.drop_last()) == Seq::<Seq<char>>::empty());
}

/// A path has only one shortest beginning with given components.
proof fn lemma_end_unique(path: Seq<char>, target: Seq<Seq<char>>)
    ensures
        forall|a: int, b: int|
            #[trigger] ends_at(path, target, a) && #[trigger] ends_at(path, target, b) ==> a == b,
{
    assert forall|a: int, b: int|
        #[trigger] ends_at(path, target, a) && #[trigger] ends_at(path, target, b) implies a
        == b by {
        if a < b {
            assert(components(path.take(a)) == target);
        } else if b < a {
            assert(components(path.take(b)) == target);
        }
    }
}

proof fn lemma_names_are_segments(parts: Seq<Seq<char>>, i: int)
    requires
        forall|j: int| 0 <= j < parts.len() ==> is_segment(#[trigger] parts[j]),
        0 <= i < names(parts).len(),
    ensures
        is_segment(names(parts)[i]),
        names(parts)[i].len() > 0,
    decreases parts.len(),
{
    let init = parts.drop_last();
    if i < names(init).len() {
        assert forall|j: int| 0 <= j < init.len() implies is_segment(#[trigger] init[j]) by {
            assert(is_segment(parts[j]));
        }
        lemma_names_are_segments(init, i);
    } else {
        assert(is_segment(parts[parts.len() - 1]));
    }
}

/// A component is not empty, and it holds no slash unless it is the root at the front of an
/// absolute path.
pub proof fn law_only_root_has_slash(path: Seq<char>, i: int)
    requires
        0 <= i < components(path).len(),
    ensures
        components(path)[i].len() > 0,
        is_segment(components(path)[i]) || (absolute(path) && i == 0 && components(path)[i]
            == root_component()),
{
    law_split_gives_segments(path);
    if !absolute(path) {
        lemma_names_are_segments(split(path), i);
    } else if i > 0 {
        lemma_names_are_segments(split(path), i - 1);
    }
}

proof fn lemma_shortest(path: Seq<char>, target: Seq<Seq<char>>, k: int)
    requires
        0 <= k <= path.len(),
        components(path.take(k)) == target,
    ensures
        exists|e: int| ends_at(path, target, e),
    decreases k,
{
    if exists|j: int| 0 <= j < k && components(#[trigger] path.take(j)) == target {
        let j = choose|j: int| 0 <= j < k && components(#[trigger] path.take(j)) == target;
        lemma_shortest(path, target, j);
    } else {
        assert(ends_at(path, target, k));
    }
}

/// Some beginning of a path has just its first `i` components.
proof fn lemma_beginning_exists(path: Seq<char>, i: int)
    requires
        0 <= i <= components(path).len(),
    ensures
        exists|e: int| ends_at(path, components(path).take(i), e),
    decreases path.len(),
{
    let comps = components(path);
    if i == comps.len() {
        assert(comps.take(i) =~= comps);
        assert(path.take(path.len() as int) == path);
        lemma_shortest(path, comps, path.len() as int);
    } else {
        if path.len() == 0 {
            assert(path == Seq::<char>::empty());
            lemma_no_components();
        }
        let init = path.drop_last();
        assert(init.push(path.last()) == path);
        lemma_components_push(init, path.last());
        lemma_beginning_exists(init, i);
        assert(comps.take(i) =~= components(init).take(i));
        let e = choose|e: int| ends_at(init, components(init).take(i), e);
        assert(ends_at(path, comps.take(i), e)) by {
            assert(path.take(e) == init.take(e));
            assert forall|j: int| 0 <= j < e implies components(#[trigger] path.take(j))
                != comps.take(i) by {
                assert(path.take(j) == init.take(j));
            }
        }
    }
}

/// A parent is a shorter beginning of the path, with all components but the last.
pub proof fn law_parent_drops_last_component(path: Seq<char>)
    ensures
        parent(path) matches Some(q) ==> {
            &&& q.len() < path.len()
            &&& q.is_prefix_of(path)
            &&& components(q) == components(path).drop_last()
            &&& lies_within(path, q)
        },
{
    if let Some(q) = parent(path) {
        let comps = components(path);
        let init = comps.drop_last();
        lemma_beginning_exists(path, comps.len() - 1);
        assert(comps.take(comps.len() - 1) =~= init);
        let e = choose|e: int| ends_at(path, init, e);
        assert(ends_at(path, init, e));
        if e == path.len() {
            assert(path.take(e) == path);
        }
        assert(path.subrange(0, q.len() as int) =~= q);
        assert(comps.subrange(0, init.len() as int) =~= init);
    }
}

/// Those of the segments `parts` that are components, where they do not begin the path.
spec fn inner_names(parts: Seq<Seq<char>>) -> Seq<Seq<char>>
    decreases parts.len(),
{
    if parts.len() == 0 {
        Seq::empty()
    } else if is_name(parts.last(), 1) {
        inner_names(parts.drop_last()).push(parts.last())
    } else {
        inner_names(parts.drop_last())
    }
}

proof fn lemma_names_concat(a: Seq<Seq<char>>, b: Seq<Seq<char>>)
    requires
        a.len() > 0,
    ensures
        names(a + b) == names(a) + inner_names(b),
    decreases b.len(),
{
    if b.len() == 0 {
        assert(a + b =~= a);
        assert(names(a) + inner_names(b) =~= names(a));
    } else {
        lemma_names_concat(a, b.drop_last());
        assert((a + b).drop_last() =~= a + b.drop_last());
        assert(names(a + b) =~= names(a) + inner_names(b));
    }
}

/// Joining a relative path to a directory adds its components to those of the directory.
proof fn lemma_join_adds_names(base: Seq<char>, path: Seq<char>)
    requires
        base.len() > 0,
        !absolute(path),
    ensures
        components(joined(base, path)) == components(base) + inner_names(split(path)),
{
    let full = joined(base, path);
    assert(absolute(full) == absolute(base));
    let dir = if base.last() == '/' {
        base.drop_last()
    } else {
        base
    };
    lemma_split_nonempty(dir);
    lemma_split_concat(dir, path);
    assert(full =~= dir.push('/') + path);
    if base.last() == '/' {
        assert(split(base).drop_last() =~= split(dir));
    }
    assert(names(split(base)) == names(split(dir)));
    lemma_names_concat(split(dir), split(path));
    assert(components(full) =~= components(base) + inner_names(split(path)));
}

/// Only the empty path has no components.
proof fn lemma_empty_path(path: Seq<char>)
    ensures
        components(path).len() == 0 <==> path.len() == 0,
{
    let none = Seq::<char>::empty();
    lemma_no_components();
    if path.len() == 0 {
        assert(path =~= none);
    } else if !absolute(path) {
        assert(path.take(1) =~= none.push(path[0]));
        assert(split(none).last().len() == 0);
        lemma_components_push(none, path[0]);
        lemma_components_grow(path, 1, path.len() as int);
        assert(path.take(path.len() as int) =~= path);
    }
}

/// Joining a plain name to a directory adds it as the last component.
pub proof fn law_join_adds_component(base: Seq<char>, name: Seq<char>)
    requires
        is_segment(name),
        name.len() > 0,
        name != seq!['.'],
    ensures
        components(joined(base, name)) == components(base).push(name),
{
    assert(!absolute(name)) by {
        assert(name[0] == '/' ==> name.contains('/'));
    }
    lemma_split_segment(name);
    assert(seq![name].drop_last() =~= Seq::<Seq<char>>::empty());
    if base.len() == 0 {
        assert(base == Seq::<char>::empty());
        lemma_no_components();
        assert(names(seq![name].drop_last()) == Seq::<Seq<char>>::empty());
        assert(components(name) =~= components(base).push(name));
    } else {
        lemma_join_adds_names(base, name);
        assert(inner_names(seq![name].drop_last()) == Seq::<Seq<char>>::empty());
        assert(components(joined(base, name)) =~= components(base).push(name));
    }
}

/// Two spellings of a directory give two spellings of each path seen from it, and of its parent.
pub proof fn law_spelling_makes_no_difference(a: Seq<char>, b: Seq<char>, path: Seq<char>)
    requires
        components(a) == components(b),
    ensures
        components(joined(a, path)) == components(joined(b, path)),
        parent(a) is Some <==> parent(b) is Some,
        parent(a) is Some ==> components(parent(a)->0) == components(parent(b)->0),
{
    lemma_empty_path(a);
    lemma_empty_path(b);
    if !absolute(path) && a.len() > 0 {
        lemma_join_adds_names(a, path);
        lemma_join_adds_names(b, path);
    }
    law_parent_drops_last_component(a);
    law_parent_drops_last_component(b);
}

/// The directory of a joined name is the directory it was joined to.
pub proof fn law_parent_of_join(base: Seq<char>, name: Seq<char>)
    requires
        is_segment(name),
        name.len() > 0,
        name != seq!['.'],
    ensures
        parent(joined(base, name)) matches Some(q) && components(q) == components(base),
{
    let full = joined(base, name);
    law_join_adds_component(base, name);
    law_parent_drops_last_component(full);
    assert(components(full).drop_last() =~= components(base));
    assert(components(full).last() == name);
    assert(name != root_component()) by {
        assert(root_component()[0] == '/');
        if name == root_component() {
            assert(name[0] == '/');
            assert(name.contains('/'));
        }
    }
}

/// Lying within is transitive, and every path lies within itself.
pub proof fn law_lies_within_is_an_order(a: Seq<char>, b: Seq<char>, c: Seq<char>)
    ensures
        lies_within(a, a),
        lies_within(a, b) && lies_within(b, c) ==> lies_within(a, c),
{
    let (x, y, z) = (components(a), components(b), components(c));
    assert(x.subrange(0, x.len() as int) =~= x);
    if lies_within(a, b) && lies_within(b, c) {
        assert(x.subrange(0, z.len() as int) =~= y.subrange(0, z.len() as int));
    }
}

/// What follows a slash adds its components to those before it.
proof fn lemma_slash_adds_names(base: Seq<char>, path: Seq<char>)
    ensures
        components(base.push('/') + path) == components(base.push('/')) + inner_names(split(path)),
{
    let dir = base.push('/');
    let full = dir + path;
    assert(absolute(full) == absolute(dir));
    lemma_split_nonempty(base);
    lemma_split_concat(base, path);
    assert(dir.drop_last() =~= base);
    assert(split(dir).drop_last() =~= split(base));
    assert(names(split(dir)) == names(split(base)));
    lemma_names_concat(split(base), split(path));
    assert(components(full) =~= components(dir) + inner_names(split(path)));
}

/// What the components of a path are: the empty path has none, the root has itself, a relative
/// name has itself. A name after a slash is one more component, except `.`, and a slash at the
/// end adds none.
pub proof fn law_components_by_name(base: Seq<char>, name: Seq<char>)
    requires
        name.len() > 0,
        forall|i: int| 0 <= i < name.len() ==> #[trigger] name[i] != '/',
    ensures
        components(Seq::empty()) == Seq::<Seq<char>>::empty(),
        components(seq!['/']) == seq![seq!['/']],
        components(name) == seq![name],
        components(seq!['/'] + name) == (if name == seq!['.'] {
            seq![seq!['/']]
        } else {
            seq![seq!['/'], name]
        }),
        base.len() > 0 ==> components(base + seq!['/']) == components(base),
        base.len() > 0 ==> components(base + seq!['/'] + name) == (if name == seq!['.'] {
            components(base)
        } else {
            components(base).push(name)
        }),
{
    let none = Seq::<char>::empty();
    lemma_no_components();
    assert(is_segment(name));
    lemma_split_segment(name);
    assert(seq![name].drop_last() =~= Seq::<Seq<char>>::empty());
    assert(names(seq![name].drop_last()) == Seq::<Seq<char>>::empty());
    assert(inner_names(seq![name].drop_last()) == Seq::<Seq<char>>::empty());
    assert(components(name) =~= seq![name]);
    lemma_components_push(none, '/');
    assert(none.push('/') =~= seq!['/']);
    lemma_slash_adds_names(none, name);
    assert(components(seq!['/'] + name) =~= (if name == seq!['.'] {
        seq![seq!['/']]
    } else {
        seq![seq!['/'], name]
    }));
    if base.len() > 0 {
        lemma_components_push(base, '/');
        assert(base.push('/') =~= base + seq!['/']);
        lemma_slash_adds_names(base, name);
        assert(components(base + seq!['/'] + name) =~= (if name == seq!['.'] {
            components(base)
        } else {
            components(base).push(name)
        }));
    }
}

/// A path lies within another exactly where it begins with its components, one by one. So it
/// does where the other one and a slash stand before the rest of it.
pub proof fn law_lies_within_is_by_component(path: Seq<char>, base: Seq<char>, rest: Seq<char>)
    ensures
        lies_within(path, base) <==> {
            &&& components(base).len() <= components(path).len()
            &&& forall|i: int|
                0 <= i < components(base).len() ==> #[trigger] components(path)[i] == components(
                    base,
                )[i]
        },
        base.len() > 0 ==> lies_within(base + seq!['/'] + rest, base),
{
    let (x, y) = (components(path), components(base));
    if lies_within(path, base) {
        assert forall|i: int| 0 <= i < y.len() implies #[trigger] x[i] == y[i] by {
            assert(x.subrange(0, y.len() as int)[i] == y[i]);
        }
    } else if y.len() <= x.len() && forall|i: int| 0 <= i < y.len() ==> #[trigger] x[i] == y[i] {
        assert(x.subrange(0, y.len() as int) =~= y);
    }
    if base.len() > 0 {
        lemma_components_push(base, '/');
        assert(base.push('/') + rest =~= base + seq!['/'] + rest);
        lemma_slash_adds_names(base, rest);
        let z = components(base + seq!['/'] + rest);
        assert(z.subrange(0, y.len() as int) =~= y);
    }
}

/// An absolute path, one that begins with a slash, is the same from every directory. Any other
/// follows the directory it is seen from, with one slash between them.
pub proof fn law_join_puts_a_slash_between(base: Seq<char>, path: Seq<char>)
    ensures
        absolute(path) <==> path.len() > 0 && path[0] == '/',
        path.len() > 0 && path[0] == '/' ==> joined(base, path) == path,
        base.len() == 0 ==> joined(base, path) == path,
        !(path.len() > 0 && path[0] == '/') && base.len() > 0 && base.last() != '/' ==> joined(
            base,
            path,
        ) == base + seq!['/'] + path,
        !(path.len() > 0 && path[0] == '/') && base.len() > 0 && base.last() == '/' ==> joined(
            base,
            path,
        ) == base + path,
{
    assert(base.push('/') =~= base + seq!['/']);
}

/// There is a parent exactly where there is a component besides the root, and no shorter
/// beginning of the path has the components of the parent.
pub proof fn law_parent_is_shortest(path: Seq<char>)
    ensures
        parent(path) is None <==> components(path).len() == 0 || (components(path).len() == 1
            && path[0] == '/'),
        parent(path) matches Some(q) ==> forall|j: int|
            0 <= j < q.len() ==> components(#[trigger] path.take(j)) != components(q),
{
    let comps = components(path);
    lemma_empty_path(path);
    if comps.len() == 1 {
        law_only_root_has_slash(path, 0);
        if path[0] == '/' {
            assert(comps =~= seq![root_component()]);
        } else if comps == seq![root_component()] {
            assert(comps[0] == root_component());
            assert(root_component()[0] == '/');
            assert(comps[0].contains('/'));
        }
    }
    if let Some(q) = parent(path) {
        law_parent_drops_last_component(path);
        lemma_beginning_exists(path, comps.len() - 1);
        assert(comps.take(comps.len() - 1) =~= comps.drop_last());
        let e = choose|e: int| ends_at(path, comps.drop_last(), e);
        assert(ends_at(path, comps.drop_last(), e));
    }
}

/// The parent of a name in a directory is that directory, of a name in the root it is the root,
/// and of a relative name it is the empty path.
pub proof fn law_parent_of_name(dir: Seq<char>, last: Seq<char>, name: Seq<char>)
    requires
        last.len() > 0,
        last != seq!['.'],
        forall|i: int| 0 <= i < last.len() ==> #[trigger] last[i] != '/',
        name.len() > 0,
        name != seq!['.'],
        forall|i: int| 0 <= i < name.len() ==> #[trigger] name[i] != '/',
    ensures
        parent(dir + seq!['/'] + last + seq!['/'] + name) == Some(dir + seq!['/'] + last),
        parent(last + seq!['/'] + name) == Some(last),
        parent(seq!['/'] + name) == Some(seq!['/']),
        parent(name) == Some(Seq::<char>::empty()),
        parent(seq!['/']) is None,
        parent(Seq::empty()) is None,
{
    let none = Seq::<char>::empty();
    let root = seq!['/'];
    assert(is_segment(last) && is_segment(name));
    let base = dir + root + last;
    assert(base =~= dir.push('/') + last);
    lemma_split_concat(dir, last);
    lemma_split_segment(last);
    lemma_split_nonempty(dir);
    assert(split(base).last() == last);
    lemma_parent_of(base, name);
    lemma_parent_of(last, name);
    law_components_by_name(base, name);
    // The root and the empty path as directories.
    let below = root + name;
    assert(below.take(1) =~= root);
    assert(below.take(0) =~= none);
    assert(ends_at(below, components(root), 1)) by {
        assert forall|j: int| 0 <= j < 1 implies components(#[trigger] below.take(j))
            != components(root) by {
            assert(below.take(j) =~= none);
        }
    }
    assert(components(below).drop_last() =~= components(root));
    assert(components(below).len() == 2);
    lemma_end_unique(below, components(root));
    assert(name.take(0) =~= none);
    assert(ends_at(name, components(none), 0));
    assert(components(name).drop_last() =~= components(none));
    lemma_end_unique(name, components(none));
    law_parent_is_shortest(name);
    law_parent_is_shortest(below);
    law_parent_is_shortest(root);
    law_parent_is_shortest(none);
}

proof fn lemma_parent_of(base: Seq<char>, name: Seq<char>)
    requires
        base.len() > 0,
        base.last() != '/',
        is_name(split(base).last(), split(base).len() - 1),
        name.len() > 0,
        name != seq!['.'],
        forall|i: int| 0 <= i < name.len() ==> #[trigger] name[i] != '/',
    ensures
        parent(base + seq!['/'] + name) == Some(base),
{
    let path = base + seq!['/'] + name;
    let n = base.len() as int;
    let target = components(base);
    law_components_by_name(base, name);
    lemma_empty_path(base);
    assert(components(path).drop_last() =~= target);
    assert(components(path).len() >= 2);
    assert(path.take(n) =~= base);
    let init = base.drop_last();
    assert(init.push(base.last()) =~= base);
    lemma_split_nonempty(init);
    lemma_components_push(init, base.last());
    assert(split(base).last() =~= split(init).last().push(base.last()));
    assert(ends_at(path, target, n)) by {
        assert forall|j: int| 0 <= j < n implies components(#[trigger] path.take(j)) != target by {
            lemma_components_grow(path, j, n - 1);
            assert(path.take(n - 1) =~= init);
        }
    }
    lemma_end_unique(path, target);
    law_parent_is_shortest(path);
}

} // verus!
