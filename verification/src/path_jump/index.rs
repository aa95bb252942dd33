//! The path index: the paths of the history by frecency, and the search in it.

use crate::path_jump::frecency::{frecency, frecency_score, instant, Timestamp};
use crate::path_jump::history::{
    has_path, is_last_use, law_entries_are_in_order_of_first_use, law_every_path_has_an_entry,
    law_frequency_counts_places, law_last_use_is_the_latest, law_no_path_has_two_entries, scanned,
    tells_all, tells_uses, use_count, uses, History, PathEntry, Use,
};
use crate::path_jump::insertion::{
    expand_search_shorthand, home_text, law_only_a_leading_tilde_is_resolved,
    law_other_terms_are_left_alone, resolve_tilde, shorthand_expanded, tilde_resolved,
};
use crate::wide::{to_wide, WString};
use vstd::prelude::*;

verus! {

/// Maximum number of history items to scan.
pub const MAX_HISTORY_SCAN: usize = 10_000;

/// Maximum number of results to return.
pub const MAX_RESULTS: usize = 100;

/// Pre-scored, sorted path index. Built once per path-jump session.
pub struct PathIndex {
    /// `(path, frecency score)`, sorted by score descending.
    pub entries: Vec<(WString, u64)>,
}

/// A path and its score.
#[verifier::ext_equal]
pub struct Scored {
    pub path: Seq<char>,
    pub score: nat,
}

impl View for PathIndex {
    type V = Seq<Scored>;

    open spec fn view(&self) -> Seq<Scored> {
        Seq::new(
            self.entries@.len(),
            |i: int| Scored { path: self.entries@[i].0@, score: self.entries@[i].1 as nat },
        )
    }
}

impl PathIndex {
    /// Whether the entries are sorted by score, the highest first.
    pub open spec fn wf(self) -> bool {
        forall|i: int, j: int|
            0 <= i <= j < self@.len() ==> (#[trigger] self@[i]).score >= (#[trigger] self@[j]).score
    }
}

/// The entries with their scores at the time `now`.
pub open spec fn scored(entries: Seq<PathEntry>, now: Timestamp) -> Seq<Scored> {
    Seq::new(
        entries.len(),
        |i: int|
            Scored {
                path: entries[i].path@,
                score: frecency(entries[i].frequency as nat, entries[i].last_used, now),
            },
    )
}

/// Whether `order` names each of `0..n` once.
pub open spec fn is_permutation(order: Seq<int>, n: int) -> bool {
    &&& order.len() == n
    &&& forall|i: int| 0 <= i < n ==> 0 <= #[trigger] order[i] < n
    &&& forall|i: int, j: int| 0 <= i < j < n ==> #[trigger] order[i] != #[trigger] order[j]
}

/// Whether entry `a` comes before entry `b` in a ranking of `list`: by its score, and where the
/// scores are equal by its place.
pub open spec fn ranks_before(list: Seq<Scored>, a: int, b: int) -> bool {
    list[a].score > list[b].score || (list[a].score == list[b].score && a < b)
}

/// Whether `order` is the order of the ranking of `list`.
pub open spec fn is_ranking_order(list: Seq<Scored>, order: Seq<int>) -> bool {
    &&& is_permutation(order, list.len() as int)
    &&& forall|i: int, j: int|
        0 <= i < j < list.len() ==> ranks_before(list, #[trigger] order[i], #[trigger] order[j])
}

/// Whether `ranked` is `list` sorted by score descending, entries with equal scores in their
/// order in `list`.
pub open spec fn is_ranking(list: Seq<Scored>, ranked: Seq<Scored>) -> bool {
    exists|order: Seq<int>| #[trigger]
        is_ranking_order(list, order) && ranked == order.map_values(|k: int| list[k])
}

spec fn as_ints(indices: Seq<usize>) -> Seq<int> {
    indices.map_values(|k: usize| k as int)
}

/// Whether `indices` holds numbers of `lo..hi`, in the order of the ranking.
spec fn is_run(list: Seq<Scored>, indices: Seq<usize>, lo: int, hi: int) -> bool {
    &&& forall|i: int| 0 <= i < indices.len() ==> lo <= #[trigger] indices[i] < hi
    &&& forall|i: int, j: int|
        0 <= i < j < indices.len() ==> ranks_before(
            list,
            #[trigger] indices[i] as int,
            #[trigger] indices[j] as int,
        )
}

spec fn scores_of(list: Seq<Scored>, scores: Seq<u64>) -> bool {
    &&& list.len() == scores.len()
    &&& forall|i: int| 0 <= i < list.len() ==> #[trigger] scores[i] == list[i].score
}

/// Merge two runs, where every number of the first is lower than every number of the second.
fn merge_runs(
    scores: &Vec<u64>,
    a: &Vec<usize>,
    b: &Vec<usize>,
    Ghost(list): Ghost<Seq<Scored>>,
    Ghost(lo): Ghost<int>,
    Ghost(mid): Ghost<int>,
    Ghost(hi): Ghost<int>,
) -> (merged: Vec<usize>)
    requires
        scores_of(list, scores@),
        0 <= lo <= mid <= hi <= list.len(),
        is_run(list, a@, lo, mid),
        is_run(list, b@, mid, hi),
    ensures
        is_run(list, merged@, lo, hi),
        merged@.len() == a@.len() + b@.len(),
{
    let mut merged: Vec<usize> = Vec::new();
    let mut i: usize = 0;
    let mut j: usize = 0;
    while i < a.len() || j < b.len()
        invariant
            scores_of(list, scores@),
            0 <= lo <= mid <= hi <= list.len(),
            is_run(list, a@, lo, mid),
            is_run(list, b@, mid, hi),
            i <= a@.len(),
            j <= b@.len(),
            merged@.len() == i + j,
            is_run(list, merged@, lo, hi),
            forall|x: int, y: int|
                0 <= x < merged@.len() && i <= y < a@.len() ==> ranks_before(
                    list,
                    #[trigger] merged@[x] as int,
                    #[trigger] a@[y] as int,
                ),
            forall|x: int, y: int|
                0 <= x < merged@.len() && j <= y < b@.len() ==> ranks_before(
                    list,
                    #[trigger] merged@[x] as int,
                    #[trigger] b@[y] as int,
                ),
        decreases a@.len() - i + b@.len() - j,
    {
        if j == b.len() || (i < a.len() && scores[a[i]] >= scores[b[j]]) {
            merged.push(a[i]);
            i = i + 1;
        } else {
            merged.push(b[j]);
            j = j + 1;
        }
    }
    merged
}

/// The numbers `lo..hi` in the order of the ranking.
fn sort_range(scores: &Vec<u64>, lo: usize, hi: usize, Ghost(list): Ghost<Seq<Scored>>) -> (sorted:
    Vec<usize>)
    requires
        scores_of(list, scores@),
        lo <= hi <= list.len(),
    ensures
        is_run(list, sorted@, lo as int, hi as int),
        sorted@.len() == hi - lo,
    decreases hi - lo,
{
    if hi - lo <= 1 {
        let mut sorted: Vec<usize> = Vec::new();
        if lo < hi {
            sorted.push(lo);
        }
        sorted
    } else {
        let mid: usize = lo + (hi - lo) / 2;
        let a = sort_range(scores, lo, mid, Ghost(list));
        let b = sort_range(scores, mid, hi, Ghost(list));
        merge_runs(scores, &a, &b, Ghost(list), Ghost(lo as int), Ghost(mid as int), Ghost(hi as int))
    }
}

/// The index of the given entries at the time `now`.
pub fn rank_entries(raw_entries: &Vec<PathEntry>, now: Timestamp) -> (index: PathIndex)
    ensures
        is_ranking(scored(raw_entries@, now), index@),
        index.wf(),
{
    let ghost list = scored(raw_entries@, now);
    let n = raw_entries.len();
    let mut scores: Vec<u64> = Vec::new();
    for i in 0..n
        invariant
            n == raw_entries@.len(),
            list == scored(raw_entries@, now),
            scores@.len() == i,
            forall|j: int| 0 <= j < i ==> #[trigger] scores@[j] == list[j].score,
    {
        let entry = &raw_entries[i];
        scores.push(frecency_score(entry.frequency, entry.last_used, now));
    }
    let order = sort_range(&scores, 0, n, Ghost(list));
    let mut entries: Vec<(WString, u64)> = Vec::new();
    for i in 0..n
        invariant
            n == raw_entries@.len(),
            list == scored(raw_entries@, now),
            scores_of(list, scores@),
            order@.len() == n,
            is_run(list, order@, 0, n as int),
            entries@.len() == i,
            forall|j: int|
                0 <= j < i ==> (#[trigger] entries@[j]).0@ == list[order@[j] as int].path
                    && entries@[j].1 == list[order@[j] as int].score,
    {
        let k = order[i];
        entries.push((to_wide(&raw_entries[k].path), scores[k]));
    }
    let index = PathIndex { entries };
    proof {
        let ints = as_ints(order@);
        assert(is_permutation(ints, n as int)) by {
            assert forall|i: int, j: int| 0 <= i < j < n implies #[trigger] ints[i]
                != #[trigger] ints[j] by {
                assert(ranks_before(list, order@[i] as int, order@[j] as int));
            }
        }
        assert forall|i: int, j: int| 0 <= i < j < list.len() implies ranks_before(
            list,
            #[trigger] ints[i],
            #[trigger] ints[j],
        ) by {
            assert(ranks_before(list, order@[i] as int, order@[j] as int));
        }
        assert(is_ranking_order(list, ints));
        assert(index@ =~= ints.map_values(|k: int| list[k]));
        assert forall|i: int, j: int| 0 <= i <= j < index@.len() implies (
        #[trigger] index@[i]).score >= (#[trigger] index@[j]).score by {
            law_ranking_is_sorted(list, index@, i, j);
        }
    }
    index
}

/// Whether `ranked` is the ranking of the paths that the scanned part of the history used.
pub open spec fn indexes_history(history: History, now: Timestamp, ranked: Seq<Scored>) -> bool {
    exists|entries: Seq<PathEntry>| #[trigger]
        tells_all(entries, uses(scanned(history.items@, MAX_HISTORY_SCAN as int))) && is_ranking(
            scored(entries, now),
            ranked,
        )
}

/// Build the full scored index from history, at the time `now`. Expensive: call it on a
/// background thread.
pub fn build_index(history: &History, now: Timestamp) -> (index: PathIndex)
    ensures
        indexes_history(*history, now, index@),
        index.wf(),
{
    let raw_entries = history.collect_path_entries(MAX_HISTORY_SCAN);
    rank_entries(&raw_entries, now)
}

/// How a completion is inserted and listed.
#[derive(Clone, Copy, Debug, PartialEq, Eq)]
pub struct CompleteFlags {
    /// It replaces the whole command line.
    pub replaces_line: bool,
    /// It is inserted without escaping.
    pub dont_escape: bool,
    /// It keeps its place in the list.
    pub dont_sort: bool,
}

/// A completion: its text, a description, whether it counts as an exact match, and its flags.
pub struct Completion {
    pub completion: WString,
    pub description: WString,
    pub exact_match: bool,
    pub flags: CompleteFlags,
}

#[verifier::ext_equal]
pub struct CompletionView {
    pub completion: Seq<char>,
    pub description: Seq<char>,
    pub exact_match: bool,
    pub flags: CompleteFlags,
}

impl View for Completion {
    type V = CompletionView;

    open spec fn view(&self) -> CompletionView {
        CompletionView {
            completion: self.completion@,
            description: self.description@,
            exact_match: self.exact_match,
            flags: self.flags,
        }
    }
}

/// The completion for a path: all path-jump completions have the same flags.
pub open spec fn path_completion(path: Seq<char>) -> CompletionView {
    CompletionView {
        completion: path,
        description: Seq::empty(),
        exact_match: true,
        flags: CompleteFlags { replaces_line: true, dont_escape: true, dont_sort: true },
    }
}

/// Whether `fuzzy_match` may say `r` of the term `term` and the path `path`.
pub open spec fn may_match<F: Fn(&[char], &[char]) -> bool>(
    fuzzy_match: F,
    term: Seq<char>,
    path: Seq<char>,
    r: bool,
) -> bool {
    exists|a: &[char], b: &[char]|
        a@ == term && b@ == path && #[trigger] call_ensures(fuzzy_match, (a, b), r)
}

/// Whether `hit` is what a search may find of `path`. The empty term finds everything; any other
/// is matched with the shorthand expanded, and if that does not match, with the home directory
/// resolved too.
pub open spec fn may_hit<F: Fn(&[char], &[char]) -> bool>(
    fuzzy_match: F,
    search_term: Seq<char>,
    home: Option<Seq<char>>,
    path: Seq<char>,
    hit: bool,
) -> bool {
    let expanded = shorthand_expanded(search_term);
    let resolved = tilde_resolved(expanded, home);
    if search_term.len() == 0 {
        hit
    } else if may_match(fuzzy_match, expanded, path, true) && hit {
        true
    } else {
        may_match(fuzzy_match, expanded, path, false) && may_match(
            fuzzy_match,
            resolved,
            path,
            hit,
        )
    }
}

/// The paths of the first entries of `list` for which `hits` says so.
pub open spec fn hit_paths(list: Seq<Scored>, hits: Seq<bool>) -> Seq<Seq<char>>
    decreases hits.len(),
{
    if hits.len() == 0 {
        Seq::empty()
    } else if hits.last() {
        hit_paths(list, hits.drop_last()).push(list[hits.len() - 1].path)
    } else {
        hit_paths(list, hits.drop_last())
    }
}

/// Whether `hits` is how a search in `list` may go: entry after entry is looked at, until there
/// is none left or `MAX_RESULTS` have been found.
pub open spec fn may_search<F: Fn(&[char], &[char]) -> bool>(
    list: Seq<Scored>,
    fuzzy_match: F,
    search_term: Seq<char>,
    home: Option<Seq<char>>,
    hits: Seq<bool>,
) -> bool {
    &&& hits.len() <= list.len()
    &&& forall|i: int|
        0 <= i < hits.len() ==> may_hit(
            fuzzy_match,
            search_term,
            home,
            (#[trigger] list[i]).path,
            hits[i],
        )
    &&& hit_paths(list, hits).len() <= MAX_RESULTS
    &&& hits.len() < list.len() ==> hit_paths(list, hits).len() == MAX_RESULTS
}

/// Whether `found` are the completions for `paths`.
pub open spec fn completes(found: Seq<Completion>, paths: Seq<Seq<char>>) -> bool {
    &&& found.len() == paths.len()
    &&& forall|i: int| 0 <= i < paths.len() ==> (#[trigger] found[i])@ == path_completion(paths[i])
}

/// Filter a pre-built index by search term. Cheap: call it on the main thread. `fuzzy_match`
/// says whether a search term matches a path, and `home` is the home directory.
pub fn filter_index<F: Fn(&[char], &[char]) -> bool>(
    index: &PathIndex,
    search_term: &[char],
    home: Option<&[char]>,
    fuzzy_match: F,
) -> (found: Vec<Completion>)
    requires
        forall|term: &[char], path: &[char]| call_requires(fuzzy_match, (term, path)),
    ensures
        exists|hits: Seq<bool>| #[trigger]
            may_search(index@, fuzzy_match, search_term@, home_text(home), hits) && completes(
                found@,
                hit_paths(index@, hits),
            ),
{
    let search_expanded = expand_search_shorthand(search_term);
    let search_resolved = resolve_tilde(&search_expanded, home);
    let mut found: Vec<Completion> = Vec::new();
    let ghost mut hits: Seq<bool> = Seq::empty();
    let ghost home_dir = home_text(home);
    let ghost list = index@;
    let mut i: usize = 0;
    while i < index.entries.len() && found.len() < MAX_RESULTS
        invariant
            list == index@,
            i <= list.len(),
            hits.len() == i,
            home_dir == home_text(home),
            search_expanded@ == shorthand_expanded(search_term@),
            search_resolved@ == tilde_resolved(search_expanded@, home_dir),
            found@.len() <= MAX_RESULTS,
            completes(found@, hit_paths(list, hits)),
            forall|term: &[char], path: &[char]| call_requires(fuzzy_match, (term, path)),
            forall|j: int|
                0 <= j < hits.len() ==> may_hit(
                    fuzzy_match,
                    search_term@,
                    home_dir,
                    (#[trigger] list[j]).path,
                    hits[j],
                ),
        decreases list.len() - i,
    {
        let path: &[char] = &index.entries[i].0;
        assert(path@ == list[i as int].path);
        let hit = if search_term.is_empty() {
            true
        } else {
            let expanded_matches = fuzzy_match(&search_expanded, path);
            assert(may_match(fuzzy_match, search_expanded@, path@, expanded_matches));
            if expanded_matches {
                true
            } else {
                let resolved_matches = fuzzy_match(&search_resolved, path);
                assert(may_match(fuzzy_match, search_resolved@, path@, resolved_matches));
                resolved_matches
            }
        };
        assert(may_hit(fuzzy_match, search_term@, home_dir, path@, hit));
        let ghost before = hits;
        proof {
            hits = hits.push(hit);
            assert(hits.drop_last() =~= before);
        }
        if hit {
            found.push(
                Completion {
                    completion: to_wide(path),
                    description: Vec::new(),
                    exact_match: true,
                    flags: CompleteFlags { replaces_line: true, dont_escape: true, dont_sort: true },
                },
            );
            assert(found@.last()@ =~= path_completion(path@));
        }
        i = i + 1;
    }
    assert(may_search(list, fuzzy_match, search_term@, home_dir, hits));
    found
}

/// An index is sorted by score, the highest first.
pub proof fn law_ranking_is_sorted(list: Seq<Scored>, ranked: Seq<Scored>, i: int, j: int)
    requires
        is_ranking(list, ranked),
        0 <= i <= j < ranked.len(),
    ensures
        ranked[i].score >= ranked[j].score,
{
    let order = choose|order: Seq<int>| #[trigger]
        is_ranking_order(list, order) && ranked == order.map_values(|k: int| list[k]);
    if i < j {
        assert(ranks_before(list, order[i], order[j]));
    }
}

/// Every number is named by a permutation.
proof fn lemma_permutation_names(order: Seq<int>, n: int, k: int) -> (i: int)
    requires
        is_permutation(order, n),
        0 <= k < n,
    ensures
        0 <= i < n,
        order[i] == k,
{
    let all = vstd::set_lib::set_int_range(0, n);
    vstd::set_lib::lemma_int_range(0, n);
    assert(order.no_duplicates());
    order.unique_seq_to_set();
    assert(order.to_set().subset_of(all));
    vstd::set_lib::lemma_subset_equality(order.to_set(), all);
    assert(order.to_set().contains(k));
    choose|i: int| 0 <= i < order.len() && order[i] == k
}

/// There is only one ranking of a list.
pub proof fn law_ranking_is_unique(list: Seq<Scored>, a: Seq<Scored>, b: Seq<Scored>)
    requires
        is_ranking(list, a),
        is_ranking(list, b),
    ensures
        a == b,
{
    let p = choose|order: Seq<int>| #[trigger]
        is_ranking_order(list, order) && a == order.map_values(|k: int| list[k]);
    let q = choose|order: Seq<int>| #[trigger]
        is_ranking_order(list, order) && b == order.map_values(|k: int| list[k]);
    lemma_orders_agree(list, p, q, list.len() as int);
    assert(p =~= q);
}

proof fn lemma_orders_agree(list: Seq<Scored>, p: Seq<int>, q: Seq<int>, m: int)
    requires
        is_ranking_order(list, p),
        is_ranking_order(list, q),
        0 <= m <= list.len(),
    ensures
        forall|i: int| 0 <= i < m ==> #[trigger] p[i] == q[i],
    decreases m,
{
    if m > 0 {
        let n = list.len() as int;
        let i = m - 1;
        lemma_orders_agree(list, p, q, i);
        let j = lemma_permutation_names(q, n, p[i]);
        let k = lemma_permutation_names(p, n, q[i]);
        if j < i {
            assert(p[j] == q[j]);
            assert(p[j] != p[i]);
        }
        if k < i {
            assert(p[k] == q[k]);
            assert(q[k] != q[i]);
        }
        if i < j && i < k {
            assert(ranks_before(list, q[i], q[j]));
            assert(ranks_before(list, p[i], p[k]));
        }
    }
}

/// Whether `path` is in the list.
pub open spec fn lists_path(list: Seq<Scored>, path: Seq<char>) -> bool {
    exists|i: int| 0 <= i < list.len() && (#[trigger] list[i]).path == path
}

/// Whether an entry has the frecency of the number of uses and of the last use of its path.
pub open spec fn scores_uses(entry: Scored, uses: Seq<Use>, now: Timestamp) -> bool {
    let count = use_count(uses, entry.path);
    let frequency = if count <= u32::MAX {
        count
    } else {
        u32::MAX as nat
    };
    &&& count > 0
    &&& exists|last: Timestamp| #[trigger]
        is_last_use(uses, entry.path, instant(last)) && entry.score == frecency(
            frequency,
            last,
            now,
        )
}

/// An index lists each path that the scanned commands used, and no other, just once. The score
/// is the frecency of the number of uses and the last use.
pub proof fn law_index_lists_each_path_once(history: History, now: Timestamp, ranked: Seq<Scored>)
    requires
        indexes_history(history, now, ranked),
    ensures
        ({
            let uses = uses(scanned(history.items@, MAX_HISTORY_SCAN as int));
            &&& forall|k: int|
                0 <= k < uses.len() ==> lists_path(ranked, (#[trigger] uses[k]).path)
            &&& forall|i: int, j: int|
                0 <= i < j < ranked.len() ==> (#[trigger] ranked[i]).path != (
                #[trigger] ranked[j]).path
            &&& forall|i: int|
                0 <= i < ranked.len() ==> scores_uses(#[trigger] ranked[i], uses, now)
        }),
{
    let uses = uses(scanned(history.items@, MAX_HISTORY_SCAN as int));
    let entries = choose|entries: Seq<PathEntry>| #[trigger]
        tells_all(entries, uses) && is_ranking(scored(entries, now), ranked);
    let list = scored(entries, now);
    let order = choose|order: Seq<int>| #[trigger]
        is_ranking_order(list, order) && ranked == order.map_values(|k: int| list[k]);
    assert forall|k: int| 0 <= k < uses.len() implies lists_path(
        ranked,
        (#[trigger] uses[k]).path,
    ) by {
        assert(has_path(entries, uses[k].path));
        let e = choose|e: int|
            0 <= e < entries.len() && (#[trigger] entries[e]).path@ == uses[k].path;
        let i = lemma_permutation_names(order, list.len() as int, e);
        assert(ranked[i].path == uses[k].path);
    }
    assert forall|i: int, j: int| 0 <= i < j < ranked.len() implies (#[trigger] ranked[i]).path
        != (#[trigger] ranked[j]).path by {
        let (a, b) = (order[i], order[j]);
        assert(a != b);
        if a < b {
            assert(entries[a].path@ != entries[b].path@);
        } else {
            assert(entries[b].path@ != entries[a].path@);
        }
    }
    assert forall|i: int| 0 <= i < ranked.len() implies scores_uses(
        #[trigger] ranked[i],
        uses,
        now,
    ) by {
        let entry = entries[order[i]];
        assert(tells_uses(entry, uses));
        assert(is_last_use(uses, ranked[i].path, instant(entry.last_used)));
    }
}

/// The empty search term finds the first entries of the index, as many as are returned at most.
pub proof fn law_empty_term_finds_all<F: Fn(&[char], &[char]) -> bool>(
    list: Seq<Scored>,
    fuzzy_match: F,
    home: Option<Seq<char>>,
    hits: Seq<bool>,
)
    requires
        may_search(list, fuzzy_match, Seq::empty(), home, hits),
    ensures
        hit_paths(list, hits) == Seq::new(
            if list.len() <= MAX_RESULTS {
                list.len()
            } else {
                MAX_RESULTS as nat
            },
            |i: int| list[i].path,
        ),
{
    assert forall|i: int| 0 <= i < hits.len() implies #[trigger] hits[i] by {
        assert(may_hit(fuzzy_match, Seq::empty(), home, list[i].path, hits[i]));
    }
    lemma_all_hit(list, hits);
    assert(hit_paths(list, hits) =~= Seq::new(
        if list.len() <= MAX_RESULTS {
            list.len()
        } else {
            MAX_RESULTS as nat
        },
        |i: int| list[i].path,
    ));
}

proof fn lemma_all_hit(list: Seq<Scored>, hits: Seq<bool>)
    requires
        forall|i: int| 0 <= i < hits.len() ==> #[trigger] hits[i],
    ensures
        hit_paths(list, hits) == Seq::new(hits.len(), |i: int| list[i].path),
    decreases hits.len(),
{
    if hits.len() > 0 {
        let init = hits.drop_last();
        assert forall|i: int| 0 <= i < init.len() implies #[trigger] init[i] by {
            assert(hits[i]);
        }
        lemma_all_hit(list, init);
        assert(hits[hits.len() - 1]);
    }
    assert(hit_paths(list, hits) =~= Seq::new(hits.len(), |i: int| list[i].path));
}

/// What a search term finds, where `matches` is all that the matcher goes by.
pub open spec fn is_hit(
    matches: spec_fn(Seq<char>, Seq<char>) -> bool,
    search_term: Seq<char>,
    home: Option<Seq<char>>,
    path: Seq<char>,
) -> bool {
    let expanded = shorthand_expanded(search_term);
    ||| search_term.len() == 0
    ||| matches(expanded, path)
    ||| matches(tilde_resolved(expanded, home), path)
}

/// The paths of all entries of `list` that the search term finds.
pub open spec fn matching_paths(
    matches: spec_fn(Seq<char>, Seq<char>) -> bool,
    search_term: Seq<char>,
    home: Option<Seq<char>>,
    list: Seq<Scored>,
) -> Seq<Seq<char>>
    decreases list.len(),
{
    if list.len() == 0 {
        Seq::empty()
    } else {
        let before = matching_paths(matches, search_term, home, list.drop_last());
        if is_hit(matches, search_term, home, list.last().path) {
            before.push(list.last().path)
        } else {
            before
        }
    }
}

/// With a matcher that goes by the term and the path alone, a search returns the matching paths
/// in the order of the index, up to the maximum number of results.
pub proof fn law_search_returns_first_matches<F: Fn(&[char], &[char]) -> bool>(
    list: Seq<Scored>,
    fuzzy_match: F,
    matches: spec_fn(Seq<char>, Seq<char>) -> bool,
    search_term: Seq<char>,
    home: Option<Seq<char>>,
    hits: Seq<bool>,
)
    requires
        may_search(list, fuzzy_match, search_term, home, hits),
        forall|a: &[char], b: &[char], r: bool| #[trigger]
            call_ensures(fuzzy_match, (a, b), r) ==> r == matches(a@, b@),
    ensures
        ({
            let all = matching_paths(matches, search_term, home, list);
            hit_paths(list, hits) == (if all.len() <= MAX_RESULTS {
                all
            } else {
                all.take(MAX_RESULTS as int)
            })
        }),
{
    let all = matching_paths(matches, search_term, home, list);
    let seen = list.take(hits.len() as int);
    assert forall|i: int| 0 <= i < hits.len() implies #[trigger] hits[i] == is_hit(
        matches,
        search_term,
        home,
        list[i].path,
    ) by {
        assert(may_hit(fuzzy_match, search_term, home, list[i].path, hits[i]));
    }
    lemma_hits_are_matches(list, matches, search_term, home, hits);
    lemma_matching_grows(matches, search_term, home, list, hits.len() as int);
    if hits.len() == list.len() {
        assert(seen =~= list);
    }
    assert(hit_paths(list, hits) =~= (if all.len() <= MAX_RESULTS {
        all
    } else {
        all.take(MAX_RESULTS as int)
    }));
}

proof fn lemma_hits_are_matches(
    list: Seq<Scored>,
    matches: spec_fn(Seq<char>, Seq<char>) -> bool,
    search_term: Seq<char>,
    home: Option<Seq<char>>,
    hits: Seq<bool>,
)
    requires
        hits.len() <= list.len(),
        forall|i: int|
            0 <= i < hits.len() ==> #[trigger] hits[i] == is_hit(
                matches,
                search_term,
                home,
                list[i].path,
            ),
    ensures
        hit_paths(list, hits) == matching_paths(
            matches,
            search_term,
            home,
            list.take(hits.len() as int),
        ),
    decreases hits.len(),
{
    if hits.len() > 0 {
        let init = hits.drop_last();
        let seen = list.take(hits.len() as int);
        assert forall|i: int| 0 <= i < init.len() implies #[trigger] init[i] == is_hit(
            matches,
            search_term,
            home,
            list[i].path,
        ) by {
            assert(hits[i] == init[i]);
        }
        lemma_hits_are_matches(list, matches, search_term, home, init);
        assert(seen.drop_last() =~= list.take(init.len() as int));
        assert(hits[hits.len() - 1] == hits.last());
    }
}

proof fn lemma_matching_grows(
    matches: spec_fn(Seq<char>, Seq<char>) -> bool,
    search_term: Seq<char>,
    home: Option<Seq<char>>,
    list: Seq<Scored>,
    k: int,
)
    requires
        0 <= k <= list.len(),
    ensures
        matching_paths(matches, search_term, home, list.take(k)).is_prefix_of(
            matching_paths(matches, search_term, home, list),
        ),
    decreases list.len() - k,
{
    let here = matching_paths(matches, search_term, home, list.take(k));
    let all = matching_paths(matches, search_term, home, list);
    if k == list.len() {
        assert(list.take(k) =~= list);
        assert(all.subrange(0, all.len() as int) =~= all);
    } else {
        lemma_matching_grows(matches, search_term, home, list, k + 1);
        let next = matching_paths(matches, search_term, home, list.take(k + 1));
        assert(list.take(k + 1).drop_last() =~= list.take(k));
        assert(all.subrange(0, here.len() as int) =~= all.subrange(0, next.len() as int).subrange(
            0,
            here.len() as int,
        ));
        assert(next.subrange(0, here.len() as int) =~= here);
    }
}

/// A ranking holds each entry once, with its path and its frecency. Of two entries the one with
/// the higher score comes first, and at equal scores the one that came first before.
pub proof fn law_ranking_is_a_stable_sort(
    raw_entries: Seq<PathEntry>,
    now: Timestamp,
    index: PathIndex,
)
    requires
        is_ranking(scored(raw_entries, now), index@),
    ensures
        exists|order: Seq<int>|
            {
                &&& #[trigger] order.len() == raw_entries.len()
                &&& index.entries@.len() == raw_entries.len()
                &&& forall|k: int|
                    0 <= k < order.len() ==> {
                        &&& 0 <= #[trigger] order[k] < raw_entries.len()
                        &&& index.entries@[k].0@ == raw_entries[order[k]].path@
                        &&& index.entries@[k].1 == frecency(
                            raw_entries[order[k]].frequency as nat,
                            raw_entries[order[k]].last_used,
                            now,
                        )
                    }
                &&& forall|a: int, b: int|
                    0 <= a < b < order.len() ==> #[trigger] order[a] != #[trigger] order[b] && (
                    index.entries@[a].1 > index.entries@[b].1 || (index.entries@[a].1
                        == index.entries@[b].1 && order[a] < order[b]))
            },
{
    let list = scored(raw_entries, now);
    let order = choose|order: Seq<int>| #[trigger]
        is_ranking_order(list, order) && index@ == order.map_values(|k: int| list[k]);
    assert(index@.len() == index.entries@.len());
    assert forall|k: int| 0 <= k < order.len() implies {
        &&& 0 <= #[trigger] order[k] < raw_entries.len()
        &&& index.entries@[k].0@ == raw_entries[order[k]].path@
        &&& index.entries@[k].1 == frecency(
            raw_entries[order[k]].frequency as nat,
            raw_entries[order[k]].last_used,
            now,
        )
    } by {
        assert(index@[k] == list[order[k]]);
    }
    assert forall|a: int, b: int| 0 <= a < b < order.len() implies #[trigger] order[a]
        != #[trigger] order[b] && (index.entries@[a].1 > index.entries@[b].1 || (
    index.entries@[a].1 == index.entries@[b].1 && order[a] < order[b])) by {
        assert(ranks_before(list, order[a], order[b]));
        assert(index@[a] == list[order[a]]);
        assert(index@[b] == list[order[b]]);
    }
    assert(order.len() == raw_entries.len());
}

/// What an index was built from: the entries collected from the history, and their places in it.
proof fn lemma_index_source(history: History, now: Timestamp, index: PathIndex) -> (source: (
    Seq<PathEntry>,
    Seq<int>,
))
    requires
        indexes_history(history, now, index@),
    ensures
        tells_all(source.0, uses(scanned(history.items@, 10_000))),
        is_permutation(source.1, source.0.len() as int),
        index.entries@.len() == source.0.len(),
        forall|k: int|
            0 <= k < index.entries@.len() ==> {
                let entry = source.0[#[trigger] source.1[k]];
                &&& index.entries@[k].0@ == entry.path@
                &&& index.entries@[k].1 == frecency(entry.frequency as nat, entry.last_used, now)
            },
        forall|a: int, b: int|
            #![trigger index.entries@[a], index.entries@[b]]
            0 <= a < b < index.entries@.len() ==> index.entries@[a].1 > index.entries@[b].1 || (
            index.entries@[a].1 == index.entries@[b].1 && source.1[a] < source.1[b]),
{
    let entries = choose|entries: Seq<PathEntry>| #[trigger]
        tells_all(entries, uses(scanned(history.items@, MAX_HISTORY_SCAN as int))) && is_ranking(
            scored(entries, now),
            index@,
        );
    law_ranking_is_a_stable_sort(entries, now, index);
    let order = choose|order: Seq<int>|
        {
            &&& #[trigger] order.len() == entries.len()
            &&& index.entries@.len() == entries.len()
            &&& forall|k: int|
                0 <= k < order.len() ==> {
                    &&& 0 <= #[trigger] order[k] < entries.len()
                    &&& index.entries@[k].0@ == entries[order[k]].path@
                    &&& index.entries@[k].1 == frecency(
                        entries[order[k]].frequency as nat,
                        entries[order[k]].last_used,
                        now,
                    )
                }
            &&& forall|a: int, b: int|
                0 <= a < b < order.len() ==> #[trigger] order[a] != #[trigger] order[b] && (
                index.entries@[a].1 > index.entries@[b].1 || (index.entries@[a].1
                    == index.entries@[b].1 && order[a] < order[b]))
        };
    assert forall|a: int, b: int|
        #![trigger index.entries@[a], index.entries@[b]]
        0 <= a < b < index.entries@.len() implies index.entries@[a].1 > index.entries@[b].1 || (
    index.entries@[a].1 == index.entries@[b].1 && order[a] < order[b]) by {
        assert(order[a] != order[b]);
    }
    (entries, order)
}

/// Each path of each of the 10000 latest commands is in the index, whatever path it is.
pub proof fn law_every_used_path_is_indexed(
    history: History,
    now: Timestamp,
    index: PathIndex,
    i: int,
    j: int,
)
    requires
        indexes_history(history, now, index@),
        0 <= i < history.items@.len() && i < 10_000,
        0 <= j < history.items@[i].required_paths@.len(),
    ensures
        exists|k: int|
            0 <= k < index.entries@.len() && (#[trigger] index.entries@[k]).0@
                == history.items@[i].required_paths@[j]@,
{
    let (entries, order) = lemma_index_source(history, now, index);
    law_every_path_has_an_entry(history.items@, 10_000, entries, i, j);
    let e = choose|e: int|
        0 <= e < entries.len() && (#[trigger] entries[e]).path@
            == history.items@[i].required_paths@[j]@;
    let k = lemma_permutation_names(order, entries.len() as int, e);
    assert(entries[order[k]].path@ == index.entries@[k].0@);
}

/// The score of an entry of the index is the frecency of the number of places where one of the
/// 10000 latest commands uses its path, and of the time of the latest of these commands. There is
/// such a command: no other paths are in the index.
pub proof fn law_score_counts_places(history: History, now: Timestamp, index: PathIndex, k: int)
    requires
        indexes_history(history, now, index@),
        0 <= k < index.entries@.len(),
    ensures
        ({
            let items = history.items@;
            let path = index.entries@[k].0@;
            let count = Set::new(
                |p: (int, int)|
                    0 <= p.0 < items.len() && p.0 < 10_000 && 0 <= p.1
                        < items[p.0].required_paths@.len() && items[p.0].required_paths@[p.1]@
                        == path,
            ).len();
            let frequency: nat = if count <= 0xffff_ffff {
                count
            } else {
                0xffff_ffff
            };
            exists|i: int, j: int|
                {
                    &&& 0 <= i < items.len() && i < 10_000
                    &&& 0 <= j < items[i].required_paths@.len()
                    &&& (#[trigger] items[i].required_paths@[j])@ == path
                    &&& forall|a: int, b: int|
                        0 <= a < items.len() && a < 10_000 && 0 <= b
                            < items[a].required_paths@.len() && (
                        #[trigger] items[a].required_paths@[b])@ == path ==> items[a].when.secs
                            * 1_000_000_000 + items[a].when.nanos <= items[i].when.secs
                            * 1_000_000_000 + items[i].when.nanos
                    &&& index.entries@[k].1 == frecency(frequency, items[i].when, now)
                }
        }),
{
    let items = history.items@;
    let path = index.entries@[k].0@;
    let (entries, order) = lemma_index_source(history, now, index);
    let e = order[k];
    assert(entries[e].path@ == path);
    let found = Set::new(
        |p: (int, int)|
            0 <= p.0 < items.len() && p.0 < 10_000 && 0 <= p.1 < items[p.0].required_paths@.len()
                && items[p.0].required_paths@[p.1]@ == path,
    );
    let same = Set::new(
        |p: (int, int)|
            0 <= p.0 < items.len() && p.0 < 10_000usize && 0 <= p.1
                < items[p.0].required_paths@.len() && items[p.0].required_paths@[p.1]@
                == entries[e].path@,
    );
    law_frequency_counts_places(items, 10_000, entries, e);
    assert(found =~= same);
    law_last_use_is_the_latest(items, 10_000, entries, e);
    let (i, j) = choose|i: int, j: int|
        0 <= i < items.len() && i < 10_000 && 0 <= j < items[i].required_paths@.len() && (
        #[trigger] items[i].required_paths@[j])@ == entries[e].path@ && items[i].when.secs
            * 1_000_000_000 + items[i].when.nanos == entries[e].last_used.secs * 1_000_000_000
            + entries[e].last_used.nanos;
    assert(items[i].required_paths@[j]@ == path);
    assert(instant(items[i].when) == instant(entries[e].last_used));
}

/// No path is in the index twice. The higher score comes first, and at equal scores the path that
/// is used first: before each use of the later one there is a use of the earlier one, in an
/// earlier command of the history or before it in the same one.
pub proof fn law_index_is_in_order(
    history: History,
    now: Timestamp,
    index: PathIndex,
    k: int,
    l: int,
)
    requires
        indexes_history(history, now, index@),
        0 <= k < l < index.entries@.len(),
    ensures
        index.entries@[k].0@ != index.entries@[l].0@,
        index.entries@[k].1 >= index.entries@[l].1,
        index.entries@[k].1 == index.entries@[l].1 ==> forall|i: int, j: int|
            0 <= i < history.items@.len() && i < 10_000 && 0 <= j
                < history.items@[i].required_paths@.len() && (
            #[trigger] history.items@[i].required_paths@[j])@ == index.entries@[l].0@
                ==> exists|a: int, b: int|
                0 <= a <= i && 0 <= b < history.items@[a].required_paths@.len() && (a < i || b < j)
                    && (#[trigger] history.items@[a].required_paths@[b])@ == index.entries@[k].0@,
{
    let items = history.items@;
    let (entries, order) = lemma_index_source(history, now, index);
    let (d, e) = (order[k], order[l]);
    assert(d != e);
    assert(entries[d].path@ == index.entries@[k].0@ && entries[e].path@ == index.entries@[l].0@);
    if entries[d].path@ == entries[e].path@ {
        law_no_path_has_two_entries(items, 10_000, entries, d, e);
    }
    if index.entries@[k].1 == index.entries@[l].1 {
        assert forall|i: int, j: int|
            0 <= i < items.len() && i < 10_000 && 0 <= j < items[i].required_paths@.len() && (
            #[trigger] items[i].required_paths@[j])@ == entries[e].path@ implies exists|
            a: int,
            b: int,
        |
            0 <= a <= i && 0 <= b < items[a].required_paths@.len() && (a < i || b < j) && (
            #[trigger] items[a].required_paths@[b])@ == entries[d].path@ by {
            law_entries_are_in_order_of_first_use(items, 10_000, entries, d, e, i, j);
        }
    }
}

/// The numbers of the hits.
spec fn hit_positions(hits: Seq<bool>) -> Seq<int>
    decreases hits.len(),
{
    if hits.len() == 0 {
        Seq::empty()
    } else if hits.last() {
        hit_positions(hits.drop_last()).push(hits.len() - 1)
    } else {
        hit_positions(hits.drop_last())
    }
}

proof fn lemma_hit_positions(list: Seq<Scored>, hits: Seq<bool>)
    ensures
        hit_positions(hits).len() == hit_paths(list, hits).len(),
        forall|a: int|
            0 <= a < hit_positions(hits).len() ==> 0 <= #[trigger] hit_positions(hits)[a]
                < hits.len() && hits[hit_positions(hits)[a]] && hit_paths(list, hits)[a]
                == list[hit_positions(hits)[a]].path,
        forall|a: int, b: int|
            0 <= a < b < hit_positions(hits).len() ==> #[trigger] hit_positions(hits)[a]
                < #[trigger] hit_positions(hits)[b],
        forall|k: int|
            0 <= k < hits.len() && #[trigger] hits[k] ==> hit_positions(hits).contains(k),
    decreases hits.len(),
{
    if hits.len() > 0 {
        let init = hits.drop_last();
        let before = hit_positions(init);
        lemma_hit_positions(list, init);
        assert forall|k: int| 0 <= k < hits.len() && #[trigger] hits[k] implies hit_positions(
            hits,
        ).contains(k) by {
            if k < init.len() {
                assert(init[k]);
                let a = choose|a: int| 0 <= a < before.len() && before[a] == k;
                assert(hit_positions(hits)[a] == k);
            } else {
                assert(hit_positions(hits)[before.len() as int] == k);
            }
        }
    }
}

/// What a search returns, with a matcher that goes by the term and the path alone. The term is
/// tried as it is. Only a leading `h/` stands for `~/`, and with a leading `~/` the home directory
/// is tried too. The empty term finds everything. What is found are completions for the paths
/// that match, in the order of the index, without gaps and at most 100 of them.
pub proof fn law_search_finds_what_matches<F: Fn(&[char], &[char]) -> bool>(
    index: PathIndex,
    fuzzy_match: F,
    matches: spec_fn(Seq<char>, Seq<char>) -> bool,
    term: Seq<char>,
    home: Option<&[char]>,
    found: Seq<Completion>,
)
    requires
        exists|hits: Seq<bool>| #[trigger]
            may_search(index@, fuzzy_match, term, home_text(home), hits) && completes(
                found,
                hit_paths(index@, hits),
            ),
        forall|a: &[char], b: &[char], r: bool| #[trigger]
            call_ensures(fuzzy_match, (a, b), r) ==> r == matches(a@, b@),
    ensures
        ({
            let hit = |k: int|
                {
                    let path = index.entries@[k].0@;
                    if term.len() == 0 {
                        true
                    } else if term.len() >= 2 && (term[0] == 'h' || term[0] == '~') && term[1]
                        == '/' {
                        matches(seq!['~'] + term.skip(1), path) || (home is Some && matches(
                            home->0@ + term.skip(1),
                            path,
                        ))
                    } else {
                        matches(term, path)
                    }
                };
            exists|at: Seq<int>|
                {
                    &&& #[trigger] at.len() == found.len()
                    &&& found.len() <= 100
                    &&& forall|a: int|
                        0 <= a < at.len() ==> {
                            &&& 0 <= #[trigger] at[a] < index.entries@.len()
                            &&& hit(at[a])
                            &&& found[a].completion@ == index.entries@[at[a]].0@
                            &&& found[a].description@.len() == 0
                            &&& found[a].exact_match
                            &&& found[a].flags.replaces_line
                            &&& found[a].flags.dont_escape
                            &&& found[a].flags.dont_sort
                        }
                    &&& forall|a: int, b: int|
                        0 <= a < b < at.len() ==> #[trigger] at[a] < #[trigger] at[b]
                    &&& forall|k: int|
                        0 <= k < index.entries@.len() && hit(k) && (found.len() < 100 || k
                            < at[99]) ==> #[trigger] at.contains(k)
                }
        }),
{
    let list = index@;
    let hits = choose|hits: Seq<bool>| #[trigger]
        may_search(list, fuzzy_match, term, home_text(home), hits) && completes(
            found,
            hit_paths(list, hits),
        );
    let hit = |k: int|
        {
            let path = index.entries@[k].0@;
            if term.len() == 0 {
                true
            } else if term.len() >= 2 && (term[0] == 'h' || term[0] == '~') && term[1] == '/' {
                matches(seq!['~'] + term.skip(1), path) || (home is Some && matches(
                    home->0@ + term.skip(1),
                    path,
                ))
            } else {
                matches(term, path)
            }
        };
    let at = hit_positions(hits);
    lemma_hit_positions(list, hits);
    lemma_tried_terms(term, home);
    assert forall|k: int| 0 <= k < hits.len() implies #[trigger] hits[k] == hit(k) by {
        assert(list[k].path == index.entries@[k].0@);
        assert(may_hit(fuzzy_match, term, home_text(home), list[k].path, hits[k]));
    }
    assert forall|a: int| 0 <= a < at.len() implies {
        &&& 0 <= #[trigger] at[a] < index.entries@.len()
        &&& hit(at[a])
        &&& found[a].completion@ == index.entries@[at[a]].0@
        &&& found[a].description@.len() == 0
        &&& found[a].exact_match
        &&& found[a].flags.replaces_line
        &&& found[a].flags.dont_escape
        &&& found[a].flags.dont_sort
    } by {
        assert(hits[at[a]]);
        assert(found[a]@ == path_completion(list[at[a]].path));
    }
    assert forall|k: int|
        0 <= k < index.entries@.len() && hit(k) && (found.len() < 100 || k
            < at[99]) implies #[trigger] at.contains(k) by {
        assert(k < hits.len());
        assert(hits[k]);
    }
    assert(at.len() == found.len());
}

/// The two texts that a search tries for a term.
proof fn lemma_tried_terms(term: Seq<char>, home: Option<&[char]>)
    ensures
        ({
            let expanded = shorthand_expanded(term);
            let resolved = tilde_resolved(expanded, home_text(home));
            if term.len() >= 2 && (term[0] == 'h' || term[0] == '~') && term[1] == '/' {
                &&& expanded == seq!['~'] + term.skip(1)
                &&& resolved == (if home is Some {
                    home->0@ + term.skip(1)
                } else {
                    expanded
                })
            } else {
                expanded == term && resolved == term
            }
        }),
{
    let expanded = shorthand_expanded(term);
    law_other_terms_are_left_alone(term);
    law_only_a_leading_tilde_is_resolved(expanded, home_text(home));
    if term.len() >= 2 && (term[0] == 'h' || term[0] == '~') && term[1] == '/' {
        assert(expanded =~= seq!['~'] + term.skip(1));
        let rest = term.skip(2);
        assert(expanded =~= seq!['~', '/'] + rest);
        if home is Some {
            assert(home->0@ + term.skip(1) =~= home->0@ + seq!['/'] + rest);
        }
    }
}

} // verus!
