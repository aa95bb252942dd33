//! The paths that the commands of a history held in memory used. A shell that collects them from
//! a history of its own ranks what it has collected with
//! [`rank_entries`](crate::path_jump::index::rank_entries).

use crate::path_jump::frecency::{instant, nanoseconds, Timestamp};
use crate::wide::{same_text, to_wide, WString};
use vstd::prelude::*;

verus! {

/// A command of the history: when it ran, and the paths among its arguments.
pub struct HistoryItem {
    pub required_paths: Vec<WString>,
    pub when: Timestamp,
}

/// The command history, most recent command first.
pub struct History {
    pub items: Vec<HistoryItem>,
}

/// A path of the history: how often it was used, and when last.
pub struct PathEntry {
    pub path: WString,
    pub frequency: u32,
    pub last_used: Timestamp,
}

/// One use of a path.
#[verifier::ext_equal]
pub struct Use {
    pub path: Seq<char>,
    pub when: int,
}

/// The uses of paths by one command.
pub open spec fn uses_of(item: HistoryItem) -> Seq<Use> {
    Seq::new(
        item.required_paths@.len(),
        |j: int| Use { path: item.required_paths@[j]@, when: instant(item.when) },
    )
}

/// The uses of paths by a list of commands, in its order.
pub open spec fn uses(items: Seq<HistoryItem>) -> Seq<Use>
    decreases items.len(),
{
    if items.len() == 0 {
        Seq::empty()
    } else {
        uses(items.drop_last()) + uses_of(items.last())
    }
}

/// How often `path` was used.
pub open spec fn use_count(uses: Seq<Use>, path: Seq<char>) -> nat
    decreases uses.len(),
{
    if uses.len() == 0 {
        0
    } else {
        use_count(uses.drop_last(), path) + (if uses.last().path == path {
            1nat
        } else {
            0
        })
    }
}

/// Whether `path` was used before use number `k`.
pub open spec fn used_before(uses: Seq<Use>, path: Seq<char>, k: int) -> bool {
    exists|m: int| 0 <= m < k && (#[trigger] uses[m]).path == path
}

/// Whether `when` is the time of the last use of `path`.
pub open spec fn is_last_use(uses: Seq<Use>, path: Seq<char>, when: int) -> bool {
    &&& exists|i: int| 0 <= i < uses.len() && #[trigger] uses[i] == (Use { path, when })
    &&& forall|i: int| 0 <= i < uses.len() && (#[trigger] uses[i]).path == path ==> uses[i].when
        <= when
}

/// Whether `entry` says how often and when last its path was used.
pub open spec fn tells_uses(entry: PathEntry, uses: Seq<Use>) -> bool {
    let count = use_count(uses, entry.path@);
    &&& count > 0
    &&& entry.frequency == (if count <= u32::MAX {
        count
    } else {
        u32::MAX as nat
    })
    &&& is_last_use(uses, entry.path@, instant(entry.last_used))
}

/// Whether `entries` tells of each used path once, in the order of their first uses.
pub open spec fn tells_all(entries: Seq<PathEntry>, uses: Seq<Use>) -> bool {
    &&& forall|i: int| 0 <= i < entries.len() ==> tells_uses(#[trigger] entries[i], uses)
    &&& forall|k: int| 0 <= k < uses.len() ==> has_path(entries, (#[trigger] uses[k]).path)
    &&& forall|i: int, j: int|
        0 <= i < j < entries.len() ==> (#[trigger] entries[i]).path@ != (
        #[trigger] entries[j]).path@
    &&& forall|i: int, j: int, k: int|
        0 <= i < j < entries.len() && 0 <= k < uses.len() && (#[trigger] uses[k]).path == (
        #[trigger] entries[j]).path@ ==> used_before(uses, (#[trigger] entries[i]).path@, k)
}

/// Whether an entry for `path` is among `entries`.
pub open spec fn has_path(entries: Seq<PathEntry>, path: Seq<char>) -> bool {
    exists|i: int| 0 <= i < entries.len() && (#[trigger] entries[i]).path@ == path
}

/// The first `max` commands, or all where there are fewer.
pub open spec fn scanned(items: Seq<HistoryItem>, max: int) -> Seq<HistoryItem> {
    if items.len() <= max {
        items
    } else {
        items.take(max)
    }
}

impl History {
    /// The paths that the first `max` commands used, each with its frequency and its last use.
    /// Commands without paths count as scanned and add nothing.
    pub fn collect_path_entries(&self, max: usize) -> (entries: Vec<PathEntry>)
        ensures
            tells_all(entries@, uses(scanned(self.items@, max as int))),
    {
        let n: usize = if self.items.len() <= max {
            self.items.len()
        } else {
            max
        };
        let mut entries: Vec<PathEntry> = Vec::new();
        assert(uses(self.items@.take(0)) =~= Seq::empty());
        for i in 0..n
            invariant
                n <= self.items@.len(),
                tells_all(entries@, uses(self.items@.take(i as int))),
        {
            let item = &self.items[i];
            let ghost before = uses(self.items@.take(i as int));
            let ghost new = uses_of(*item);
            assert(before + new.take(0) =~= before);
            for j in 0..item.required_paths.len()
                invariant
                    new == uses_of(*item),
                    tells_all(entries@, before + new.take(j as int)),
            {
                record_use(
                    &mut entries,
                    &item.required_paths[j],
                    item.when,
                    Ghost(before + new.take(j as int)),
                );
                assert((before + new.take(j as int)).push(new[j as int]) =~= before + new.take(
                    j + 1,
                ));
            }
            assert(new.take(new.len() as int) =~= new);
            assert(self.items@.take(i + 1).drop_last() =~= self.items@.take(i as int));
        }
        assert(self.items@.take(n as int) =~= scanned(self.items@, max as int));
        entries
    }
}

/// Note one more use of a path.
fn record_use(
    entries: &mut Vec<PathEntry>,
    path: &[char],
    when: Timestamp,
    Ghost(uses): Ghost<Seq<Use>>,
)
    requires
        tells_all(old(entries)@, uses),
    ensures
        tells_all(final(entries)@, uses.push(Use { path: path@, when: instant(when) })),
{
    let ghost u = Use { path: path@, when: instant(when) };
    let ghost before = entries@;
    let n = entries.len();
    for i in 0..n
        invariant
            n == entries@.len(),
            entries@ == before,
            tells_all(before, uses),
            u == (Use { path: path@, when: instant(when) }),
            forall|j: int| 0 <= j < i ==> (#[trigger] entries@[j]).path@ != path@,
    {
        if same_text(&entries[i].path, path) {
            let known = &entries[i];
            let frequency: u32 = if known.frequency < u32::MAX {
                known.frequency + 1
            } else {
                u32::MAX
            };
            let last_used = if nanoseconds(known.last_used) < nanoseconds(when) {
                when
            } else {
                known.last_used
            };
            let entry = PathEntry { path: to_wide(path), frequency, last_used };
            entries.set(i, entry);
            proof {
                lemma_use_again(before, uses, u, i as int, entry);
            }
            return;
        }
    }
    let entry = PathEntry { path: to_wide(path), frequency: 1, last_used: when };
    entries.push(entry);
    proof {
        lemma_use_first(before, uses, u, entry);
    }
}

proof fn lemma_not_used(uses: Seq<Use>, path: Seq<char>)
    requires
        forall|k: int| 0 <= k < uses.len() ==> (#[trigger] uses[k]).path != path,
    ensures
        use_count(uses, path) == 0,
    decreases uses.len(),
{
    if uses.len() > 0 {
        assert(uses[uses.len() - 1].path != path);
        assert forall|k: int| 0 <= k < uses.drop_last().len() implies (
        #[trigger] uses.drop_last()[k]).path != path by {
            assert(uses[k].path != path);
        }
        lemma_not_used(uses.drop_last(), path);
    }
}

/// A use of one path leaves what is told of another as it is.
proof fn lemma_other_path(entry: PathEntry, uses: Seq<Use>, u: Use)
    requires
        tells_uses(entry, uses),
        entry.path@ != u.path,
    ensures
        tells_uses(entry, uses.push(u)),
{
    let longer = uses.push(u);
    let when = instant(entry.last_used);
    assert(longer.drop_last() =~= uses);
    let i = choose|i: int|
        0 <= i < uses.len() && #[trigger] uses[i] == (Use { path: entry.path@, when });
    assert(longer[i] == uses[i]);
    assert forall|i: int|
        0 <= i < longer.len() && (#[trigger] longer[i]).path == entry.path@ implies longer[i].when
        <= when by {
        if i < uses.len() {
            assert(uses[i].path == entry.path@);
        }
    }
}

/// What was used before stays used before.
proof fn lemma_used_before(uses: Seq<Use>, u: Use, path: Seq<char>, k: int)
    requires
        0 <= k <= uses.len(),
        used_before(uses, path, k),
    ensures
        used_before(uses.push(u), path, k),
{
    let m = choose|m: int| 0 <= m < k && (#[trigger] uses[m]).path == path;
    assert(uses.push(u)[m].path == path);
}

/// An entry's path was used.
proof fn lemma_entry_used(entry: PathEntry, uses: Seq<Use>)
    requires
        tells_uses(entry, uses),
    ensures
        used_before(uses, entry.path@, uses.len() as int),
{
    let when = instant(entry.last_used);
    let i = choose|i: int|
        0 <= i < uses.len() && #[trigger] uses[i] == (Use { path: entry.path@, when });
    assert(uses[i].path == entry.path@);
}

proof fn lemma_use_again(
    entries: Seq<PathEntry>,
    uses: Seq<Use>,
    u: Use,
    e: int,
    entry: PathEntry,
)
    requires
        tells_all(entries, uses),
        0 <= e < entries.len(),
        entries[e].path@ == u.path,
        entry.path@ == u.path,
        entry.frequency == (if entries[e].frequency < u32::MAX {
            entries[e].frequency + 1
        } else {
            u32::MAX as int
        }),
        instant(entry.last_used) == (if instant(entries[e].last_used) < u.when {
            u.when
        } else {
            instant(entries[e].last_used)
        }),
    ensures
        tells_all(entries.update(e, entry), uses.push(u)),
{
    let longer = uses.push(u);
    let updated = entries.update(e, entry);
    assert(longer.drop_last() =~= uses);
    let path = u.path;
    let old_when = instant(entries[e].last_used);
    let when = instant(entry.last_used);
    assert(tells_uses(entries[e], uses));
    assert(tells_uses(entry, longer)) by {
        let i = choose|i: int|
            0 <= i < uses.len() && #[trigger] uses[i] == (Use { path, when: old_when });
        assert(longer[i] == uses[i]);
        assert(longer[uses.len() as int] == u);
        assert forall|i: int| 0 <= i < longer.len() && (
        #[trigger] longer[i]).path == path implies longer[i].when <= when by {
            if i < uses.len() {
                assert(uses[i].path == path);
            }
        }
        if old_when < u.when {
            assert(longer[uses.len() as int] == (Use { path, when }));
        } else {
            assert(longer[i] == (Use { path, when }));
        }
    }
    assert forall|i: int| 0 <= i < updated.len() implies tells_uses(
        #[trigger] updated[i],
        longer,
    ) by {
        if i != e {
            assert(tells_uses(entries[i], uses));
            assert(entries[i].path@ != entries[e].path@);
            lemma_other_path(entries[i], uses, u);
        }
    }
    assert forall|k: int| 0 <= k < longer.len() implies has_path(
        updated,
        (#[trigger] longer[k]).path,
    ) by {
        if k < uses.len() {
            assert(has_path(entries, uses[k].path));
            let i = choose|i: int|
                0 <= i < entries.len() && (#[trigger] entries[i]).path@ == uses[k].path;
            assert(updated[i].path@ == uses[k].path);
        } else {
            assert(updated[e].path@ == u.path);
        }
    }
    assert forall|i: int, j: int| 0 <= i < j < updated.len() implies (
    #[trigger] updated[i]).path@ != (#[trigger] updated[j]).path@ by {
        assert(entries[i].path@ != entries[j].path@);
    }
    assert forall|i: int, j: int, k: int|
        0 <= i < j < updated.len() && 0 <= k < longer.len() && (#[trigger] longer[k]).path == (
        #[trigger] updated[j]).path@ implies used_before(
        longer,
        (#[trigger] updated[i]).path@,
        k,
    ) by {
        assert(updated[i].path@ == entries[i].path@ && updated[j].path@ == entries[j].path@);
        if k < uses.len() {
            assert(uses[k].path == entries[j].path@);
            assert(used_before(uses, entries[i].path@, k));
        } else {
            lemma_entry_used(entries[i], uses);
        }
        lemma_used_before(uses, u, entries[i].path@, k);
    }
}

proof fn lemma_use_first(entries: Seq<PathEntry>, uses: Seq<Use>, u: Use, entry: PathEntry)
    requires
        tells_all(entries, uses),
        forall|j: int| 0 <= j < entries.len() ==> (#[trigger] entries[j]).path@ != u.path,
        entry.path@ == u.path,
        entry.frequency == 1,
        instant(entry.last_used) == u.when,
    ensures
        tells_all(entries.push(entry), uses.push(u)),
{
    let longer = uses.push(u);
    let extended = entries.push(entry);
    let n = entries.len() as int;
    assert(longer.drop_last() =~= uses);
    assert forall|k: int| 0 <= k < uses.len() implies (#[trigger] uses[k]).path != u.path by {
        assert(has_path(entries, uses[k].path));
    }
    lemma_not_used(uses, u.path);
    assert(tells_uses(entry, longer)) by {
        assert(longer[uses.len() as int] == (Use { path: entry.path@, when: u.when }));
        assert forall|i: int|
            0 <= i < longer.len() && (#[trigger] longer[i]).path == entry.path@ implies longer[i].when
            <= u.when by {
            if i < uses.len() {
                assert(uses[i].path != u.path);
            }
        }
    }
    assert forall|i: int| 0 <= i < extended.len() implies tells_uses(
        #[trigger] extended[i],
        longer,
    ) by {
        if i < n {
            assert(tells_uses(entries[i], uses));
            lemma_other_path(entries[i], uses, u);
        }
    }
    assert forall|k: int| 0 <= k < longer.len() implies has_path(
        extended,
        (#[trigger] longer[k]).path,
    ) by {
        if k < uses.len() {
            assert(has_path(entries, uses[k].path));
            let i = choose|i: int|
                0 <= i < entries.len() && (#[trigger] entries[i]).path@ == uses[k].path;
            assert(extended[i].path@ == uses[k].path);
        } else {
            assert(extended[n].path@ == u.path);
        }
    }
    assert forall|i: int, j: int| 0 <= i < j < extended.len() implies (
    #[trigger] extended[i]).path@ != (#[trigger] extended[j]).path@ by {
        assert(extended[i] == entries[i]);
        if j < n {
            assert(entries[i].path@ != entries[j].path@);
        }
    }
    assert forall|i: int, j: int, k: int|
        0 <= i < j < extended.len() && 0 <= k < longer.len() && (#[trigger] longer[k]).path == (
        #[trigger] extended[j]).path@ implies used_before(
        longer,
        (#[trigger] extended[i]).path@,
        k,
    ) by {
        assert(extended[i] == entries[i]);
        if k < uses.len() {
            assert(uses[k].path != u.path);
            assert(extended[j] == entries[j]);
            assert(used_before(uses, entries[i].path@, k));
        } else {
            lemma_entry_used(entries[i], uses);
        }
        lemma_used_before(uses, u, entries[i].path@, k);
    }
}

/// The number of the use of path `j` of command `i`.
spec fn position(items: Seq<HistoryItem>, i: int, j: int) -> int {
    uses(items.take(i)).len() + j
}

proof fn lemma_position(items: Seq<HistoryItem>, i: int, j: int)
    requires
        0 <= i < items.len(),
        0 <= j < items[i].required_paths@.len(),
    ensures
        0 <= position(items, i, j) < uses(items).len(),
        uses(items)[position(items, i, j)] == (Use {
            path: items[i].required_paths@[j]@,
            when: instant(items[i].when),
        }),
    decreases items.len(),
{
    let init = items.drop_last();
    if i == items.len() - 1 {
        assert(items.take(i) =~= init);
    } else {
        lemma_position(init, i, j);
        assert(items.take(i) =~= init.take(i));
    }
}

/// The command and the path in it that a use belongs to.
proof fn lemma_use_at(items: Seq<HistoryItem>, k: int) -> (at: (int, int))
    requires
        0 <= k < uses(items).len(),
    ensures
        0 <= at.0 < items.len(),
        0 <= at.1 < items[at.0].required_paths@.len(),
        position(items, at.0, at.1) == k,
    decreases items.len(),
{
    let init = items.drop_last();
    if k < uses(init).len() {
        let at = lemma_use_at(init, k);
        assert(items.take(at.0) =~= init.take(at.0));
        at
    } else {
        assert(items.take(items.len() - 1) =~= init);
        (items.len() - 1, k - uses(init).len())
    }
}

proof fn lemma_uses_grow(items: Seq<HistoryItem>, a: int, b: int)
    requires
        0 <= a <= b <= items.len(),
    ensures
        uses(items.take(a)).len() <= uses(items.take(b)).len(),
    decreases b - a,
{
    if a < b {
        lemma_uses_grow(items, a, b - 1);
        assert(items.take(b).drop_last() =~= items.take(b - 1));
    }
}

/// An earlier use is one of an earlier command, or of an earlier path of the same command.
proof fn lemma_position_order(items: Seq<HistoryItem>, a: (int, int), b: (int, int))
    requires
        0 <= a.0 < items.len(),
        0 <= a.1 < items[a.0].required_paths@.len(),
        0 <= b.0 < items.len(),
        0 <= b.1 < items[b.0].required_paths@.len(),
        position(items, a.0, a.1) < position(items, b.0, b.1),
    ensures
        a.0 < b.0 || (a.0 == b.0 && a.1 < b.1),
{
    if a.0 > b.0 {
        lemma_uses_grow(items, b.0 + 1, a.0);
        assert(items.take(b.0 + 1).drop_last() =~= items.take(b.0));
    }
}

/// The places where commands use `path`: the number of the command, and of the path in it.
spec fn places(items: Seq<HistoryItem>, path: Seq<char>) -> Set<(int, int)> {
    Set::new(
        |p: (int, int)|
            0 <= p.0 < items.len() && 0 <= p.1 < items[p.0].required_paths@.len()
                && items[p.0].required_paths@[p.1]@ == path,
    )
}

proof fn lemma_count_concat(a: Seq<Use>, b: Seq<Use>, path: Seq<char>)
    ensures
        use_count(a + b, path) == use_count(a, path) + use_count(b, path),
    decreases b.len(),
{
    if b.len() == 0 {
        assert(a + b =~= a);
    } else {
        lemma_count_concat(a, b.drop_last(), path);
        assert((a + b).drop_last() =~= a + b.drop_last());
    }
}

/// The places in the first `m` paths of command `n`.
spec fn places_in(item: HistoryItem, n: int, m: int, path: Seq<char>) -> Set<(int, int)> {
    Set::new(
        |p: (int, int)| p.0 == n && 0 <= p.1 < m && item.required_paths@[p.1]@ == path,
    )
}

proof fn lemma_places_in(item: HistoryItem, n: int, m: int, path: Seq<char>)
    requires
        0 <= m <= item.required_paths@.len(),
    ensures
        places_in(item, n, m, path).finite(),
        places_in(item, n, m, path).len() == use_count(uses_of(item).take(m), path),
    decreases m,
{
    if m == 0 {
        assert(places_in(item, n, m, path) =~= Set::empty());
        assert(uses_of(item).take(0) =~= Seq::empty());
    } else {
        lemma_places_in(item, n, m - 1, path);
        let before = places_in(item, n, m - 1, path);
        assert(uses_of(item).take(m).drop_last() =~= uses_of(item).take(m - 1));
        assert(uses_of(item).take(m).last().path == item.required_paths@[m - 1]@);
        if item.required_paths@[m - 1]@ == path {
            assert(places_in(item, n, m, path) =~= before.insert((n, m - 1)));
        } else {
            assert(places_in(item, n, m, path) =~= before);
        }
    }
}

/// A path is counted once for each place.
proof fn lemma_places(items: Seq<HistoryItem>, path: Seq<char>)
    ensures
        places(items, path).finite(),
        places(items, path).len() == use_count(uses(items), path),
    decreases items.len(),
{
    if items.len() == 0 {
        assert(places(items, path) =~= Set::empty());
    } else {
        let init = items.drop_last();
        let item = items.last();
        let n = init.len() as int;
        let m = item.required_paths@.len() as int;
        lemma_places(init, path);
        lemma_places_in(item, n, m, path);
        lemma_count_concat(uses(init), uses_of(item), path);
        assert(uses_of(item).take(m) =~= uses_of(item));
        let (a, b) = (places(init, path), places_in(item, n, m, path));
        assert(places(items, path) =~= a + b);
        assert(a.disjoint(b));
        vstd::set_lib::lemma_set_disjoint_lens(a, b);
    }
}

/// Among the entries collected from the first `max` commands, each path of each of these commands
/// has an entry.
pub proof fn law_every_path_has_an_entry(
    items: Seq<HistoryItem>,
    max: usize,
    entries: Seq<PathEntry>,
    i: int,
    j: int,
)
    requires
        tells_all(entries, uses(scanned(items, max as int))),
        0 <= i < items.len() && i < max,
        0 <= j < items[i].required_paths@.len(),
    ensures
        exists|e: int|
            0 <= e < entries.len() && (#[trigger] entries[e]).path@ == items[i].required_paths@[j]@,
{
    let seen = scanned(items, max as int);
    assert(seen[i] == items[i]);
    lemma_position(seen, i, j);
    assert(has_path(entries, uses(seen)[position(seen, i, j)].path));
}

/// No path has two entries.
pub proof fn law_no_path_has_two_entries(
    items: Seq<HistoryItem>,
    max: usize,
    entries: Seq<PathEntry>,
    d: int,
    e: int,
)
    requires
        tells_all(entries, uses(scanned(items, max as int))),
        0 <= d < entries.len(),
        0 <= e < entries.len(),
        entries[d].path@ == entries[e].path@,
    ensures
        d == e,
{
}

/// The frequency of an entry is the number of places where one of the first `max` commands uses
/// its path, a path that a command uses twice counting twice. Numbers that do not fit are the
/// largest that does.
pub proof fn law_frequency_counts_places(
    items: Seq<HistoryItem>,
    max: usize,
    entries: Seq<PathEntry>,
    e: int,
)
    requires
        tells_all(entries, uses(scanned(items, max as int))),
        0 <= e < entries.len(),
    ensures
        ({
            let found = Set::new(
                |p: (int, int)|
                    0 <= p.0 < items.len() && p.0 < max && 0 <= p.1
                        < items[p.0].required_paths@.len() && items[p.0].required_paths@[p.1]@
                        == entries[e].path@,
            );
            &&& found.finite()
            &&& found.len() <= 0xffff_ffff ==> entries[e].frequency == found.len()
            &&& found.len() > 0xffff_ffff ==> entries[e].frequency == 0xffff_ffff
        }),
{
    let seen = scanned(items, max as int);
    let path = entries[e].path@;
    let found = Set::new(
        |p: (int, int)|
            0 <= p.0 < items.len() && p.0 < max && 0 <= p.1 < items[p.0].required_paths@.len()
                && items[p.0].required_paths@[p.1]@ == entries[e].path@,
    );
    assert(tells_uses(entries[e], uses(seen)));
    lemma_places(seen, path);
    assert(places(seen, path) =~= found);
}

/// The time of an entry is that of one of the first `max` commands that use its path, and none of
/// these commands ran later.
pub proof fn law_last_use_is_the_latest(
    items: Seq<HistoryItem>,
    max: usize,
    entries: Seq<PathEntry>,
    e: int,
)
    requires
        tells_all(entries, uses(scanned(items, max as int))),
        0 <= e < entries.len(),
    ensures
        exists|i: int, j: int|
            0 <= i < items.len() && i < max && 0 <= j < items[i].required_paths@.len() && (
            #[trigger] items[i].required_paths@[j])@ == entries[e].path@ && items[i].when.secs
                * 1_000_000_000 + items[i].when.nanos == entries[e].last_used.secs * 1_000_000_000
                + entries[e].last_used.nanos,
        forall|i: int, j: int|
            0 <= i < items.len() && i < max && 0 <= j < items[i].required_paths@.len() && (
            #[trigger] items[i].required_paths@[j])@ == entries[e].path@ ==> items[i].when.secs
                * 1_000_000_000 + items[i].when.nanos <= entries[e].last_used.secs * 1_000_000_000
                + entries[e].last_used.nanos,
{
    let seen = scanned(items, max as int);
    let all = uses(seen);
    let path = entries[e].path@;
    let when = instant(entries[e].last_used);
    assert(tells_uses(entries[e], all));
    let k = choose|k: int| 0 <= k < all.len() && #[trigger] all[k] == (Use { path, when });
    let at = lemma_use_at(seen, k);
    lemma_position(seen, at.0, at.1);
    assert(seen[at.0] == items[at.0]);
    assert(items[at.0].required_paths@[at.1]@ == path);
    assert forall|i: int, j: int|
        0 <= i < items.len() && i < max && 0 <= j < items[i].required_paths@.len() && (
        #[trigger] items[i].required_paths@[j])@ == path implies items[i].when.secs * 1_000_000_000
        + items[i].when.nanos <= when by {
        assert(seen[i] == items[i]);
        lemma_position(seen, i, j);
        assert(all[position(seen, i, j)].path == path);
    }
}

/// The entries stand in the order in which their paths are first used: before each use of a
/// later entry's path there is one of an earlier entry's path, in an earlier command or before it
/// in the same one.
pub proof fn law_entries_are_in_order_of_first_use(
    items: Seq<HistoryItem>,
    max: usize,
    entries: Seq<PathEntry>,
    d: int,
    e: int,
    i: int,
    j: int,
)
    requires
        tells_all(entries, uses(scanned(items, max as int))),
        0 <= d < e < entries.len(),
        0 <= i < items.len() && i < max,
        0 <= j < items[i].required_paths@.len(),
        items[i].required_paths@[j]@ == entries[e].path@,
    ensures
        exists|a: int, b: int|
            0 <= a <= i && 0 <= b < items[a].required_paths@.len() && (a < i || b < j) && (
            #[trigger] items[a].required_paths@[b])@ == entries[d].path@,
{
    let seen = scanned(items, max as int);
    let all = uses(seen);
    assert(seen[i] == items[i]);
    lemma_position(seen, i, j);
    let k = position(seen, i, j);
    assert(all[k].path == entries[e].path@);
    assert(used_before(all, entries[d].path@, k));
    let m = choose|m: int| 0 <= m < k && (#[trigger] all[m]).path == entries[d].path@;
    let at = lemma_use_at(seen, m);
    lemma_position(seen, at.0, at.1);
    lemma_position_order(seen, at, (i, j));
    assert(seen[at.0] == items[at.0]);
    assert(items[at.0].required_paths@[at.1]@ == entries[d].path@);
}

} // verus!
