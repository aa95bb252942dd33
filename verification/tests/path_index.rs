use fish_reader::path_jump::frecency::Timestamp;
use fish_reader::path_jump::history::{History, HistoryItem, PathEntry};
use fish_reader::path_jump::index::{
    build_index, filter_index, rank_entries, Completion, PathIndex, MAX_HISTORY_SCAN, MAX_RESULTS,
};
use fish_reader::wide::wide;
use std::time::{Duration, SystemTime, UNIX_EPOCH};

fn stamp(t: SystemTime) -> Timestamp {
    let d = t.duration_since(UNIX_EPOCH).unwrap();
    Timestamp { secs: d.as_secs() as i64, nanos: d.subsec_nanos() }
}

/// Create a test history with the given items.
/// Each item is (command_text, paths, timestamp), the oldest first.
fn create_test_history(items: &[(&str, &[&str], SystemTime)]) -> History {
    let items = items
        .iter()
        .rev()
        .map(|(_cmd, paths, when)| HistoryItem {
            required_paths: paths.iter().map(|p| wide(p)).collect(),
            when: stamp(*when),
        })
        .collect();
    History { items }
}

fn index_now(history: &History) -> PathIndex {
    build_index(history, stamp(SystemTime::now()))
}

fn text(s: &[char]) -> String {
    s.iter().collect()
}

/// A matcher that looks for the term anywhere in the path.
fn substring(term: &[char], path: &[char]) -> bool {
    text(path).contains(&text(term))
}

fn filter(index: &PathIndex, term: &str) -> Vec<Completion> {
    filter_index(index, &wide(term), Some(&wide("/home/u")), substring)
}

fn paths_from_completions(completions: &[Completion]) -> Vec<String> {
    completions.iter().map(|c| text(&c.completion)).collect()
}

// ---- build_index + filter_index (integration) ----

#[test]
fn test_build_index_empty_history() {
    let history = create_test_history(&[]);
    let index = index_now(&history);
    assert!(index.entries.is_empty());
}

#[test]
fn test_build_index_items_without_paths_ignored() {
    let now = SystemTime::now();
    let history = create_test_history(&[("ls", &[], now), ("echo hello", &[], now)]);
    let index = index_now(&history);
    assert!(index.entries.is_empty());
}

#[test]
fn test_build_index_deduplicates_paths() {
    let now = SystemTime::now();
    let history = create_test_history(&[
        ("vim /foo/bar", &["/foo/bar"], now),
        ("cat /foo/bar", &["/foo/bar"], now),
        ("less /foo/bar", &["/foo/bar"], now),
    ]);
    let index = index_now(&history);
    // /foo/bar appears 3 times but should be deduplicated to one entry.
    assert_eq!(index.entries.len(), 1);
    assert_eq!(text(&index.entries[0].0), "/foo/bar");
}

#[test]
fn test_build_index_frequency_affects_score() {
    let now = SystemTime::now();
    let history = create_test_history(&[
        ("vim /rare", &["/rare"], now),
        ("vim /common", &["/common"], now),
        ("cat /common", &["/common"], now),
        ("less /common", &["/common"], now),
    ]);
    let index = index_now(&history);
    // /common (freq=3) should rank above /rare (freq=1).
    assert_eq!(index.entries.len(), 2);
    assert_eq!(text(&index.entries[0].0), "/common");
    assert_eq!(text(&index.entries[1].0), "/rare");
}

#[test]
fn test_build_index_recency_affects_ranking() {
    let now = SystemTime::now();
    let old = now - Duration::from_secs(60 * 86400); // 60 days ago
    let history = create_test_history(&[
        ("vim /old", &["/old"], old),
        ("vim /old", &["/old"], old),
        ("vim /old", &["/old"], old),
        ("vim /recent", &["/recent"], now),
    ]);
    let index = index_now(&history);
    // /recent (freq=1, weight=16) = 16.0 vs /old (freq=3, weight=1) = 3.0
    assert_eq!(text(&index.entries[0].0), "/recent");
    assert_eq!(text(&index.entries[1].0), "/old");
    assert_eq!(index.entries[0].1 as f64, 16.0);
    assert_eq!(index.entries[1].1 as f64, 3.0);
}

#[test]
fn test_filter_index_empty_term_returns_all() {
    let now = SystemTime::now();
    let history = create_test_history(&[("vim /a", &["/a"], now), ("vim /b", &["/b"], now)]);
    let index = index_now(&history);
    let results = filter(&index, "");
    assert_eq!(results.len(), 2);
}

#[test]
fn test_filter_index_fuzzy_matching() {
    let now = SystemTime::now();
    let history = create_test_history(&[
        ("vim /usr/local/bin/python", &["/usr/local/bin/python"], now),
        ("vim /etc/hosts", &["/etc/hosts"], now),
        ("vim /usr/bin/perl", &["/usr/bin/perl"], now),
    ]);
    let index = index_now(&history);
    // "python" should match /usr/local/bin/python.
    let results = filter(&index, "python");
    let paths = paths_from_completions(&results);
    assert!(paths.contains(&"/usr/local/bin/python".to_string()));
    assert!(!paths.contains(&"/etc/hosts".to_string()));
}

#[test]
fn test_filter_index_preserves_score_order() {
    let now = SystemTime::now();
    let history = create_test_history(&[
        ("vim /foo/ab", &["/foo/ab"], now),
        ("vim /bar/ab", &["/bar/ab"], now),
        ("cat /bar/ab", &["/bar/ab"], now),
    ]);
    let index = index_now(&history);
    // Filter for "ab": both match, but /bar/ab has higher frequency.
    let results = filter(&index, "ab");
    let paths = paths_from_completions(&results);
    assert_eq!(paths.len(), 2);
    assert_eq!(paths[0], "/bar/ab");
    assert_eq!(paths[1], "/foo/ab");
}

#[test]
fn test_filter_index_no_match() {
    let now = SystemTime::now();
    let history = create_test_history(&[("vim /foo/bar", &["/foo/bar"], now)]);
    let index = index_now(&history);
    let results = filter(&index, "zzz_no_match");
    assert!(results.is_empty());
}

#[test]
fn test_filter_index_h_shorthand() {
    let now = SystemTime::now();
    let history = create_test_history(&[
        ("vim ~/documents/notes.txt", &["~/documents/notes.txt"], now),
        ("vim /etc/hosts", &["/etc/hosts"], now),
    ]);
    let index = index_now(&history);
    // "h/doc" should expand to "~/doc" and match "~/documents/notes.txt".
    let results = filter(&index, "h/doc");
    let paths = paths_from_completions(&results);
    assert_eq!(paths.len(), 1);
    assert_eq!(paths[0], "~/documents/notes.txt");
}

#[test]
fn test_filter_index_max_results_capped() {
    let now = SystemTime::now();
    let mut items = Vec::new();
    for i in 0..150 {
        let path = format!("/path/{i}");
        items.push(HistoryItem { required_paths: vec![wide(&path)], when: stamp(now) });
    }
    items.reverse();
    let history = History { items };

    let index = index_now(&history);
    assert_eq!(index.entries.len(), 150);

    let results = filter(&index, "");
    assert_eq!(results.len(), MAX_RESULTS);
}

#[test]
fn test_filter_index_completion_flags() {
    let now = SystemTime::now();
    let history = create_test_history(&[("vim /foo", &["/foo"], now)]);
    let index = index_now(&history);
    let results = filter(&index, "");
    assert_eq!(results.len(), 1);
    assert!(results[0].flags.replaces_line);
    assert!(results[0].flags.dont_escape);
    assert!(results[0].flags.dont_sort);
}

#[test]
fn test_build_index_multiple_paths_per_item() {
    let now = SystemTime::now();
    let history = create_test_history(&[("diff /a /b", &["/a", "/b"], now)]);
    let index = index_now(&history);
    let paths: Vec<String> = index.entries.iter().map(|(p, _)| text(p)).collect();
    assert!(paths.contains(&"/a".to_string()));
    assert!(paths.contains(&"/b".to_string()));
}

#[test]
fn test_build_index_sorted_descending_by_score() {
    let now = SystemTime::now();
    let history = create_test_history(&[
        ("vim /low", &["/low"], now - Duration::from_secs(60 * 86400)),
        ("vim /mid", &["/mid"], now - Duration::from_secs(3 * 86400)),
        ("vim /high", &["/high"], now),
    ]);
    let index = index_now(&history);
    let scores: Vec<f64> = index.entries.iter().map(|(_, s)| *s as f64).collect();
    for window in scores.windows(2) {
        assert!(window[0] >= window[1], "scores not descending: {scores:?}");
    }
    assert_eq!(scores, vec![16.0, 4.0, 1.0]);
}

// ---- more ----

fn entry(path: &str, frequency: u32, age: i64) -> PathEntry {
    PathEntry {
        path: wide(path),
        frequency,
        last_used: Timestamp { secs: 10_000_000 - age, nanos: 0 },
    }
}

const NOW: Timestamp = Timestamp { secs: 10_000_000, nanos: 0 };

#[test]
fn equal_scores_keep_their_order() {
    let raw = vec![
        entry("/a", 1, 4_000),
        entry("/b", 2, 4_000),
        entry("/c", 1, 0),
        entry("/d", 4, 100_000),
        entry("/e", 8, 1_000_000),
        entry("/f", 1, 5_000),
    ];
    let index = rank_entries(&raw, NOW);
    let listed: Vec<(String, u64)> = index.entries.iter().map(|(p, s)| (text(p), *s)).collect();
    let expected = [("/b", 16), ("/c", 16), ("/d", 16), ("/e", 16), ("/a", 8), ("/f", 8)];
    assert_eq!(listed, expected.map(|(p, s)| (p.to_string(), s)));
}

#[test]
fn ranking_agrees_with_a_stable_sort() {
    let mut raw = Vec::new();
    let mut x: u32 = 12345;
    for i in 0..500 {
        x = x.wrapping_mul(1_103_515_245).wrapping_add(12345);
        raw.push(entry(&format!("/p{i}"), (x >> 16) % 5, ((x >> 8) % 4_000_000) as i64));
    }
    let index = rank_entries(&raw, NOW);
    let mut expected: Vec<(String, u64)> = raw
        .iter()
        .map(|e| {
            let one = fish_reader::path_jump::frecency::frecency_score(e.frequency, e.last_used, NOW);
            (text(&e.path), one)
        })
        .collect();
    expected.sort_by(|a, b| b.1.cmp(&a.1));
    let listed: Vec<(String, u64)> = index.entries.iter().map(|(p, s)| (text(p), *s)).collect();
    assert_eq!(listed, expected);
}

#[test]
fn entries_tell_frequency_and_last_use() {
    let item = |paths: &[&str], secs: i64| HistoryItem {
        required_paths: paths.iter().map(|p| wide(p)).collect(),
        when: Timestamp { secs, nanos: 7 },
    };
    let history = History {
        items: vec![item(&["/b", "/a", "/b"], 30), item(&[], 25), item(&["/a"], 40), item(&["/c"], 1)],
    };
    let listed: Vec<(String, u32, i64)> = history
        .collect_path_entries(10)
        .iter()
        .map(|e| (text(&e.path), e.frequency, e.last_used.secs))
        .collect();
    let expected = [("/b", 2, 30), ("/a", 2, 40), ("/c", 1, 1)];
    assert_eq!(listed, expected.map(|(p, f, s)| (p.to_string(), f, s)));
    // Items beyond the limit are not scanned, and an item without paths counts.
    assert_eq!(history.collect_path_entries(2).len(), 2);
    assert_eq!(history.collect_path_entries(2)[1].frequency, 1);
    assert_eq!(history.collect_path_entries(0).len(), 0);
}

#[test]
fn only_the_latest_items_are_indexed() {
    let mut items = Vec::new();
    for i in 0..MAX_HISTORY_SCAN {
        let path = if i % 2 == 0 { "/even" } else { "/odd" };
        items.push(HistoryItem { required_paths: vec![wide(path)], when: NOW });
    }
    items.push(HistoryItem { required_paths: vec![wide("/too/old")], when: NOW });
    let index = build_index(&History { items }, NOW);
    let listed: Vec<(String, u64)> = index.entries.iter().map(|(p, s)| (text(p), *s)).collect();
    assert_eq!(listed, [("/even".to_string(), 80_000), ("/odd".to_string(), 80_000)]);
}

#[test]
fn index_lists_each_path_once() {
    let history = create_test_history(&[
        ("a", &["/x", "/y"], UNIX_EPOCH),
        ("b", &["/y", "/z"], UNIX_EPOCH),
        ("c", &["/x"], UNIX_EPOCH),
    ]);
    let index = build_index(&history, Timestamp { secs: 0, nanos: 0 });
    let mut paths: Vec<String> = index.entries.iter().map(|(p, _)| text(p)).collect();
    paths.sort();
    assert_eq!(paths, ["/x", "/y", "/z"]);
}

fn index_of(paths: &[&str]) -> PathIndex {
    PathIndex { entries: paths.iter().map(|p| (wide(p), 1)).collect() }
}

#[test]
fn empty_term_asks_no_matcher() {
    let index = index_of(&["/a", "/b"]);
    let found = filter_index(&index, &wide(""), None, |_: &[char], _: &[char]| false);
    assert_eq!(paths_from_completions(&found), ["/a", "/b"]);
}

#[test]
fn terms_are_tried_expanded_and_resolved() {
    let index = index_of(&["/home/u/doc", "~/doc", "h/doc"]);
    let asked = std::cell::RefCell::new(Vec::new());
    let found = filter_index(
        &index,
        &wide("h/doc"),
        Some(&wide("/home/u")),
        |term: &[char], path: &[char]| {
            asked.borrow_mut().push((text(term), text(path)));
            text(term) == text(path)
        },
    );
    assert_eq!(paths_from_completions(&found), ["/home/u/doc", "~/doc"]);
    let expected = [
        ("~/doc", "/home/u/doc"),
        ("/home/u/doc", "/home/u/doc"),
        ("~/doc", "~/doc"),
        ("~/doc", "h/doc"),
        ("/home/u/doc", "h/doc"),
    ];
    assert_eq!(asked.into_inner(), expected.map(|(t, p)| (t.to_string(), p.to_string())));
}

#[test]
fn search_returns_the_first_matches() {
    let paths: Vec<String> = (0..400).map(|i| format!("/p/{i}/")).collect();
    let refs: Vec<&str> = paths.iter().map(|p| p.as_str()).collect();
    let index = index_of(&refs);
    // Every third path matches, 134 of them.
    let third = |_: &[char], path: &[char]| {
        let n: usize = text(path)[3..].trim_end_matches('/').parse().unwrap();
        n % 3 == 0
    };
    let found = paths_from_completions(&filter_index(&index, &wide("x"), None, third));
    let expected: Vec<String> = (0..MAX_RESULTS).map(|i| format!("/p/{}/", 3 * i)).collect();
    assert_eq!(found, expected);
    // Fewer matches are all returned.
    let found = paths_from_completions(&filter(&index, "/39"));
    assert_eq!(found.len(), 11);
    assert_eq!(found[0], "/p/39/");
    assert_eq!(found[10], "/p/399/");
}

#[test]
fn completions_are_exact_and_undescribed() {
    let found = filter(&index_of(&["/a b"]), "a");
    assert_eq!(text(&found[0].completion), "/a b");
    assert!(found[0].description.is_empty());
    assert!(found[0].exact_match);
}
