use diskhound::group::{
    aggregate, group_key, is_pruned, should_descend, Aggregator, Entry, EntryKind, Group,
    GroupStats, Totals,
};
use diskhound::select::{filter_min_size, select_groups, sort_by_size};

fn path(p: &str) -> Vec<String> {
    p.split('/').map(|s| s.to_string()).collect()
}

fn dir(p: &str) -> Entry {
    Entry { components: path(p), kind: EntryKind::Dir, size: 0 }
}

fn file(p: &str, size: u64) -> Entry {
    Entry { components: path(p), kind: EntryKind::File, size }
}

/// `a/file1` (10 B), `a/b/file2` (20 B), `c/file3` (5 B), `readme.md` (3 B).
fn sample_tree() -> Vec<Entry> {
    vec![
        dir("a"),
        file("a/file1", 10),
        dir("a/b"),
        file("a/b/file2", 20),
        dir("c"),
        file("c/file3", 5),
        file("readme.md", 3),
    ]
}

fn walk(entries: &[Entry], exclude: &[&str]) -> Vec<Entry> {
    let exclude: Vec<String> = exclude.iter().map(|s| s.to_string()).collect();
    entries.iter().filter(|e| !is_pruned(e, &exclude)).cloned().collect()
}

fn stats_of(agg: &Aggregator, key: &str) -> Option<GroupStats> {
    agg.groups.iter().find(|g| g.key == key).map(|g| g.stats)
}

fn group(key: &str, size: u64) -> Group {
    Group { key: key.to_string(), stats: GroupStats { size, file_count: 1 } }
}

#[test]
fn key_is_depth_limited_prefix() {
    assert_eq!(group_key(&path("readme.md"), 1), None);
    assert_eq!(group_key(&path("a/file1"), 1), Some("a".to_string()));
    assert_eq!(group_key(&path("a/b/file2"), 1), Some("a".to_string()));
    assert_eq!(group_key(&path("a/b/file2"), 2), Some("a/b".to_string()));
    assert_eq!(group_key(&path("a/b/file2"), 5), Some("a/b".to_string()));
    assert_eq!(group_key(&path("a/file1"), 3), Some("a".to_string()));
}

#[test]
fn exclusion_checks_names() {
    let ex = vec!["node_modules".to_string(), "b".to_string()];
    assert!(!should_descend(&"b".to_string(), &ex));
    assert!(should_descend(&"a".to_string(), &ex));
    assert!(is_pruned(&dir("a/b"), &ex));
    assert!(is_pruned(&file("a/b/file2", 20), &ex));
    assert!(!is_pruned(&file("a/b", 1), &ex));
    assert!(!is_pruned(&file("a/file1", 10), &ex));
}

#[test]
fn example_tree_depth_one() {
    let agg = aggregate(&sample_tree(), 1);
    assert_eq!(agg.totals, Totals { total_size: 38, total_files: 4, total_dirs: 3 });
    assert_eq!(agg.groups.len(), 2);
    assert_eq!(stats_of(&agg, "a"), Some(GroupStats { size: 30, file_count: 2 }));
    assert_eq!(stats_of(&agg, "c"), Some(GroupStats { size: 5, file_count: 1 }));
}

#[test]
fn example_tree_depth_two() {
    let agg = aggregate(&sample_tree(), 2);
    assert_eq!(agg.groups.len(), 3);
    assert_eq!(stats_of(&agg, "a"), Some(GroupStats { size: 10, file_count: 1 }));
    assert_eq!(stats_of(&agg, "a/b"), Some(GroupStats { size: 20, file_count: 1 }));
    assert_eq!(stats_of(&agg, "c"), Some(GroupStats { size: 5, file_count: 1 }));
    assert_eq!(agg.totals.total_size, 38);
}

#[test]
fn example_tree_excluding_b() {
    let agg = aggregate(&walk(&sample_tree(), &["b"]), 1);
    assert_eq!(stats_of(&agg, "a"), Some(GroupStats { size: 10, file_count: 1 }));
    assert_eq!(agg.totals.total_size, 18);
    assert_eq!(agg.totals.total_files, 3);
    assert_eq!(agg.totals.total_dirs, 2);
}

#[test]
fn total_is_sum_of_all_files() {
    let tree = sample_tree();
    let agg = aggregate(&walk(&tree, &[]), 1);
    let sum: u64 = tree.iter().filter(|e| e.kind == EntryKind::File).map(|e| e.size).sum();
    assert_eq!(agg.totals.total_size, sum);
}

#[test]
fn groups_stay_within_total() {
    let agg = aggregate(&sample_tree(), 2);
    let grouped: u64 = agg.groups.iter().map(|g| g.stats.size).sum();
    assert_eq!(grouped, 35);
    assert!(grouped <= agg.totals.total_size);
}

#[test]
fn depth_does_not_change_counted_bytes() {
    let tree = sample_tree();
    for depth in 1..5 {
        let agg = aggregate(&tree, depth);
        let grouped: u64 = agg.groups.iter().map(|g| g.stats.size).sum();
        assert_eq!(grouped, 35);
        assert_eq!(agg.totals.total_size, 38);
        assert_eq!(agg.totals.total_files, 4);
    }
}

#[test]
fn empty_walk_has_no_groups() {
    let agg = aggregate(&Vec::new(), 1);
    assert!(agg.groups.is_empty());
    assert_eq!(agg.totals, Totals { total_size: 0, total_files: 0, total_dirs: 0 });
    let only_root_files = aggregate(&vec![file("x", 4), file("y", 6)], 1);
    assert!(only_root_files.groups.is_empty());
    assert_eq!(only_root_files.totals.total_size, 10);
}

#[test]
fn record_counts_entries_one_by_one() {
    let mut agg = Aggregator::new(1);
    agg.record(&dir("a"));
    agg.record(&file("a/x", 7));
    agg.record(&file("a/y", 0));
    agg.record(&Entry { components: path("a/link"), kind: EntryKind::Other, size: 99 });
    assert_eq!(agg.totals, Totals { total_size: 7, total_files: 2, total_dirs: 1 });
    assert_eq!(stats_of(&agg, "a"), Some(GroupStats { size: 7, file_count: 2 }));
}

#[test]
fn min_size_keeps_only_large_groups() {
    let agg = aggregate(&sample_tree(), 1);
    let chosen = select_groups(&agg.groups, Some(15), 10);
    assert_eq!(chosen.len(), 1);
    assert_eq!(chosen[0].key, "a");
    assert_eq!(chosen[0].stats.size, 30);
}

#[test]
fn min_size_filter_is_idempotent() {
    let gs = vec![group("a", 30), group("b", 15), group("c", 14), group("d", 0)];
    let once = filter_min_size(&gs, Some(15));
    let twice = filter_min_size(&once, Some(15));
    let keys: Vec<&str> = once.iter().map(|g| g.key.as_str()).collect();
    assert_eq!(keys, vec!["a", "b"]);
    let keys2: Vec<&str> = twice.iter().map(|g| g.key.as_str()).collect();
    assert_eq!(keys, keys2);
    assert_eq!(filter_min_size(&gs, None).len(), 4);
}

#[test]
fn top_n_truncates() {
    let gs = vec![group("a", 5), group("b", 50), group("c", 20), group("d", 1)];
    let top = select_groups(&gs, None, 2);
    let keys: Vec<&str> = top.iter().map(|g| g.key.as_str()).collect();
    assert_eq!(keys, vec!["b", "c"]);
    assert_eq!(select_groups(&gs, None, 10).len(), 4);
    assert_eq!(select_groups(&gs, Some(10), 10).len(), 2);
    assert_eq!(select_groups(&gs, Some(100), 10).len(), 0);
    assert_eq!(select_groups(&gs, None, 0).len(), 0);
}

#[test]
fn sort_is_descending_with_ties_by_key() {
    let gs = vec![group("x", 3), group("y", 9), group("z", 3), group("w", 9), group("ab", 3)];
    let sorted = sort_by_size(&gs);
    let keys: Vec<&str> = sorted.iter().map(|g| g.key.as_str()).collect();
    assert_eq!(keys, vec!["w", "y", "ab", "x", "z"]);
}

#[test]
fn ties_order_by_key_prefix_first() {
    let gs = vec![group("ab", 1), group("a", 1), group("a/b", 1), group("B", 1)];
    let sorted = select_groups(&gs, None, 3);
    let keys: Vec<&str> = sorted.iter().map(|g| g.key.as_str()).collect();
    assert_eq!(keys, vec!["B", "a", "a/b"]);
}
