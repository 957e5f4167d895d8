use dirscan::directory_stat::{DirectoryStat, MetadataWithSize};
use dirscan::rollup::{bucket_stats, rollup, sorted_order, SortType};
use dirscan::state::WalkState;
use dirscan::timestamp::{max_timestamp, update_latest, Timestamp};

fn p(s: &str) -> Vec<String> {
    if s.is_empty() {
        return Vec::new();
    }
    s.split('/').map(|c| c.to_string()).collect()
}

fn ts(secs: i64) -> Option<Timestamp> {
    Some(Timestamp::new(secs, 0))
}

fn stat(path: &str, files: u64, size: u64) -> DirectoryStat {
    let mut s = DirectoryStat::new(p(path));
    s.file_count = files;
    s.total_size = size;
    s.largest_file_size = size;
    s
}

fn file(size: u64) -> MetadataWithSize {
    MetadataWithSize::new(size, false, ts(100), ts(200), ts(300))
}

fn dir() -> MetadataWithSize {
    MetadataWithSize::new(0, true, ts(1), ts(2), ts(3))
}

fn same_totals(a: &DirectoryStat, b: &DirectoryStat) -> bool {
    a.file_count == b.file_count
        && a.total_size == b.total_size
        && a.largest_file_size == b.largest_file_size
        && a.latest_created == b.latest_created
        && a.latest_accessed == b.latest_accessed
        && a.latest_modified == b.latest_modified
}

fn merged(a: &DirectoryStat, b: &DirectoryStat) -> DirectoryStat {
    let mut r = a.clone();
    r.merge(b);
    r
}

fn run(entries: &[(&str, MetadataWithSize)], depth: Option<usize>) -> Vec<DirectoryStat> {
    let mut state = WalkState::new(depth);
    let mut out = Vec::new();
    for (path, m) in entries {
        if let Some(s) = state.add_path(p(path), m) {
            out.push(s);
        }
    }
    if let Some(s) = state.finish() {
        out.push(s);
    }
    out
}

#[test]
fn merge_is_commutative_and_associative() {
    let mut a = stat("x", 2, 10);
    a.latest_created = ts(5);
    let mut b = stat("y", 3, 40);
    b.latest_created = ts(9);
    b.latest_modified = ts(1);
    let mut c = stat("z", 1, 7);
    c.latest_accessed = ts(4);
    assert!(same_totals(&merged(&a, &b), &merged(&b, &a)));
    assert!(same_totals(&merged(&merged(&a, &b), &c), &merged(&a, &merged(&b, &c))));
    let ab = merged(&a, &b);
    assert_eq!(ab.file_count, 5);
    assert_eq!(ab.total_size, 50);
    assert_eq!(ab.largest_file_size, 40);
    assert_eq!(ab.latest_created, ts(9));
    assert_eq!(ab.latest_accessed, None);
    assert_eq!(ab.latest_modified, ts(1));
    assert_eq!(ab.path, p("x"));
}

#[test]
fn merge_with_empty_is_identity() {
    let mut a = stat("x", 2, 10);
    a.latest_accessed = ts(77);
    let e = DirectoryStat::new(p("e"));
    assert!(same_totals(&merged(&a, &e), &a));
    assert!(same_totals(&merged(&e, &a), &a));
}

#[test]
fn accumulate_file_equals_merge_with_single_file() {
    let mut a = stat("x", 2, 10);
    a.latest_created = ts(500);
    let m = file(25);
    let mut single = DirectoryStat::from_metadata(p("x"), &m);
    single.path = p("x");
    let via_merge = merged(&a, &single);
    a.accumulate_file(&m);
    assert!(same_totals(&a, &via_merge));
    assert_eq!(a.file_count, 3);
    assert_eq!(a.total_size, 35);
    assert_eq!(a.largest_file_size, 25);
    assert_eq!(a.latest_created, ts(500));
    assert_eq!(a.latest_accessed, ts(200));
}

#[test]
fn update_latest_keeps_the_maximum() {
    let mut f = None;
    update_latest(&mut f, Timestamp::new(10, 5));
    assert_eq!(f, Some(Timestamp::new(10, 5)));
    update_latest(&mut f, Timestamp::new(10, 4));
    assert_eq!(f, Some(Timestamp::new(10, 5)));
    update_latest(&mut f, Timestamp::new(11, 0));
    assert_eq!(f, Some(Timestamp::new(11, 0)));
    assert_eq!(max_timestamp(None, ts(3)), ts(3));
    assert_eq!(max_timestamp(ts(3), None), ts(3));
    assert_eq!(max_timestamp(None, None), None);
}

#[test]
fn update_latest_field_methods() {
    let mut s = stat("x", 1, 1);
    s.update_latest_created(Timestamp::new(5, 0));
    s.update_latest_created(Timestamp::new(4, 0));
    s.update_latest_accessed(Timestamp::new(7, 0));
    s.update_latest_modified(Timestamp::new(8, 0));
    s.update_latest_modified(Timestamp::new(9, 0));
    assert_eq!(s.latest_created, ts(5));
    assert_eq!(s.latest_accessed, ts(7));
    assert_eq!(s.latest_modified, ts(9));
}

#[test]
fn sorted_stream_emits_one_record_per_directory() {
    let entries = [
        ("r", dir()),
        ("r", file(1)),
        ("r", file(2)),
        ("r/a", dir()),
        ("r/a", file(10)),
        ("r/b", dir()),
        ("r/b", file(20)),
        ("r/b", file(30)),
    ];
    let out = run(&entries, None);
    assert_eq!(out.len(), 3);
    assert_eq!(out[0].path, p("r"));
    assert_eq!(out[1].path, p("r/a"));
    assert_eq!(out[2].path, p("r/b"));
    assert_eq!(out[0].file_count, 2);
    assert_eq!(out[1].file_count, 1);
    assert_eq!(out[2].file_count, 2);
    assert_eq!(out[2].total_size, 50);
    let files: u64 = out.iter().map(|s| s.file_count).sum();
    assert_eq!(files, 5);
}

#[test]
fn directory_entry_opens_an_empty_group() {
    let out = run(&[("r/a", dir())], None);
    assert_eq!(out.len(), 1);
    assert_eq!(out[0].file_count, 0);
    assert_eq!(out[0].total_size, 0);
    assert_eq!(out[0].latest_created, None);
}

#[test]
fn single_entry_stream_is_flushed() {
    let out = run(&[("r", file(42))], None);
    assert_eq!(out.len(), 1);
    assert_eq!(out[0].path, p("r"));
    assert_eq!(out[0].file_count, 1);
    assert_eq!(out[0].total_size, 42);
}

#[test]
fn empty_stream_emits_nothing() {
    assert_eq!(run(&[], None).len(), 0);
}

#[test]
fn out_of_order_stream_repeats_a_key() {
    let entries = [("r/a", file(1)), ("r/b", file(2)), ("r/a", file(3))];
    let out = run(&entries, None);
    assert_eq!(out.len(), 3);
    assert_eq!(out[0].path, p("r/a"));
    assert_eq!(out[1].path, p("r/b"));
    assert_eq!(out[2].path, p("r/a"));
    assert_eq!(out[0].total_size, 1);
    assert_eq!(out[2].total_size, 3);
}

#[test]
fn grouping_depth_truncates_keys() {
    let entries = [
        ("r/a", file(1)),
        ("r/a/x", file(2)),
        ("r/a/y", dir()),
        ("r/b/z", file(4)),
    ];
    let out = run(&entries, Some(2));
    assert_eq!(out.len(), 2);
    assert_eq!(out[0].path, p("r/a"));
    assert_eq!(out[0].file_count, 2);
    assert_eq!(out[0].total_size, 3);
    assert_eq!(out[1].path, p("r/b"));
    assert_eq!(out[1].file_count, 1);
}

#[test]
fn missing_accessed_time_stays_absent() {
    let partial = MetadataWithSize::new(8, false, ts(10), None, ts(30));
    let out = run(&[("r", partial), ("r", partial)], None);
    assert_eq!(out.len(), 1);
    assert_eq!(out[0].file_count, 2);
    assert_eq!(out[0].total_size, 16);
    assert_eq!(out[0].latest_accessed, None);
    assert_eq!(out[0].latest_created, ts(10));
    assert_eq!(out[0].latest_modified, ts(30));
}

#[test]
fn missing_accessed_time_in_rollup() {
    let mut a = stat("a/b", 1, 10);
    a.latest_modified = ts(5);
    let rows = rollup(&vec![a], &p(""), 1, SortType::Name, None);
    assert_eq!(rows.len(), 1);
    assert_eq!(rows[0].file_count, 1);
    assert_eq!(rows[0].total_size, 10);
    assert_eq!(rows[0].latest_accessed, None);
    assert_eq!(rows[0].latest_modified, ts(5));
}

#[test]
fn rollup_expands_every_ancestor() {
    let stats = vec![stat("a/b/x.txt", 1, 10), stat("a/b/y.txt", 1, 20), stat("a/c/z.txt", 1, 5)];
    let rows = rollup(&stats, &p(""), 2, SortType::Name, None);
    assert_eq!(rows.len(), 3);
    assert_eq!(rows[0].path, p("a"));
    assert_eq!((rows[0].file_count, rows[0].total_size), (3, 35));
    assert_eq!(rows[1].path, p("a/b"));
    assert_eq!((rows[1].file_count, rows[1].total_size), (2, 30));
    assert_eq!(rows[2].path, p("a/c"));
    assert_eq!((rows[2].file_count, rows[2].total_size), (1, 5));
}

#[test]
fn rollup_under_prefix_is_relative() {
    let stats = vec![stat("a/b/x.txt", 1, 10), stat("a/b/y.txt", 1, 20), stat("a/c/z.txt", 1, 5), stat("q/r", 1, 99)];
    let rows = rollup(&stats, &p("a"), 1, SortType::Name, None);
    assert_eq!(rows.len(), 2);
    assert_eq!(rows[0].path, p("b"));
    assert_eq!((rows[0].file_count, rows[0].total_size), (2, 30));
    assert_eq!(rows[1].path, p("c"));
    assert_eq!((rows[1].file_count, rows[1].total_size), (1, 5));
}

#[test]
fn rollup_depth_one_rows_equal_deepest_rows() {
    let stats = vec![
        stat("p/a/x/f", 2, 1),
        stat("p/a/y/g", 3, 1),
        stat("p/b/z/h", 4, 1),
        stat("p/a/x/k", 1, 1),
    ];
    let rows = rollup(&stats, &p("p"), 2, SortType::Name, None);
    let count = |path: &str| rows.iter().filter(|r| r.path == p(path)).map(|r| r.file_count).sum::<u64>();
    let deep_under = |a: &str| {
        rows.iter().filter(|r| r.path.len() == 2 && r.path[0] == a).map(|r| r.file_count).sum::<u64>()
    };
    assert_eq!(count("a"), 6);
    assert_eq!(deep_under("a"), 6);
    assert_eq!(count("b"), 4);
    assert_eq!(deep_under("b"), 4);
}

#[test]
fn rollup_sorts_by_size_and_limits() {
    let stats = vec![stat("a", 1, 10), stat("b", 1, 50), stat("c", 1, 30)];
    let rows = rollup(&stats, &p(""), 1, SortType::Size, None);
    let sizes: Vec<u64> = rows.iter().map(|r| r.total_size).collect();
    assert_eq!(sizes, vec![50, 30, 10]);
    let rows = rollup(&stats, &p(""), 1, SortType::Size, Some(2));
    let sizes: Vec<u64> = rows.iter().map(|r| r.total_size).collect();
    assert_eq!(sizes, vec![50, 30]);
}

#[test]
fn rollup_sorts_by_files_with_stable_ties() {
    let stats = vec![stat("c", 2, 1), stat("a", 5, 1), stat("b", 2, 1)];
    let rows = rollup(&stats, &p(""), 1, SortType::Files, None);
    let names: Vec<Vec<String>> = rows.iter().map(|r| r.path.clone()).collect();
    assert_eq!(names, vec![p("a"), p("c"), p("b")]);
}

#[test]
fn rollup_limit_larger_than_rows_keeps_all() {
    let stats = vec![stat("a", 1, 1), stat("b", 1, 2)];
    assert_eq!(rollup(&stats, &p(""), 1, SortType::Name, Some(10)).len(), 2);
    assert_eq!(rollup(&stats, &p(""), 1, SortType::Name, Some(0)).len(), 0);
}

#[test]
fn rollup_of_nothing_and_depth_zero() {
    assert_eq!(rollup(&Vec::new(), &p(""), 3, SortType::Size, None).len(), 0);
    let stats = vec![stat("a/b", 1, 1)];
    assert_eq!(rollup(&stats, &p(""), 0, SortType::Size, None).len(), 0);
}

#[test]
fn buckets_keep_first_seen_order() {
    let stats = vec![stat("z/y", 1, 1), stat("a", 1, 1), stat("z", 1, 1)];
    let bs = bucket_stats(&stats, &p(""), 2);
    let keys: Vec<Vec<String>> = bs.iter().map(|r| r.path.clone()).collect();
    assert_eq!(keys, vec![p("z"), p("z/y"), p("a")]);
    assert_eq!(bs[0].file_count, 2);
}

#[test]
fn name_order_is_component_wise() {
    let rows = vec![stat("a.b", 1, 1), stat("a/z", 1, 1), stat("a", 1, 1), stat("B", 1, 1)];
    let order = sorted_order(&rows, SortType::Name);
    assert_eq!(order, vec![3, 2, 1, 0]);
}
