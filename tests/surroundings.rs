use dirscan::args::thread_count;
use dirscan::directory_stat::DirectoryStat;
use dirscan::path::{is_equivalent_path, join_paths, path_less, starts_with, truncate_path};
use dirscan::progress::{WalkProgress, UPDATE_FREQUENCY_MS};
use dirscan::render::{age_text, render_row, size_text};
use dirscan::timestamp::Timestamp;
use dirscan::walker::Walker;

fn p(s: &str) -> Vec<String> {
    if s.is_empty() {
        return Vec::new();
    }
    s.split('/').map(|c| c.to_string()).collect()
}

#[test]
fn age_of_absent_time_is_unknown() {
    assert_eq!(age_text(None, Timestamp::new(1000, 0)), "Unknown");
}

#[test]
fn age_is_humanized_relative_to_now() {
    let now = Timestamp::new(1_600_000_000, 0);
    assert_eq!(age_text(Some(Timestamp::new(1_600_000_000 - 7200, 0)), now), "2 hours ago");
    assert_eq!(age_text(Some(Timestamp::new(1_600_000_000 + 3 * 86400, 0)), now), "in 3 days");
    assert_eq!(age_text(Some(now), now), "now");
}

#[test]
fn age_handles_sub_second_borrow() {
    let now = Timestamp::new(1_600_000_000, 900_000_000);
    let then = Timestamp::new(1_600_000_000 - 120, 100_000_000);
    assert_eq!(age_text(Some(then), now), "2 minutes ago");
}

#[test]
fn sizes_are_in_binary_units() {
    assert_eq!(size_text(15), "15 B");
    assert_eq!(size_text(1024), "1.00 KiB");
    assert_eq!(size_text(3 * 1024 * 1024 / 2), "1.50 MiB");
}

#[test]
fn row_cells_join_prefix_and_key() {
    let mut row = DirectoryStat::new(p("b/c"));
    row.file_count = 4;
    row.total_size = 2048;
    let now = Timestamp::new(1_000_000, 0);
    row.latest_modified = Some(Timestamp::new(1_000_000 - 60 * 60 * 24 * 14, 0));
    let cells = render_row(&p("a"), &row, now);
    assert_eq!(cells.path, p("a/b/c"));
    assert_eq!(cells.files, 4);
    assert_eq!(cells.size, "2.00 KiB");
    assert_eq!(cells.created, "Unknown");
    assert_eq!(cells.accessed, "Unknown");
    assert_eq!(cells.modified, "2 weeks ago");
}

#[test]
fn walker_settings_and_sizes() {
    let w = Walker::new(8, true, false, true, true);
    assert_eq!(w.threads, 8);
    assert!(w.actual_size && !w.ignore_hidden && w.with_size && w.sorted);
    assert_eq!(w.entry_size(true, 100, Some(4096)), 0);
    assert_eq!(w.entry_size(false, 100, Some(4096)), 4096);
    assert_eq!(w.entry_size(false, 100, None), 100);
    let logical = Walker::new(1, false, false, true, false);
    assert_eq!(logical.entry_size(false, 100, Some(4096)), 100);
}

#[test]
fn walker_puts_files_first_when_sorted() {
    let flags = vec![true, false, true, false, false];
    let sorted = Walker::new(1, false, false, true, true);
    assert_eq!(sorted.entry_order(&flags), vec![1, 3, 4, 0, 2]);
    let unsorted = Walker::new(1, false, false, true, false);
    assert_eq!(unsorted.entry_order(&flags), vec![0, 1, 2, 3, 4]);
    assert_eq!(sorted.entry_order(&Vec::new()), Vec::<usize>::new());
}

#[test]
fn progress_counts_sizes_and_errors() {
    let mut w = WalkProgress::new(p("r"), 1000);
    assert_eq!((w.total, w.total_size, w.errors), (0, 0, 0));
    w.record_progress(Some(10));
    w.record_progress(None);
    w.record_progress(Some(5));
    assert_eq!((w.total, w.total_size, w.errors), (3, 15, 1));
    assert_eq!(w.elapsed_ms(1750), 750);
    assert_eq!(w.elapsed_ms(10), 0);
}

#[test]
fn progress_updates_after_the_frequency() {
    let mut w = WalkProgress::new(p("r"), 1000);
    assert_eq!(w.update_frequency_ms, UPDATE_FREQUENCY_MS);
    assert!(!w.should_update(1000 + UPDATE_FREQUENCY_MS));
    assert!(w.should_update(1001 + UPDATE_FREQUENCY_MS));
    assert!(!w.should_update(10));
    w.update(2000);
    assert_eq!(w.last_update_ms, 2000);
    assert!(!w.should_update(2100));
}

#[test]
fn thread_count_defaults_to_twice_the_cpus() {
    assert_eq!(thread_count(Some(3), 8), 3);
    assert_eq!(thread_count(None, 8), 16);
}

#[test]
fn path_helpers() {
    assert!(starts_with(&p("a/b/c"), &p("a/b")));
    assert!(starts_with(&p("a/b"), &p("")));
    assert!(!starts_with(&p("a/bc"), &p("a/b")));
    assert!(!starts_with(&p("a"), &p("a/b")));
    assert!(is_equivalent_path(&p("a/b/c"), &p("a/b/d"), Some(2)));
    assert!(!is_equivalent_path(&p("a/b/c"), &p("a/b/d"), None));
    assert!(is_equivalent_path(&p("a"), &p("a"), Some(5)));
    assert_eq!(truncate_path(&p("a/b/c"), Some(2)), p("a/b"));
    assert_eq!(truncate_path(&p("a/b/c"), None), p("a/b/c"));
    assert_eq!(join_paths(&p("a"), &p("b/c")), p("a/b/c"));
    assert!(path_less(&p("a"), &p("a/b")));
    assert!(path_less(&p("a/b"), &p("ab")));
    assert!(!path_less(&p("b"), &p("a/z")));
    assert!(!path_less(&p("a"), &p("a")));
}
