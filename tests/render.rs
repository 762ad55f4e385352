use w3s_cli::progress::ProgressAggregator;
use w3s_cli::render::{file_progress_line, progress_line, FileLineTracker};

#[test]
fn status_line_of_parts() {
    let mut agg = ProgressAggregator::new();
    agg.update(3, 512, 1024);
    let s = agg.update(1, 1024, 2048);
    assert_eq!(progress_line(&s), "[1.50KiB/3.00KiB] 1 3 \n");
}

#[test]
fn status_line_without_active_parts() {
    let mut agg = ProgressAggregator::new();
    let s = agg.update(0, 0, 0);
    assert_eq!(progress_line(&s), "[0.00B/0.00B] \n");
}

#[test]
fn status_line_of_file() {
    assert_eq!(file_progress_line("a.txt", 1536, 1048576), "[1.50KiB/1.00MiB] a.txt\n");
}

#[test]
fn new_line_only_when_file_changes() {
    let mut t = FileLineTracker::new();
    assert!(t.switch_to("a"));
    assert!(!t.switch_to("a"));
    assert!(t.switch_to("b"));
    assert!(!t.switch_to("b"));
    assert!(t.switch_to("a"));
}
