use rust_data_server::ingestion::support_types::ProgressTracker as FileProgress;
use rust_data_server::util::{Ignorable, ProgressTracker};

#[test]
fn step_reports_once_per_interval() {
    let mut t = ProgressTracker::new(100, 10);
    assert_eq!(t.step(20), Some((20, 100)));
    assert_eq!(t.step(5), None);
    assert_eq!(t.step(5), Some((30, 100)));
    assert_eq!(t.step(9), None);
}

#[test]
fn first_report_counts_from_nine() {
    let mut t = ProgressTracker::new(1_000, 10);
    assert_eq!(t.step(18), None);
    assert_eq!(t.step(1), Some((19, 1_000)));
}

#[test]
fn advance_calls_back_with_progress() {
    let mut t = ProgressTracker::new(50, 10);
    let mut calls = Vec::new();
    t.advance(25, &mut |a, b| calls.push((a, b)));
    t.advance(3, &mut |a, b| calls.push((a, b)));
    t.advance(7, &mut |a, b| calls.push((a, b)));
    assert_eq!(calls, vec![(25, 50), (35, 50)]);
}

#[test]
fn file_progress_reports_after_ten_million_bytes() {
    let mut t = FileProgress::new(50_000_000);
    let mut calls = Vec::new();
    t.advance(10_000_000, &mut |a, b| calls.push((a, b)));
    assert!(calls.is_empty());
    t.advance(1, &mut |a, b| calls.push((a, b)));
    assert_eq!(calls, vec![(10_000_001, 50_000_000)]);
    t.advance(10_000_000, &mut |a, b| calls.push((a, b)));
    assert_eq!(calls.len(), 1);
    t.advance(8, &mut |a, b| calls.push((a, b)));
    assert_eq!(calls, vec![(10_000_001, 50_000_000), (20_000_009, 50_000_000)]);
}

#[test]
fn results_can_be_ignored() {
    let r: Result<u8, String> = Err("ignored".to_string());
    r.ignore();
    let r: Result<u8, ()> = Ok(1);
    r.ignore();
}

#[test]
fn file_progress_steps_past_ten_million_bytes() {
    let mut t = FileProgress::new(30_000_000);
    assert_eq!(t.step(10_000_000), None);
    assert_eq!(t.step(8), Some((10_000_008, 30_000_000)));
    assert_eq!(t.step(10_000_000), None);
    assert_eq!(t.step(1), Some((20_000_009, 30_000_000)));
}
