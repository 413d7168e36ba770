use build_progress::diff::{CurrOutput, Writer};
use build_progress::trace::{Line, OutputData};

#[test]
fn records_distinct_lines_with_inter_line_durations() {
    let mut c = CurrOutput::new();
    c.write_line(b"first".to_vec(), 100);
    c.write_line(b"second".to_vec(), 250);
    c.write_line(b"third".to_vec(), 600);
    let t = c.finish(900);
    assert_eq!(t.total, 900);
    assert_eq!(t.lines.len(), 3);
    assert_eq!(t.lines[0].data, b"first".to_vec());
    assert_eq!(t.lines[0].dur, 100);
    assert_eq!(t.lines[1].data, b"second".to_vec());
    assert_eq!(t.lines[1].dur, 150);
    assert_eq!(t.lines[2].data, b"third".to_vec());
    assert_eq!(t.lines[2].dur, 350);
}

#[test]
fn repeated_content_is_dropped_from_the_persisted_trace() {
    let mut c = CurrOutput::new();
    c.write_line(b"loop".to_vec(), 100);
    c.write_line(b"once".to_vec(), 250);
    c.write_line(b"loop".to_vec(), 400);
    let t = c.finish(500);
    assert_eq!(t.lines.len(), 1);
    assert_eq!(t.lines[0].data, b"once".to_vec());
    assert_eq!(t.lines[0].dur, 150);
}

#[test]
fn duplicates_do_not_perturb_first_seen_timing() {
    let mut c = CurrOutput::new();
    c.write_line(b"a".to_vec(), 100);
    c.write_line(b"a".to_vec(), 900);
    c.write_line(b"b".to_vec(), 1000);
    let t = c.finish(1100);
    // "a" recurred, so only "b" survives; its duration counts from the
    // first occurrence of "a", not from the duplicate
    assert_eq!(t.lines.len(), 1);
    assert_eq!(t.lines[0].data, b"b".to_vec());
    assert_eq!(t.lines[0].dur, 900);
}

#[test]
fn failed_run_does_not_overwrite_known_good_history() {
    let prior = OutputData {
        lines: vec![Line { data: b"a".to_vec(), dur: 10 }],
        total: 10,
    };
    let mut w = Writer::new(Some(prior));
    w.write_line(b"a".to_vec(), 5);
    assert!(w.finish(false, 20).is_none());
    assert!(w.finish(true, 20).is_some());
}

#[test]
fn first_run_is_persisted_even_on_failure() {
    let mut w = Writer::new(None);
    w.write_line(b"a".to_vec(), 5);
    let t = w.finish(false, 20).expect("first run must persist");
    assert_eq!(t.total, 20);
    assert_eq!(t.lines.len(), 1);
    assert_eq!(t.lines[0].data, b"a".to_vec());
}
