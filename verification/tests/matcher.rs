use build_progress::diff;
use build_progress::trace::{Line, OutputData};

fn make_trace(entries: &[(&[u8], u64)], total: u64) -> OutputData {
    let mut lines = Vec::new();
    for (data, dur) in entries {
        lines.push(Line { data: data.to_vec(), dur: *dur });
    }
    OutputData { lines, total }
}

fn feed(writer: &mut diff::Writer, lines: &[&[u8]]) -> Vec<u64> {
    let mut positions = Vec::new();
    let mut now = 0u64;
    for line in lines {
        now += 10;
        writer.write_line(line.to_vec(), now);
        positions.push(writer.completed());
    }
    positions
}

#[test]
fn no_history_reports_indeterminate() {
    let mut w = diff::Writer::new(None);
    assert_eq!(w.len(), None);
    assert_eq!(w.completed(), 0);
    feed(&mut w, &[b"alpha", b"beta"]);
    assert_eq!(w.len(), None);
    assert_eq!(w.completed(), 0);
}

#[test]
fn replay_identical_output_tracks_history() {
    let t = make_trace(&[(b"a", 100), (b"b", 200), (b"c", 300)], 600);
    let mut w = diff::Writer::new(Some(t));
    assert_eq!(w.len(), Some(600));
    let positions = feed(&mut w, &[b"a", b"b", b"c"]);
    assert_eq!(positions, vec![100, 300, 600]);
}

#[test]
fn replay_reaches_total_when_total_is_the_sum() {
    let t = make_trace(&[(b"x", 40), (b"y", 60)], 100);
    let mut w = diff::Writer::new(Some(t));
    let positions = feed(&mut w, &[b"x", b"y"]);
    assert_eq!(*positions.last().unwrap(), 100);
}

#[test]
fn unseen_line_stays_flat_then_jumps() {
    let t = make_trace(&[(b"a", 100), (b"b", 200), (b"c", 300)], 600);
    let mut w = diff::Writer::new(Some(t));
    let positions = feed(&mut w, &[b"a", b"never seen", b"b", b"c"]);
    assert_eq!(positions, vec![100, 100, 300, 600]);
}

#[test]
fn reversed_segment_never_decreases() {
    let t = make_trace(&[(b"a", 100), (b"b", 200), (b"c", 300), (b"d", 400)], 1000);
    let mut w = diff::Writer::new(Some(t));
    let positions = feed(&mut w, &[b"a", b"c", b"b", b"d"]);
    assert_eq!(positions, vec![100, 600, 600, 1000]);
    for pair in positions.windows(2) {
        assert!(pair[0] <= pair[1]);
    }
}

#[test]
fn duplicate_lines_do_not_change_the_final_estimate() {
    let t = make_trace(&[(b"a", 100), (b"b", 200), (b"c", 300)], 600);
    let mut with_dups = diff::Writer::new(Some(make_trace(
        &[(b"a", 100), (b"b", 200), (b"c", 300)],
        600,
    )));
    let mut without = diff::Writer::new(Some(t));
    let p1 = feed(&mut with_dups, &[b"a", b"a", b"b", b"a", b"c"]);
    let p2 = feed(&mut without, &[b"a", b"b", b"c"]);
    assert_eq!(p1.last(), p2.last());
}

#[test]
fn unmatched_lines_do_not_change_the_final_estimate() {
    let mut with_noise = diff::Writer::new(Some(make_trace(
        &[(b"a", 100), (b"b", 200)],
        300,
    )));
    let mut without = diff::Writer::new(Some(make_trace(
        &[(b"a", 100), (b"b", 200)],
        300,
    )));
    let p1 = feed(&mut with_noise, &[b"noise", b"a", b"hum", b"b", b"hiss"]);
    let p2 = feed(&mut without, &[b"a", b"b"]);
    assert_eq!(p1.last(), p2.last());
}

#[test]
fn trailing_time_keeps_estimate_below_total() {
    // the stored total may exceed the sum of the recorded durations
    let t = make_trace(&[(b"a", 100), (b"b", 200)], 450);
    let mut w = diff::Writer::new(Some(t));
    let positions = feed(&mut w, &[b"a", b"b"]);
    assert_eq!(*positions.last().unwrap(), 300);
    assert_eq!(w.len(), Some(450));
}

#[test]
fn progress_is_monotone_under_arbitrary_interleaving() {
    let t = make_trace(&[(b"a", 10), (b"b", 20), (b"c", 30), (b"d", 40)], 100);
    let mut w = diff::Writer::new(Some(t));
    let positions = feed(
        &mut w,
        &[b"c", b"a", b"z", b"d", b"b", b"c", b"q", b"a", b"d"],
    );
    for pair in positions.windows(2) {
        assert!(pair[0] <= pair[1]);
    }
}
