use build_progress::codec::decode_trace;
use build_progress::output::Writer;
use build_progress::trace::{Line, OutputData};

fn prior() -> OutputData {
    OutputData {
        lines: vec![
            Line { data: b"configure".to_vec(), dur: 100 },
            Line { data: b"compile".to_vec(), dur: 200 },
            Line { data: b"link".to_vec(), dur: 300 },
        ],
        total: 600,
    }
}

#[test]
fn both_streams_advance_the_estimate() {
    let mut w = Writer::new(Some(prior()));
    assert_eq!(w.diff().len(), Some(600));
    let p1 = w.write_stdout(b"configure".to_vec(), 10);
    assert_eq!(p1, 100);
    // stderr lines interleave with stdout and count the same
    let p2 = w.write_stderr(b"compile".to_vec(), 20);
    assert_eq!(p2, 300);
    let p3 = w.write_stdout(b"link".to_vec(), 30);
    assert_eq!(p3, 600);
}

#[test]
fn successful_run_persists_a_parseable_trace() {
    let mut w = Writer::new(Some(prior()));
    w.write_stdout(b"configure".to_vec(), 100);
    w.write_stdout(b"compile".to_vec(), 350);
    let bytes = w.finish(true, 700).expect("a successful run persists");
    let t = decode_trace(&bytes).expect("persisted bytes must parse");
    assert_eq!(t.total, 700);
    assert_eq!(t.lines.len(), 2);
    assert_eq!(t.lines[0].data, b"configure".to_vec());
    assert_eq!(t.lines[0].dur, 100);
    assert_eq!(t.lines[1].data, b"compile".to_vec());
    assert_eq!(t.lines[1].dur, 250);
}

#[test]
fn failed_rerun_keeps_the_stored_trace() {
    let mut w = Writer::new(Some(prior()));
    w.write_stdout(b"configure".to_vec(), 100);
    assert!(w.finish(false, 200).is_none());
}
