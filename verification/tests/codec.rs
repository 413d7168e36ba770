use build_progress::codec::{decode_trace, encode_trace};
use build_progress::store::load_trace;
use build_progress::trace::{Line, OutputData};
use build_progress::Error;

fn make_trace(entries: &[(&[u8], u64)], total: u64) -> OutputData {
    let mut lines = Vec::new();
    for (data, dur) in entries {
        lines.push(Line { data: data.to_vec(), dur: *dur });
    }
    OutputData { lines, total }
}

#[test]
fn canonical_bytes_of_a_small_trace() {
    let t = make_trace(&[(b"foo", 5)], 9);
    let bytes = encode_trace(&t);
    assert_eq!(bytes, b"bptrace 1\ntotal 9\n5 Zm9v\n".to_vec());
}

#[test]
fn base64_padding_variants_in_the_encoding() {
    let t = make_trace(&[(b"f", 1), (b"fo", 2), (b"foob", 3)], 10);
    let bytes = encode_trace(&t);
    assert_eq!(
        bytes,
        b"bptrace 1\ntotal 10\n1 Zg==\n2 Zm8=\n3 Zm9vYg==\n".to_vec()
    );
}

#[test]
fn round_trip_preserves_contents_durations_and_total() {
    let t = make_trace(
        &[(b"mkdir build", 310), (b"cc -o main main.c", 5890), (b"", 7)],
        6300,
    );
    let bytes = encode_trace(&t);
    let back = decode_trace(&bytes).expect("canonical bytes must parse");
    assert_eq!(back.total, t.total);
    assert_eq!(back.lines.len(), t.lines.len());
    for (orig, parsed) in t.lines.iter().zip(back.lines.iter()) {
        assert_eq!(parsed.data, orig.data);
        assert_eq!(parsed.dur, orig.dur);
    }
}

#[test]
fn round_trip_of_arbitrary_binary_content() {
    let blob: Vec<u8> = (0u16..=255).map(|b| b as u8).collect();
    let t = OutputData {
        lines: vec![Line { data: blob.clone(), dur: 1 }],
        total: 2,
    };
    let bytes = encode_trace(&t);
    let back = decode_trace(&bytes).expect("canonical bytes must parse");
    assert_eq!(back.lines[0].data, blob);
}

#[test]
fn empty_trace_round_trips() {
    let t = make_trace(&[], 0);
    let bytes = encode_trace(&t);
    assert_eq!(bytes, b"bptrace 1\ntotal 0\n".to_vec());
    let back = decode_trace(&bytes).expect("canonical bytes must parse");
    assert_eq!(back.lines.len(), 0);
    assert_eq!(back.total, 0);
}

#[test]
fn malformed_traces_are_corrupt() {
    let cases: &[&[u8]] = &[
        b"",
        b"not a trace at all",
        b"bptrace 2\ntotal 9\n",
        b"bptrace 1\ntotal x\n",
        b"bptrace 1\ntotal 09\n",
        b"bptrace 1\ntotal 9",
        b"bptrace 1\ntotal 9\n5 Zm9v",
        b"bptrace 1\ntotal 9\n5Zm9v\n",
        b"bptrace 1\ntotal 9\n5 Zm9!\n",
        b"bptrace 1\ntotal 9\n5 Zm9\n",
        b"bptrace 1\ntotal 99999999999999999999\n",
    ];
    for case in cases {
        assert!(
            matches!(decode_trace(&case.to_vec()), Err(Error::TraceCorrupt)),
            "bytes {:?} must be corrupt",
            case
        );
    }
}

#[test]
fn non_canonical_base64_padding_is_corrupt() {
    // "Zm9=" carries non-zero unused bits ("fo" encodes as "Zm8=")
    let bytes = b"bptrace 1\ntotal 9\n5 Zm9=\n".to_vec();
    assert!(matches!(decode_trace(&bytes), Err(Error::TraceCorrupt)));
}

#[test]
fn duplicate_contents_violate_the_trace_invariant() {
    let bytes = b"bptrace 1\ntotal 9\n1 Zm9v\n2 Zm9v\n".to_vec();
    assert!(matches!(decode_trace(&bytes), Err(Error::TraceCorrupt)));
}

#[test]
fn total_below_the_sum_of_durations_is_corrupt() {
    let bytes = b"bptrace 1\ntotal 3\n2 YQ==\n2 Yg==\n".to_vec();
    assert!(matches!(decode_trace(&bytes), Err(Error::TraceCorrupt)));
}

#[test]
fn total_may_exceed_the_sum_of_durations() {
    let bytes = b"bptrace 1\ntotal 100\n2 YQ==\n2 Yg==\n".to_vec();
    let t = decode_trace(&bytes).expect("trailing time is valid");
    assert_eq!(t.total, 100);
    assert_eq!(t.lines.len(), 2);
    assert_eq!(t.lines[0].data, b"a".to_vec());
    assert_eq!(t.lines[1].data, b"b".to_vec());
}

#[test]
fn absent_file_is_no_history_not_an_error() {
    assert!(matches!(load_trace(None), Ok(None)));
}

#[test]
fn stored_bytes_load_through_the_store() {
    let t = make_trace(&[(b"a", 1)], 4);
    let bytes = encode_trace(&t);
    match load_trace(Some(&bytes)) {
        Ok(Some(d)) => {
            assert_eq!(d.total, 4);
            assert_eq!(d.lines[0].data, b"a".to_vec());
        }
        other => panic!("expected a loaded trace, got {:?}", other.map(|_| ())),
    }
    assert_eq!(
        load_trace(Some(&b"garbage".to_vec())).map(|_| ()),
        Err(Error::TraceCorrupt)
    );
}
