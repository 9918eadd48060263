use console_utf16::sink::{drain, write_all_u16s, DrainError, VecSink, WriteSink};
use console_utf16::transcode::{Rust, Windows};

#[test]
fn partial_write_retries_with_exact_suffix() {
    let units: Vec<u16> = "hello".encode_utf16().collect();
    let mut sink = VecSink::new(3);
    let first = sink.write(&units);
    assert_eq!(first, Some(3));
    assert_eq!(sink.data, units[..3].to_vec());
    let second = sink.write(&units[3..]);
    assert_eq!(second, Some(2));
    assert_eq!(sink.data, units);
}

#[test]
fn write_all_drives_partial_writes_to_completion() {
    let units: Vec<u16> = "partial writes".encode_utf16().collect();
    let mut sink = VecSink::new(1);
    assert!(write_all_u16s(&mut sink, &units));
    assert_eq!(sink.data, units);
}

#[test]
fn write_all_of_empty_slice_succeeds() {
    let mut sink = VecSink::new(4);
    assert!(write_all_u16s(&mut sink, &[]));
    assert!(sink.data.is_empty());
}

#[test]
fn write_failure_is_distinct_from_empty_success() {
    let mut failing = VecSink { data: Vec::new(), max_per_call: 8, fail: true };
    assert_eq!(failing.write(&[1, 2, 3]), None);
    assert!(failing.data.is_empty());
    let mut working = VecSink::new(8);
    assert_eq!(working.write(&[]), Some(0));
}

#[test]
fn drain_forwards_everything() {
    let text = "mixed ascii 与中文 and 😀";
    let expected: Vec<u16> = text.encode_utf16().collect();
    let mut sink = VecSink::new(5);
    assert_eq!(drain::<Rust, VecSink>(&mut sink, text.as_bytes(), 7), Ok(()));
    assert_eq!(sink.data, expected);
    let mut sink = VecSink::new(2);
    assert_eq!(drain::<Windows, VecSink>(&mut sink, text.as_bytes(), 4096), Ok(()));
    assert_eq!(sink.data, expected);
}

#[test]
fn drain_of_empty_input_succeeds() {
    let mut sink = VecSink { data: Vec::new(), max_per_call: 8, fail: true };
    assert_eq!(drain::<Rust, VecSink>(&mut sink, b"", 1), Ok(()));
    assert!(sink.data.is_empty());
    let mut sink = VecSink::new(8);
    assert!(write_all_u16s(&mut sink, &[]));
}

#[test]
fn zero_unit_quota_is_treated_as_one() {
    let mut sink = VecSink::new(0);
    assert_eq!(sink.write(&[5, 6]), Some(1));
    assert_eq!(sink.data, vec![5]);
}

#[test]
fn drain_reports_no_progress_for_tiny_capacity() {
    let mut sink = VecSink::new(8);
    let r = drain::<Rust, VecSink>(&mut sink, "😀".as_bytes(), 1);
    assert_eq!(r, Err(DrainError::NoProgress));
    assert!(sink.data.is_empty());
}

#[test]
fn drain_reports_write_failure() {
    let mut sink = VecSink { data: Vec::new(), max_per_call: 8, fail: true };
    let r = drain::<Rust, VecSink>(&mut sink, "abc".as_bytes(), 4096);
    assert_eq!(r, Err(DrainError::WriteFailed));
    assert!(sink.data.is_empty());
}
