use packet_log::recorder::{Acceptance, IngestError, Recorder, SessionError, SessionRange};

#[test]
fn stop_when_idle_and_double_start() {
    let mut r = Recorder::new(120);
    assert_eq!(r.stop(), Err(SessionError::NotRecording));
    assert_eq!(r.start(), Ok(()));
    assert_eq!(r.start(), Err(SessionError::AlreadyRecording));
}

#[test]
fn empty_session_is_empty_result_not_error() {
    let mut r = Recorder::new(120);
    r.start().unwrap();
    let range = r.stop().unwrap();
    assert_eq!(range, SessionRange { start: 0, end: 0 });
    assert!(r.payload(range).is_none());
}

#[test]
fn duplicate_row_dropped_and_header_once() {
    let mut r = Recorder::new(120);
    r.start().unwrap();
    let a1 = r.ingest(b"t,v\n1,10\n2,20\n").unwrap();
    assert_eq!(a1, Acceptance { index: Some(0), at_capacity: false });
    let a2 = r.ingest(b"t,v\n2,20\n3,30\n").unwrap();
    assert_eq!(a2, Acceptance { index: Some(1), at_capacity: false });
    let range = r.stop().unwrap();
    assert_eq!(range, SessionRange { start: 0, end: 2 });
    let payload = r.payload(range).unwrap();
    assert_eq!(payload, b"t,v\n1,10\n2,20\n3,30\n".to_vec());
}

#[test]
fn third_packet_hits_the_cap() {
    let mut r = Recorder::new(2);
    r.start().unwrap();
    let a1 = r.ingest(b"t,v\n1,10\n").unwrap();
    assert_eq!(a1, Acceptance { index: Some(0), at_capacity: false });
    let a2 = r.ingest(b"t,v\n2,20\n").unwrap();
    assert_eq!(a2, Acceptance { index: Some(1), at_capacity: true });
    assert_eq!(r.ingest(b"t,v\n3,30\n"), Err(IngestError::BufferFull));
    assert_eq!(r.samples, 2);
}

#[test]
fn all_duplicate_packet_consumes_no_index() {
    let mut r = Recorder::new(120);
    r.start().unwrap();
    let a1 = r.ingest(b"t,v\n5,1\n").unwrap();
    assert_eq!(a1.index, Some(0));
    let a2 = r.ingest(b"t,v\n5,2\n4,3\n").unwrap();
    assert_eq!(a2, Acceptance { index: None, at_capacity: false });
    assert_eq!(r.cursors.write_cursor, 1);
    assert_eq!(r.samples, 1);
}

#[test]
fn new_session_accepts_an_old_timestamp() {
    let mut r = Recorder::new(120);
    r.start().unwrap();
    assert_eq!(r.ingest(b"t,v\n5,1\n").unwrap().index, Some(0));
    r.stop().unwrap();
    r.start().unwrap();
    assert_eq!(r.ingest(b"t,v\n5,2\n").unwrap().index, Some(1));
}

#[test]
fn invalid_bytes_are_rejected_without_state_change() {
    let mut r = Recorder::new(120);
    r.start().unwrap();
    assert_eq!(r.ingest(&[0xff, 0xfe, 0x20]), Err(IngestError::InvalidEncoding));
    assert_eq!(r.cursors.write_cursor, 0);
    assert_eq!(r.samples, 0);
}

#[test]
fn ingest_needs_an_active_session() {
    let mut r = Recorder::new(120);
    assert_eq!(r.ingest(b"t,v\n1,10\n"), Err(IngestError::NotRecording));
}

#[test]
fn header_only_and_empty_packets_are_not_stored() {
    let mut r = Recorder::new(120);
    r.start().unwrap();
    assert_eq!(r.ingest(b"t,v\n").unwrap().index, None);
    assert_eq!(r.ingest(b"").unwrap().index, None);
    assert_eq!(r.cursors.write_cursor, 0);
    assert_eq!(r.samples, 0);
}

#[test]
fn poll_delivers_packets_in_order_header_once() {
    let mut r = Recorder::new(120);
    r.start().unwrap();
    r.ingest(b"t,v\n1,10\n").unwrap();
    r.ingest(b"t,v\n2,20\n").unwrap();
    let p1 = r.poll().unwrap();
    assert_eq!(p1.body, b"t,v\n1,10\n".to_vec());
    assert!(!p1.complete);
    let p2 = r.poll().unwrap();
    assert_eq!(p2.body, b"2,20\n".to_vec());
    assert!(r.poll().is_none());
}

#[test]
fn poll_reports_the_capacity_marker() {
    let mut r = Recorder::new(1);
    r.start().unwrap();
    let a = r.ingest(b"t,v\n1,10\n").unwrap();
    assert!(a.at_capacity);
    let p = r.poll().unwrap();
    assert!(p.complete);
}

#[test]
fn poll_needs_an_active_session() {
    let mut r = Recorder::new(120);
    assert!(r.poll().is_none());
    r.start().unwrap();
    r.ingest(b"t,v\n1,10\n").unwrap();
    r.stop().unwrap();
    assert!(r.poll().is_none());
}

#[test]
fn master_record_keeps_one_header_across_sessions() {
    let mut r = Recorder::new(120);
    r.start().unwrap();
    r.ingest(b"t,v\n1,10\n").unwrap();
    r.stop().unwrap();
    r.start().unwrap();
    r.ingest(b"t,v\n2,20\n").unwrap();
    r.stop().unwrap();
    assert_eq!(r.master().as_slice(), b"t,v\n1,10\n2,20\n");
}

#[test]
fn rows_without_timestamps_pass_unfiltered() {
    let mut r = Recorder::new(120);
    r.start().unwrap();
    let a = r.ingest(b"h\nabc,1\nxyz\n").unwrap();
    assert_eq!(a.index, Some(0));
    // no ordering key was set, so any timestamp is still accepted
    let b = r.ingest(b"h\n1,1\n").unwrap();
    assert_eq!(b.index, Some(1));
    let range = r.stop().unwrap();
    let payload = r.payload(range).unwrap();
    assert_eq!(payload, b"h\nabc,1\nxyz\n1,1\n".to_vec());
}

#[test]
fn quoted_timestamps_deduplicate() {
    let mut r = Recorder::new(120);
    r.start().unwrap();
    assert_eq!(r.ingest(b"t,v\n\"1\",a\n").unwrap().index, Some(0));
    let a = r.ingest(b"t,v\n\"1\",b\n").unwrap();
    assert_eq!(a.index, None);
}

#[test]
fn carriage_returns_are_stripped() {
    let mut r = Recorder::new(120);
    r.start().unwrap();
    r.ingest(b"t,v\r\n1,10\r\n").unwrap();
    let range = r.stop().unwrap();
    assert_eq!(r.payload(range).unwrap(), b"t,v\n1,10\n".to_vec());
}

#[test]
fn decimal_and_negative_timestamps_order_correctly() {
    let mut r = Recorder::new(120);
    r.start().unwrap();
    r.ingest(b"t\n-2.5\n-1\n0.5\n0.50\n").unwrap();
    let range = r.stop().unwrap();
    // 0.50 equals 0.5 and is dropped as a duplicate
    assert_eq!(r.payload(range).unwrap(), b"t\n-2.5\n-1\n0.5\n".to_vec());
}

#[test]
fn session_payload_spans_only_the_session() {
    let mut r = Recorder::new(120);
    r.start().unwrap();
    r.ingest(b"t,v\n1,10\n").unwrap();
    r.stop().unwrap();
    r.start().unwrap();
    r.ingest(b"t,v\n2,20\n").unwrap();
    r.ingest(b"t,v\n3,30\n").unwrap();
    let range = r.stop().unwrap();
    assert_eq!(range, SessionRange { start: 1, end: 3 });
    assert_eq!(r.payload(range).unwrap(), b"t,v\n2,20\n3,30\n".to_vec());
}

#[test]
fn health_is_fixed() {
    assert_eq!(packet_log::health_response(), "OK");
}

#[test]
fn indices_increase_without_gaps() {
    let mut r = Recorder::new(120);
    r.start().unwrap();
    let i1 = r.ingest(b"t,v\n1,10\n").unwrap().index.unwrap();
    let i2 = r.ingest(b"t,v\n2,20\n").unwrap().index.unwrap();
    let i3 = r.ingest(b"t,v\n3,30\n").unwrap().index.unwrap();
    assert_eq!((i1, i2, i3), (0, 1, 2));
}

#[test]
fn read_cursor_never_passes_write_cursor() {
    let mut r = Recorder::new(120);
    assert!(r.cursors.read_cursor <= r.cursors.write_cursor);
    r.start().unwrap();
    assert!(r.cursors.read_cursor <= r.cursors.write_cursor);
    r.ingest(b"t,v\n1,10\n").unwrap();
    assert!(r.cursors.read_cursor <= r.cursors.write_cursor);
    r.poll().unwrap();
    assert!(r.cursors.read_cursor <= r.cursors.write_cursor);
    assert!(r.poll().is_none());
    assert!(r.cursors.read_cursor <= r.cursors.write_cursor);
    r.stop().unwrap();
    assert!(r.cursors.read_cursor <= r.cursors.write_cursor);
}

#[test]
fn start_resets_cursors_to_the_write_position() {
    let mut r = Recorder::new(120);
    r.start().unwrap();
    r.ingest(b"t,v\n1,10\n").unwrap();
    r.ingest(b"t,v\n2,20\n").unwrap();
    r.poll().unwrap();
    r.stop().unwrap();
    r.start().unwrap();
    assert_eq!(r.cursors.write_cursor, 2);
    assert_eq!(r.cursors.read_cursor, 2);
    assert_eq!(r.start_index, 2);
    // nothing of the old session is re-delivered
    assert!(r.poll().is_none());
}

#[test]
fn aggregated_payload_has_exactly_one_header_line() {
    let mut r = Recorder::new(120);
    r.start().unwrap();
    r.ingest(b"t,v\n1,10\n").unwrap();
    r.ingest(b"t,v\n2,20\n").unwrap();
    r.ingest(b"t,v\n3,30\n").unwrap();
    let range = r.stop().unwrap();
    let payload = String::from_utf8(r.payload(range).unwrap()).unwrap();
    let headers = payload.lines().filter(|l| *l == "t,v").count();
    assert_eq!(headers, 1);
}
