use capture_supervisor::framing::{parse_stream, FrameEvent, StatusFramer, StreamError, MAX_LINE_LEN};

#[test]
fn status_lines_end_at_carriage_return() {
    let (records, err) = parse_stream(b"frame=1 fps=25\rfoo\nframe=2 fps=26\r");
    assert_eq!(err, None);
    assert_eq!(records.len(), 2);
    assert_eq!(records[0].frames, 1);
    assert_eq!(records[1].frames, 2);
}

#[test]
fn diagnostic_lines_are_dropped() {
    let (records, err) = parse_stream(b"frame=3 fps=25\nframe=4\n");
    assert_eq!(err, None);
    assert!(records.is_empty());
}

#[test]
fn unterminated_tail_is_not_delivered() {
    let (records, err) = parse_stream(b"frame=1\rframe=2");
    assert_eq!(err, None);
    assert_eq!(records.len(), 1);
    assert_eq!(records[0].frames, 1);
}

#[test]
fn empty_lines_and_plain_text_give_no_record() {
    let (records, err) = parse_stream(b"\r\r\n\rStream mapping:\r");
    assert_eq!(err, None);
    assert!(records.is_empty());
    let (records, err) = parse_stream(b"");
    assert_eq!(err, None);
    assert!(records.is_empty());
}

#[test]
fn overlong_line_breaks_the_stream() {
    let mut bytes: Vec<u8> = b"frame=8\r".to_vec();
    bytes.extend(std::iter::repeat(b'a').take(MAX_LINE_LEN + 1));
    bytes.extend_from_slice(b"\rframe=9\r");
    let (records, err) = parse_stream(&bytes);
    assert_eq!(err, Some(StreamError::LineTooLong));
    assert_eq!(records.len(), 1);
    assert_eq!(records[0].frames, 8);
}

#[test]
fn line_at_the_bound_is_still_parsed() {
    let mut bytes: Vec<u8> = b"frame=6".to_vec();
    bytes.extend(std::iter::repeat(b' ').take(MAX_LINE_LEN - 7));
    bytes.push(b'\r');
    let (records, err) = parse_stream(&bytes);
    assert_eq!(err, None);
    assert_eq!(records.len(), 1);
    assert_eq!(records[0].frames, 6);
}

#[test]
fn framer_reports_each_byte() {
    let mut f = StatusFramer::new();
    assert_eq!(f.push_byte(b'f'), FrameEvent::Pending);
    for b in b"rame=12".iter() {
        assert_eq!(f.push_byte(*b), FrameEvent::Pending);
    }
    match f.push_byte(b'\r') {
        FrameEvent::Record(st) => assert_eq!(st.frames, 12),
        other => panic!("unexpected {:?}", other),
    }
    assert_eq!(f.push_byte(b'\r'), FrameEvent::Pending);
}
