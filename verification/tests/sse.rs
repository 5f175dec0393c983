use opencode_telegram_bot::sse::SseBuffer;

#[test]
fn sse_event_with_type_and_data() {
    let mut b = SseBuffer::new();
    b.push_str("event: message\ndata: {\"a\":1}\n\n");
    let e = b.try_parse_event().unwrap();
    assert_eq!(e.event_type, "message");
    assert_eq!(e.data, "{\"a\":1}");
    assert!(b.try_parse_event().is_none());
}

#[test]
fn sse_incomplete_event_waits() {
    let mut b = SseBuffer::new();
    b.push_str("data: x\n");
    assert!(b.try_parse_event().is_none());
    b.push_str("data: y\n\nrest");
    let e = b.try_parse_event().unwrap();
    assert_eq!(e.event_type, "");
    assert_eq!(e.data, "x\ny");
    assert!(b.try_parse_event().is_none());
    b.push_str("\n\n");
    assert!(b.try_parse_event().is_none());
}

#[test]
fn sse_comment_block_is_dropped() {
    let mut b = SseBuffer::new();
    b.push_str(": ping\n\ndata: 1\n\n");
    assert!(b.try_parse_event().is_none());
    let e = b.try_parse_event().unwrap();
    assert_eq!(e.data, "1");
}

#[test]
fn sse_carriage_returns_and_last_type_wins() {
    let mut b = SseBuffer::new();
    b.push_str("event: a\r\nevent: b\r\ndata:  x \r\n\n");
    let e = b.try_parse_event().unwrap();
    assert_eq!(e.event_type, "b");
    assert_eq!(e.data, "x");
}

#[test]
fn sse_events_read_back_in_order() {
    let mut b = SseBuffer::new();
    b.push_str("data: {\"type\":\"session.idle\"}\n\nevent: ping\ndata: \n\n");
    let first = b.try_parse_event().unwrap();
    assert_eq!((first.event_type.as_str(), first.data.as_str()), ("", "{\"type\":\"session.idle\"}"));
    let second = b.try_parse_event().unwrap();
    assert_eq!((second.event_type.as_str(), second.data.as_str()), ("ping", ""));
    assert!(b.try_parse_event().is_none());
}
