use smart_calendar::parser::{Event, IcsParser};

const JAN1_MIDNIGHT: i64 = 1704067200; // 2024-01-01T00:00:00Z

fn events_eq(a: &[Event], b: &[Event]) -> bool {
    if a.len() != b.len() {
        return false;
    }
    for (x, y) in a.iter().zip(b.iter()) {
        if x.summary != y.summary || x.start != y.start || x.end != y.end {
            return false;
        }
    }
    true
}

fn parse_whole(feed: &[u8]) -> Vec<Event> {
    let mut p = IcsParser::new(None, None);
    p.parse_ics_bytes(feed);
    p.get_events()
}

#[test]
fn end_to_end_three_chunks() {
    let mut p = IcsParser::new(None, None);
    p.parse_ics_chunk("BEGIN:VEVENT\nSUMMARY:Te");
    p.parse_ics_chunk("st\nDTSTART:20240101T0900");
    p.parse_ics_chunk("00Z\nDTEND:20240101T100000Z\nEND:VEVENT\n");
    let events = p.get_events();
    assert_eq!(events.len(), 1);
    assert_eq!(events[0].summary, "Test");
    assert_eq!(events[0].start, JAN1_MIDNIGHT + 9 * 3600);
    assert_eq!(events[0].end, JAN1_MIDNIGHT + 10 * 3600);
}

#[test]
fn chunk_boundary_invariance_every_offset() {
    let feed = "BEGIN:VEVENT\nSUMMARY:Caf\u{e9} \u{2615} caf\u{e8}\nDTSTART:20240101T090000Z\nDTEND:20240101T100000Z\nEND:VEVENT\n".as_bytes();
    let reference = parse_whole(feed);
    assert_eq!(reference.len(), 1);
    assert_eq!(reference[0].summary, "Caf\u{e9} \u{2615} caf\u{e8}");
    for cut in 0..=feed.len() {
        let mut p = IcsParser::new(None, None);
        p.parse_ics_bytes(&feed[..cut]);
        p.parse_ics_bytes(&feed[cut..]);
        let split_events = p.get_events();
        assert!(events_eq(&reference, &split_events), "differs at offset {}", cut);
    }
}

#[test]
fn text_and_byte_feeding_agree() {
    let feed = "BEGIN:VEVENT\nSUMMARY:One\nDTSTART:20240101T010000\nDTEND:20240101T020000\nEND:VEVENT\n";
    let mut a = IcsParser::new(None, None);
    a.parse_ics_chunk(feed);
    let mut b = IcsParser::new(None, None);
    b.parse_ics_bytes(feed.as_bytes());
    assert!(events_eq(&a.get_events(), &b.get_events()));
}

#[test]
fn malformed_block_dropped_siblings_kept() {
    let feed = "BEGIN:VEVENT\nSUMMARY:First\nDTSTART:20240101T010000\nDTEND:20240101T020000\nEND:VEVENT\n\
BEGIN:VEVENT\nSUMMARY:Broken\nDTSTART:20240102T010000\nEND:VEVENT\n\
BEGIN:VEVENT\nSUMMARY:Third\nDTSTART:20240103T010000\nDTEND:20240103T020000\nEND:VEVENT\n";
    let events = parse_whole(feed.as_bytes());
    assert_eq!(events.len(), 2);
    let titles: Vec<&str> = events.iter().map(|e| e.summary.as_str()).collect();
    assert!(titles.contains(&"First"));
    assert!(titles.contains(&"Third"));
    assert!(!titles.contains(&"Broken"));
}

#[test]
fn window_overlap_filter() {
    // window: Jan 2 00:00 .. Jan 3 00:00 (UTC)
    let w0 = JAN1_MIDNIGHT + 86400;
    let w1 = JAN1_MIDNIGHT + 2 * 86400;
    let feed = "BEGIN:VEVENT\nSUMMARY:Before\nDTSTART:20240101T010000\nDTEND:20240101T020000\nEND:VEVENT\n\
BEGIN:VEVENT\nSUMMARY:SpansStart\nDTSTART:20240101T230000\nDTEND:20240102T010000\nEND:VEVENT\n\
BEGIN:VEVENT\nSUMMARY:Inside\nDTSTART:20240102T100000\nDTEND:20240102T110000\nEND:VEVENT\n\
BEGIN:VEVENT\nSUMMARY:SpansEnd\nDTSTART:20240102T230000\nDTEND:20240103T010000\nEND:VEVENT\n\
BEGIN:VEVENT\nSUMMARY:After\nDTSTART:20240103T010000\nDTEND:20240103T020000\nEND:VEVENT\n";
    let mut p = IcsParser::new(Some(w0), Some(w1));
    p.parse_ics_bytes(feed.as_bytes());
    let events = p.get_events();
    let titles: Vec<&str> = events.iter().map(|e| e.summary.as_str()).collect();
    assert!(titles.contains(&"SpansStart"));
    assert!(titles.contains(&"Inside"));
    assert!(!titles.contains(&"Before"));
    assert!(!titles.contains(&"After"));
    // the event starting exactly at the window's end instant still overlaps
    assert!(titles.contains(&"SpansEnd"));
    assert_eq!(events.len(), 3);
    for e in &events {
        assert!(e.start <= w1 && e.end >= w0);
    }
}

#[test]
fn half_open_window_keeps_everything() {
    let feed = "BEGIN:VEVENT\nSUMMARY:A\nDTSTART:20240101T010000\nDTEND:20240101T020000\nEND:VEVENT\n";
    let mut p = IcsParser::new(Some(0), None);
    p.parse_ics_bytes(feed.as_bytes());
    assert_eq!(p.get_events().len(), 1);
}

#[test]
fn ordering_descending_by_start() {
    let feed = "BEGIN:VEVENT\nSUMMARY:B\nDTSTART:20240102T000000\nDTEND:20240102T010000\nEND:VEVENT\n\
BEGIN:VEVENT\nSUMMARY:D\nDTSTART:20240104T000000\nDTEND:20240104T010000\nEND:VEVENT\n\
BEGIN:VEVENT\nSUMMARY:A\nDTSTART:20240101T000000\nDTEND:20240101T010000\nEND:VEVENT\n\
BEGIN:VEVENT\nSUMMARY:C\nDTSTART:20240103T000000\nDTEND:20240103T010000\nEND:VEVENT\n";
    let events = parse_whole(feed.as_bytes());
    assert_eq!(events.len(), 4);
    for pair in events.windows(2) {
        assert!(pair[0].start >= pair[1].start);
    }
    let titles: Vec<&str> = events.iter().map(|e| e.summary.as_str()).collect();
    assert_eq!(titles, vec!["D", "C", "B", "A"]);
}

#[test]
fn empty_and_garbage_feeds_yield_nothing() {
    assert_eq!(parse_whole(b"").len(), 0);
    assert_eq!(parse_whole(b"random text\nwith lines\nEND:VEVENT\n").len(), 0);
    assert_eq!(parse_whole(b"BEGIN:VEVENT\nSUMMARY:NoTimes\nEND:VEVENT\n").len(), 0);
}

#[test]
fn crlf_lines_are_handled() {
    let feed = "BEGIN:VEVENT\r\nSUMMARY:Windows\r\nDTSTART:20240101T090000Z\r\nDTEND:20240101T100000Z\r\nEND:VEVENT\r\n";
    let events = parse_whole(feed.as_bytes());
    assert_eq!(events.len(), 1);
    assert_eq!(events[0].summary, "Windows");
}

#[test]
fn summary_resets_on_new_block() {
    let feed = "BEGIN:VEVENT\nSUMMARY:Old\nEND:VEVENT\n\
BEGIN:VEVENT\nDTSTART:20240101T010000\nDTEND:20240101T020000\nEND:VEVENT\n";
    let events = parse_whole(feed.as_bytes());
    assert_eq!(events.len(), 1);
    assert_eq!(events[0].summary, "");
}

#[test]
fn undecodable_tail_is_retained_not_dropped() {
    // a three-byte character split between two chunks
    let feed = "BEGIN:VEVENT\nSUMMARY:\u{2615}\nDTSTART:20240101T010000\nDTEND:20240101T020000\nEND:VEVENT\n".as_bytes();
    let cup = "\u{2615}".as_bytes();
    let pos = feed.windows(cup.len()).position(|w| w == cup).unwrap();
    let mut p = IcsParser::new(None, None);
    p.parse_ics_bytes(&feed[..pos + 1]);
    p.parse_ics_bytes(&feed[pos + 1..pos + 2]);
    p.parse_ics_bytes(&feed[pos + 2..]);
    let events = p.get_events();
    assert_eq!(events.len(), 1);
    assert_eq!(events[0].summary, "\u{2615}");
}

#[test]
fn invalid_bytes_never_panic() {
    let mut p = IcsParser::new(None, None);
    p.parse_ics_bytes(b"BEGIN:VEVENT\nSUMMARY:Ok\nDTSTART:20240101T010000\nDTEND:20240101T020000\nEND:VEVENT\n");
    p.parse_ics_bytes(&[0xff, 0xfe, 0x41]);
    p.parse_ics_bytes(b"more bytes after garbage\n");
    let events = p.get_events();
    assert_eq!(events.len(), 1);
    assert_eq!(events[0].summary, "Ok");
}

#[test]
fn status_gate() {
    assert!(smart_calendar::status_authorizes_feed(200));
    assert!(smart_calendar::status_authorizes_feed(299));
    assert!(!smart_calendar::status_authorizes_feed(199));
    assert!(!smart_calendar::status_authorizes_feed(300));
    assert!(!smart_calendar::status_authorizes_feed(404));
}
