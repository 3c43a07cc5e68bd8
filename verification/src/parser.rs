//! Streaming ICS ingestion session: a parser is created once per feed
//! download, fed chunks (raw bytes or decoded text) repeatedly, and consumed
//! once to yield the finished, filtered, ordered event list.
//!
//! The abstract model is a state machine over byte sequences: chunks join a
//! pending undecoded tail, decoded text joins an unterminated-line buffer,
//! complete lines are dispatched exactly once, and `VEVENT` blocks with both
//! instants resolved become events.

use vstd::prelude::*;
use vstd::utf8::{decode_utf8, encode_utf8, valid_utf8};

use crate::assemble::{
    lemma_utf8_prefix_len_concat, lemma_utf8_prefix_len_props, lemma_valid_utf8_cut_ascii,
    lemma_valid_utf8_drop_ascii_prefix, string_from_utf8, utf8_prefix, utf8_prefix_len,
};
use crate::bytes::{
    find_byte, find_byte_x, lemma_find_byte, lemma_find_byte_concat, starts_with, starts_with_x,
};
use crate::datetime::{opt_as_int, parse_datetime, spec_parse_datetime};

verus! {

/// A finished calendar event: title text and resolved UTC start and end
/// instants (epoch seconds). Immutable once constructed.
#[derive(Debug, Clone)]
pub struct Event {
    pub summary: String,
    pub start: i64,
    pub end: i64,
}

/// Mathematical view of a finished event.
#[verifier::ext_equal]
pub struct EventView {
    pub summary: Seq<char>,
    pub start: int,
    pub end: int,
}

impl View for Event {
    type V = EventView;

    open spec fn view(&self) -> EventView {
        EventView { summary: self.summary@, start: self.start as int, end: self.end as int }
    }
}

/// The views of a sequence of events.
pub open spec fn views_of(s: Seq<Event>) -> Seq<EventView> {
    s.map_values(|e: Event| e@)
}

pub open spec fn tag_begin() -> Seq<u8> {
    encode_utf8("BEGIN:VEVENT"@)
}

pub open spec fn tag_summary() -> Seq<u8> {
    encode_utf8("SUMMARY:"@)
}

pub open spec fn tag_dtstart() -> Seq<u8> {
    encode_utf8("DTSTART"@)
}

pub open spec fn tag_dtend() -> Seq<u8> {
    encode_utf8("DTEND"@)
}

pub open spec fn tag_end() -> Seq<u8> {
    encode_utf8("END:VEVENT"@)
}

/// Scanner state: the in-progress accumulator, the optional date window, and
/// the grown result collection.
#[verifier::ext_equal]
pub struct ScanState {
    pub summary: Seq<char>,
    pub start: Option<int>,
    pub end: Option<int>,
    pub start_date: Option<int>,
    pub end_date: Option<int>,
    pub events: Seq<EventView>,
}

/// Whether an event span is kept by the session's window: with no complete
/// window every event is kept; with a window `[w0, w1]` the event is kept
/// exactly when its span overlaps the window.
pub open spec fn in_window(m: ScanState, st: int, en: int) -> bool {
    match (m.start_date, m.end_date) {
        (Some(w0), Some(w1)) => st <= w1 && en >= w0,
        _ => true,
    }
}

/// A line with one trailing carriage return removed, so that CRLF-delimited
/// feeds dispatch the same as LF-delimited ones.
pub open spec fn strip_cr(line: Seq<u8>) -> Seq<u8> {
    if line.len() > 0 && line.last() == 13 {
        line.drop_last()
    } else {
        line
    }
}

/// Dispatch of one complete logical line, by prefix, first match wins.
pub open spec fn dispatch_line(m: ScanState, raw: Seq<u8>) -> ScanState {
    let line = strip_cr(raw);
    if starts_with(line, tag_begin()) {
        ScanState { summary: Seq::empty(), start: None, end: None, ..m }
    } else if starts_with(line, tag_summary()) {
        ScanState {
            summary: decode_utf8(line.subrange(tag_summary().len() as int, line.len() as int)),
            ..m
        }
    } else if starts_with(line, tag_dtstart()) {
        ScanState { start: spec_parse_datetime(line), ..m }
    } else if starts_with(line, tag_dtend()) {
        ScanState { end: spec_parse_datetime(line), ..m }
    } else if starts_with(line, tag_end()) {
        let cleared = ScanState { summary: Seq::empty(), start: None, end: None, ..m };
        match (m.start, m.end) {
            (Some(st), Some(en)) => if in_window(m, st, en) {
                ScanState {
                    events: m.events.push(EventView { summary: m.summary, start: st, end: en }),
                    ..cleared
                }
            } else {
                cleared
            },
            _ => cleared,
        }
    } else {
        m
    }
}

/// The line scanner: every `\n`-terminated line of `buf` is dispatched in
/// order; what remains (the unterminated tail) is the new leftover buffer.
pub open spec fn scan_text(m: ScanState, buf: Seq<u8>) -> (ScanState, Seq<u8>)
    decreases buf.len(),
{
    let k = find_byte(buf, 10);
    if 0 <= k < buf.len() {
        scan_text(dispatch_line(m, buf.subrange(0, k)), buf.subrange(k + 1, buf.len() as int))
    } else {
        (m, buf)
    }
}

/// The whole session state: scanner state, unterminated-line buffer, and the
/// undecodable byte tail retained by the chunk assembler.
#[verifier::ext_equal]
pub struct ParserView {
    pub scan: ScanState,
    pub leftover: Seq<u8>,
    pub pending: Seq<u8>,
}

/// Feeding decoded text: it joins the leftover buffer and complete lines are
/// scanned off.
pub open spec fn feed_text(m: ParserView, t: Seq<u8>) -> ParserView {
    let r = scan_text(m.scan, m.leftover + t);
    ParserView { scan: r.0, leftover: r.1, pending: m.pending }
}

/// Feeding raw bytes: they join the pending tail, the longest decodable
/// UTF-8 prefix is forwarded as text, and the undecodable tail is retained.
pub open spec fn feed_bytes(m: ParserView, b: Seq<u8>) -> ParserView {
    let c = m.pending + b;
    let p = utf8_prefix_len(c);
    let r = scan_text(m.scan, m.leftover + c.subrange(0, p));
    ParserView { scan: r.0, leftover: r.1, pending: c.subrange(p, c.len() as int) }
}

/// Scanning a buffer and then more text equals scanning the concatenation:
/// a complete line is dispatched the same way wherever the buffer boundary
/// fell.
pub proof fn lemma_scan_text_concat(m: ScanState, a: Seq<u8>, b: Seq<u8>)
    ensures
        scan_text(m, a + b) == ({
            let r1 = scan_text(m, a);
            scan_text(r1.0, r1.1 + b)
        }),
    decreases a.len(),
{
    let k = find_byte(a, 10);
    lemma_find_byte(a, 10);
    lemma_find_byte_concat(a, b, 10);
    if k < a.len() {
        assert((a + b).subrange(0, k) =~= a.subrange(0, k));
        assert((a + b).subrange(k + 1, (a + b).len() as int) =~= a.subrange(
            k + 1,
            a.len() as int,
        ) + b);
        lemma_scan_text_concat(dispatch_line(m, a.subrange(0, k)), a.subrange(k + 1, a.len() as int), b);
    } else {
        assert(scan_text(m, a) == (m, a));
    }
}

/// Chunk-boundary invariance for decoded text: feeding two chunks one after
/// the other leaves the session exactly as feeding their concatenation.
pub proof fn lemma_feed_text_concat(m: ParserView, a: Seq<u8>, b: Seq<u8>)
    ensures
        feed_text(feed_text(m, a), b) == feed_text(m, a + b),
{
    lemma_scan_text_concat(m.scan, m.leftover + a, b);
    assert((m.leftover + a) + b =~= m.leftover + (a + b));
    assert(feed_text(feed_text(m, a), b) =~= feed_text(m, a + b));
}

/// Chunk-boundary invariance for raw bytes: feeding two byte chunks one
/// after the other leaves the session exactly as feeding their
/// concatenation, even when the boundary falls inside a multi-byte
/// character.
pub proof fn lemma_feed_bytes_concat(m: ParserView, a: Seq<u8>, b: Seq<u8>)
    ensures
        feed_bytes(feed_bytes(m, a), b) == feed_bytes(m, a + b),
{
    let c1 = m.pending + a;
    let p1 = utf8_prefix_len(c1);
    lemma_utf8_prefix_len_props(c1);
    let t1 = c1.subrange(0, p1);
    let q1 = c1.subrange(p1, c1.len() as int);
    let m1 = feed_bytes(m, a);
    let c2 = q1 + b;
    let p2 = utf8_prefix_len(c2);
    lemma_utf8_prefix_len_props(c2);
    let t2 = c2.subrange(0, p2);

    let c = m.pending + (a + b);
    assert(c =~= c1 + b);
    lemma_utf8_prefix_len_concat(c1, b);
    let p = utf8_prefix_len(c);
    assert(p == p1 + p2);
    assert(c.subrange(0, p) =~= t1 + t2);
    assert(c.subrange(p, c.len() as int) =~= c2.subrange(p2, c2.len() as int));

    lemma_scan_text_concat(m.scan, m.leftover + t1, t2);
    assert((m.leftover + t1) + t2 =~= m.leftover + (t1 + t2));
    assert(feed_bytes(feed_bytes(m, a), b) =~= feed_bytes(m, a + b));
}

/// A `VEVENT` block closed without a resolved start or end contributes
/// nothing: dispatching its terminator leaves the collected events
/// untouched (the accumulator is simply reset).
pub proof fn lemma_malformed_block_dropped(m: ScanState, raw: Seq<u8>)
    requires
        starts_with(strip_cr(raw), tag_end()),
        m.start is None || m.end is None,
    ensures
        dispatch_line(m, raw).events == m.events,
        dispatch_line(m, raw).start_date == m.start_date,
        dispatch_line(m, raw).end_date == m.end_date,
{
    let line = strip_cr(raw);
    lemma_tags_distinct(line);
}

/// A line that begins with the block terminator matches no earlier tag of
/// the dispatch order.
proof fn lemma_tags_distinct(line: Seq<u8>)
    requires
        starts_with(line, tag_end()),
    ensures
        !starts_with(line, tag_begin()),
        !starts_with(line, tag_summary()),
        !starts_with(line, tag_dtstart()),
        !starts_with(line, tag_dtend()),
{
    broadcast use vstd::utf8::is_ascii_chars_encode_utf8;

    reveal_strlit("END:VEVENT");
    reveal_strlit("BEGIN:VEVENT");
    reveal_strlit("SUMMARY:");
    reveal_strlit("DTSTART");
    reveal_strlit("DTEND");
    assert(vstd::utf8::is_ascii_chars("END:VEVENT"@));
    assert(vstd::utf8::is_ascii_chars("BEGIN:VEVENT"@));
    assert(vstd::utf8::is_ascii_chars("SUMMARY:"@));
    assert(vstd::utf8::is_ascii_chars("DTSTART"@));
    assert(vstd::utf8::is_ascii_chars("DTEND"@));
    assert(line[0] == tag_end()[0]);
    assert(tag_end()[0] == 'E' as u8);
    assert(tag_begin()[0] == 'B' as u8);
    assert(tag_summary()[0] == 'S' as u8);
    assert(tag_dtstart()[0] == 'D' as u8);
    assert(tag_dtend()[0] == 'D' as u8);
}

/// Completeness: a dispatched line materializes a new event only when both
/// of the accumulator's instants resolved, and the event carries exactly the
/// accumulated title and those two instants — no event with a missing field
/// can ever appear.
pub proof fn lemma_event_needs_both_instants(m: ScanState, raw: Seq<u8>)
    ensures
        dispatch_line(m, raw).events.len() > m.events.len() ==> {
            &&& m.start is Some
            &&& m.end is Some
            &&& dispatch_line(m, raw).events == m.events.push(
                EventView { summary: m.summary, start: m.start->0, end: m.end->0 },
            )
        },
{
}

/// Collected events satisfy the window filter: with a complete window, every
/// event's span overlaps it.
pub open spec fn events_in_window(m: ScanState) -> bool {
    forall|i: int|
        0 <= i < m.events.len() ==> in_window(m, #[trigger] m.events[i].start, m.events[i].end)
}

/// One dispatched line preserves the window-filter invariant and the window
/// itself, and never removes a collected event.
pub proof fn lemma_dispatch_line_invariants(m: ScanState, raw: Seq<u8>)
    requires
        events_in_window(m),
    ensures
        events_in_window(dispatch_line(m, raw)),
        dispatch_line(m, raw).start_date == m.start_date,
        dispatch_line(m, raw).end_date == m.end_date,
        m.events.is_prefix_of(dispatch_line(m, raw).events),
{
    assert(m.events.is_prefix_of(m.events));
    let m2 = dispatch_line(m, raw);
    if m2.events.len() > m.events.len() {
        assert(m.events.is_prefix_of(m2.events));
    }
}

/// Scanning preserves the window-filter invariant and the window, and only
/// ever appends to the collected events.
pub proof fn lemma_scan_text_invariants(m: ScanState, buf: Seq<u8>)
    requires
        events_in_window(m),
    ensures
        events_in_window(scan_text(m, buf).0),
        scan_text(m, buf).0.start_date == m.start_date,
        scan_text(m, buf).0.end_date == m.end_date,
        m.events.is_prefix_of(scan_text(m, buf).0.events),
    decreases buf.len(),
{
    let k = find_byte(buf, 10);
    lemma_find_byte(buf, 10);
    if 0 <= k < buf.len() {
        let m2 = dispatch_line(m, buf.subrange(0, k));
        lemma_dispatch_line_invariants(m, buf.subrange(0, k));
        lemma_scan_text_invariants(m2, buf.subrange(k + 1, buf.len() as int));
        assert(m.events.is_prefix_of(scan_text(m, buf).0.events)) by {
            lemma_prefix_trans(m.events, m2.events, scan_text(m, buf).0.events);
        }
    }
}

/// Feeding never removes or rewrites a collected event (the collection only
/// grows), never changes the window, and keeps every collected event inside
/// the window.
pub proof fn lemma_feed_bytes_monotone(m: ParserView, b: Seq<u8>)
    requires
        events_in_window(m.scan),
    ensures
        events_in_window(feed_bytes(m, b).scan),
        m.scan.events.is_prefix_of(feed_bytes(m, b).scan.events),
        feed_bytes(m, b).scan.start_date == m.scan.start_date,
        feed_bytes(m, b).scan.end_date == m.scan.end_date,
{
    let c = m.pending + b;
    lemma_scan_text_invariants(m.scan, m.leftover + c.subrange(0, utf8_prefix_len(c)));
}

/// The same, for decoded-text feeding.
pub proof fn lemma_feed_text_monotone(m: ParserView, t: Seq<u8>)
    requires
        events_in_window(m.scan),
    ensures
        events_in_window(feed_text(m, t).scan),
        m.scan.events.is_prefix_of(feed_text(m, t).scan.events),
        feed_text(m, t).scan.start_date == m.scan.start_date,
        feed_text(m, t).scan.end_date == m.scan.end_date,
{
    lemma_scan_text_invariants(m.scan, m.leftover + t);
}

proof fn lemma_prefix_trans(a: Seq<EventView>, b: Seq<EventView>, c: Seq<EventView>)
    requires
        a.is_prefix_of(b),
        b.is_prefix_of(c),
    ensures
        a.is_prefix_of(c),
{
    assert(a =~= c.subrange(0, a.len() as int));
}

} // verus!

use vstd::slice::{slice_subrange, slice_to_vec};

verus! {

/// A streaming ICS parser session. Create one per feed download, feed it
/// chunks, then consume it once with [`IcsParser::get_events`].
pub struct IcsParser {
    summary: String,
    start: Option<i64>,
    end: Option<i64>,
    start_date: Option<i64>,
    end_date: Option<i64>,
    leftover: Vec<u8>,
    pending: Vec<u8>,
    events: Vec<Event>,
}

impl View for IcsParser {
    type V = ParserView;

    closed spec fn view(&self) -> ParserView {
        ParserView {
            scan: ScanState {
                summary: self.summary@,
                start: opt_as_int(self.start),
                end: opt_as_int(self.end),
                start_date: opt_as_int(self.start_date),
                end_date: opt_as_int(self.end_date),
                events: views_of(self.events@),
            },
            leftover: self.leftover@,
            pending: self.pending@,
        }
    }
}

impl IcsParser {
    /// Session well-formedness: the leftover buffer is valid text holding at
    /// most one unterminated line, and every collected event passed the
    /// window filter.
    pub open spec fn wf(&self) -> bool {
        &&& valid_utf8(self@.leftover)
        &&& find_byte(self@.leftover, 10) == self@.leftover.len()
        &&& events_in_window(self@.scan)
    }

    /// A fresh session. The window filter applies only when both bounds are
    /// given.
    pub fn new(start_date: Option<i64>, end_date: Option<i64>) -> (r: IcsParser)
        ensures
            r.wf(),
            r@.scan.summary == Seq::<char>::empty(),
            r@.scan.start is None,
            r@.scan.end is None,
            r@.scan.start_date == opt_as_int(start_date),
            r@.scan.end_date == opt_as_int(end_date),
            r@.scan.events == Seq::<EventView>::empty(),
            r@.leftover == Seq::<u8>::empty(),
            r@.pending == Seq::<u8>::empty(),
    {
        let r = IcsParser {
            summary: String::new(),
            start: None,
            end: None,
            start_date,
            end_date,
            leftover: Vec::new(),
            pending: Vec::new(),
            events: Vec::new(),
        };
        proof {
            assert(r@.scan.events =~= Seq::<EventView>::empty());
            assert(find_byte(r@.leftover, 10) == 0);
        }
        r
    }

    /// Dispatches one complete raw line.
    fn dispatch(&mut self, raw: &[u8])
        requires
            valid_utf8(raw@),
            events_in_window(old(self)@.scan),
        ensures
            final(self)@.scan == dispatch_line(old(self)@.scan, raw@),
            final(self)@.leftover == old(self)@.leftover,
            final(self)@.pending == old(self)@.pending,
            events_in_window(final(self)@.scan),
    {
        let ghost m0 = self@.scan;
        let n = raw.len();
        let line: &[u8] = if n > 0 && raw[n - 1] == 13 {
            proof {
                lemma_valid_utf8_cut_ascii(raw@, n - 1);
                assert(raw@.subrange(0, n - 1) =~= raw@.drop_last());
            }
            slice_subrange(raw, 0, n - 1)
        } else {
            raw
        };
        proof {
            assert(line@ == strip_cr(raw@));
            assert(valid_utf8(line@));
        }
        if starts_with_x(line, "BEGIN:VEVENT".as_bytes()) {
            self.summary = String::new();
            self.start = None;
            self.end = None;
            proof {
                assert(self@.scan =~= dispatch_line(m0, raw@));
            }
        } else if starts_with_x(line, "SUMMARY:".as_bytes()) {
            let pat = "SUMMARY:".as_bytes();
            proof {
                broadcast use vstd::utf8::is_ascii_chars_encode_utf8;
                broadcast use vstd::utf8::is_ascii_chars_nat_bound;

                reveal_strlit("SUMMARY:");
                assert(vstd::utf8::is_ascii_chars("SUMMARY:"@));
                assert forall|i: int| 0 <= i < tag_summary().len() implies line@[i] < 0x80 by {
                    assert(line@.subrange(0, tag_summary().len() as int)[i] == line@[i]);
                    assert(("SUMMARY:"@[i] as nat) < 128);
                }
                lemma_valid_utf8_drop_ascii_prefix(line@, tag_summary().len() as int);
            }
            let rest = slice_to_vec(slice_subrange(line, pat.len(), line.len()));
            self.summary = string_from_utf8(rest);
            proof {
                assert(self@.scan =~= dispatch_line(m0, raw@));
            }
        } else if starts_with_x(line, "DTSTART".as_bytes()) {
            self.start = parse_datetime(line);
            proof {
                assert(self@.scan =~= dispatch_line(m0, raw@));
            }
        } else if starts_with_x(line, "DTEND".as_bytes()) {
            self.end = parse_datetime(line);
            proof {
                assert(self@.scan =~= dispatch_line(m0, raw@));
            }
        } else if starts_with_x(line, "END:VEVENT".as_bytes()) {
            if let (Some(st), Some(en)) = (self.start, self.end) {
                let keep = match (self.start_date, self.end_date) {
                    (Some(w0), Some(w1)) => st <= w1 && en >= w0,
                    _ => true,
                };
                if keep {
                    let ev = Event { summary: self.summary.clone(), start: st, end: en };
                    let ghost evv = ev@;
                    self.events.push(ev);
                    proof {
                        assert(views_of(self.events@) =~= m0.events.push(evv));
                    }
                }
            }
            self.summary = String::new();
            self.start = None;
            self.end = None;
            proof {
                assert(self@.scan =~= dispatch_line(m0, raw@));
            }
        } else {
            proof {
                assert(self@.scan =~= dispatch_line(m0, raw@));
            }
        }
        proof {
            lemma_dispatch_line_invariants(m0, raw@);
        }
    }

    /// Feeds decoded text to the line scanner.
    fn scan_append(&mut self, t: &[u8])
        requires
            old(self).wf(),
            valid_utf8(t@),
        ensures
            final(self).wf(),
            final(self)@ == feed_text(old(self)@, t@),
    {
        let ghost m0 = self@;
        proof {
            vstd::utf8::valid_utf8_concat(m0.leftover, t@);
        }
        let mut tv = slice_to_vec(t);
        self.leftover.append(&mut tv);
        loop
            invariant
                valid_utf8(self.leftover@),
                events_in_window(self@.scan),
                self@.pending == m0.pending,
                scan_text(m0.scan, m0.leftover + t@) == scan_text(self@.scan, self.leftover@),
            ensures
                valid_utf8(self.leftover@),
                events_in_window(self@.scan),
                self@.pending == m0.pending,
                scan_text(m0.scan, m0.leftover + t@) == scan_text(self@.scan, self.leftover@),
                find_byte(self.leftover@, 10) == self.leftover@.len(),
            decreases self.leftover.len(),
        {
            let k = find_byte_x(self.leftover.as_slice(), 10);
            proof {
                lemma_find_byte(self.leftover@, 10);
            }
            if k == self.leftover.len() {
                proof {
                    assert(scan_text(self@.scan, self.leftover@) == (self@.scan, self.leftover@));
                }
                break;
            }
            let line = slice_to_vec(slice_subrange(self.leftover.as_slice(), 0, k));
            let rest = slice_to_vec(
                slice_subrange(self.leftover.as_slice(), k + 1, self.leftover.len()),
            );
            proof {
                lemma_valid_utf8_cut_ascii(self.leftover@, k as int);
                assert(scan_text(self@.scan, self.leftover@) == scan_text(
                    dispatch_line(self@.scan, line@),
                    rest@,
                ));
            }
            self.leftover = rest;
            self.dispatch(line.as_slice());
        }
        proof {
            assert(self@ =~= feed_text(m0, t@));
        }
    }

    /// Feeds one decoded text chunk. Chunks may split a line anywhere; each
    /// complete line is dispatched exactly once.
    pub fn parse_ics_chunk(&mut self, chunk: &str)
        requires
            old(self).wf(),
        ensures
            final(self).wf(),
            final(self)@ == feed_text(old(self)@, encode_utf8(chunk@)),
    {
        proof {
            vstd::utf8::encode_utf8_valid_utf8(chunk@);
        }
        self.scan_append(chunk.as_bytes());
    }

    /// Feeds one raw byte chunk. Chunks may split a multi-byte character
    /// anywhere; undecodable trailing bytes are retained, never dropped and
    /// never a panic.
    pub fn parse_ics_bytes(&mut self, chunk: &[u8])
        requires
            old(self).wf(),
        ensures
            final(self).wf(),
            final(self)@ == feed_bytes(old(self)@, chunk@),
    {
        let ghost m0 = self@;
        let mut cv = slice_to_vec(chunk);
        self.pending.append(&mut cv);
        let p = utf8_prefix(self.pending.as_slice());
        proof {
            lemma_utf8_prefix_len_props(self.pending@);
        }
        let text = slice_to_vec(slice_subrange(self.pending.as_slice(), 0, p));
        let rest = slice_to_vec(
            slice_subrange(self.pending.as_slice(), p, self.pending.len()),
        );
        self.pending = rest;
        self.scan_append(text.as_slice());
        proof {
            assert(self@ =~= feed_bytes(m0, chunk@));
        }
    }

    /// Consumes the session and returns the finished events, sorted by start
    /// instant in descending order (latest-starting first). Every returned
    /// event carries both resolved instants, and with a complete window every
    /// returned event overlaps it.
    pub fn get_events(self) -> (r: Vec<Event>)
        requires
            self.wf(),
        ensures
            views_of(r@).to_multiset() == self@.scan.events.to_multiset(),
            forall|i: int, j: int|
                #![trigger r@[i], r@[j]]
                0 <= i <= j < r@.len() ==> r@[i].start >= r@[j].start,
            (self@.scan.start_date is Some && self@.scan.end_date is Some) ==> forall|i: int|
                #![trigger r@[i]]
                0 <= i < r@.len() ==> r@[i].start <= self@.scan.end_date->0 && r@[i].end
                    >= self@.scan.start_date->0,
    {
        broadcast use vstd::seq_lib::group_to_multiset_ensures;

        let ghost m0 = self@;
        let ghost orig = self@.scan.events;
        let IcsParser { events: mut src, .. } = self;
        let mut out: Vec<Event> = Vec::new();
        proof {
            assert(views_of(out@) =~= Seq::<EventView>::empty());
            assert(views_of(out@).to_multiset().add(
                views_of(src@).to_multiset(),
            ) =~= orig.to_multiset());
            if m0.scan.start_date is Some && m0.scan.end_date is Some {
                assert forall|j: int| 0 <= j < src@.len() implies src@[j].start
                    <= m0.scan.end_date->0 && src@[j].end >= m0.scan.start_date->0 by {
                    assert(in_window(m0.scan, m0.scan.events[j].start, m0.scan.events[j].end));
                    assert(m0.scan.events[j] == src@[j]@);
                }
            }
        }
        while src.len() > 0
            invariant
                views_of(out@).to_multiset().add(views_of(src@).to_multiset())
                    == orig.to_multiset(),
                forall|i: int, j: int|
                    #![trigger out@[i], out@[j]]
                    0 <= i <= j < out@.len() ==> out@[i].start >= out@[j].start,
                forall|i: int, j: int|
                    #![trigger out@[i], src@[j]]
                    0 <= i < out@.len() && 0 <= j < src@.len() ==> out@[i].start >= src@[j].start,
                (m0.scan.start_date is Some && m0.scan.end_date is Some) ==> forall|i: int|
                    #![trigger out@[i]]
                    0 <= i < out@.len() ==> out@[i].start <= m0.scan.end_date->0 && out@[i].end
                        >= m0.scan.start_date->0,
                (m0.scan.start_date is Some && m0.scan.end_date is Some) ==> forall|j: int|
                    #![trigger src@[j]]
                    0 <= j < src@.len() ==> src@[j].start <= m0.scan.end_date->0 && src@[j].end
                        >= m0.scan.start_date->0,
            decreases src.len(),
        {
            let mut mx: usize = 0;
            let mut i: usize = 1;
            while i < src.len()
                invariant
                    0 < src.len(),
                    0 <= mx < i <= src.len(),
                    forall|j: int| 0 <= j < i ==> src@[mx as int].start >= #[trigger] src@[j].start,
                decreases src.len() - i,
            {
                if src[i].start > src[mx].start {
                    mx = i;
                }
                i = i + 1;
            }
            let ghost src_v = views_of(src@);
            let ghost out_v = views_of(out@);
            let ev = src.remove(mx);
            let ghost evv = ev@;
            proof {
                src_v.to_multiset_ensures();
                out_v.to_multiset_ensures();
                assert(views_of(src@) =~= src_v.remove(mx as int));
                assert(src_v[mx as int] == evv);
                assert(src_v.contains(evv));
                assert(src_v.to_multiset().count(evv) > 0);
            }
            out.push(ev);
            proof {
                assert(views_of(out@) =~= out_v.push(evv));
                assert(out_v.push(evv).to_multiset() =~= out_v.to_multiset().insert(evv));
                assert(src_v.remove(mx as int).to_multiset() =~= src_v.to_multiset().remove(evv));
                assert forall|x: EventView|
                    out_v.to_multiset().insert(evv).add(src_v.to_multiset().remove(evv)).count(x)
                        == out_v.to_multiset().add(src_v.to_multiset()).count(x) by {
                    assert(src_v.to_multiset().count(evv) >= 1);
                }
                assert(out_v.push(evv).to_multiset().add(src_v.remove(mx as int).to_multiset())
                    =~= out_v.to_multiset().add(src_v.to_multiset()));
            }
        }
        proof {
            assert(views_of(src@) =~= Seq::<EventView>::empty());
            assert(views_of(out@).to_multiset().add(
                Seq::<EventView>::empty().to_multiset(),
            ) =~= views_of(out@).to_multiset());
        }
        out
    }
}

} // verus!
