use protohackers::lrcp::message::{accept, encode, Message, MAX_DATAGRAM};
use protohackers::lrcp::segment::MAX_CHUNK;
use protohackers::lrcp::table::{Outbound, SessionTable, RETRANSMIT_SECONDS};

fn wire(out: &[Outbound<u16>]) -> Vec<(u16, String)> {
    out.iter()
        .map(|o| (o.to, String::from_utf8(encode(&o.message)).unwrap()))
        .collect()
}

fn texts(out: &[Outbound<u16>]) -> Vec<String> {
    wire(out).into_iter().map(|(_, text)| text).collect()
}

#[test]
fn open_creates_session_and_acks_zero() {
    let mut table: SessionTable<u16> = SessionTable::new();
    let out = table.receive(b"/open/5/", 1);
    assert_eq!(wire(&out), vec![(1, "/ack/5/0/".to_string())]);
    assert_eq!(table.len(), 1);
    let session = table.get(5).unwrap();
    assert_eq!(session.id(), 5);
    assert_eq!(session.peer(), 1);
    assert_eq!(session.rx_pos(), 0);
    assert_eq!(session.tx_acked(), 0);
    assert!(session.rx_accumulator().is_empty());
    assert!(session.tx_buffer().is_empty());
}

#[test]
fn end_to_end_reversal() {
    let mut table: SessionTable<u16> = SessionTable::new();
    assert_eq!(texts(&table.receive(b"/open/5/", 1)), vec!["/ack/5/0/"]);
    assert_eq!(
        texts(&table.receive(b"/data/5/0/hello\n/", 1)),
        vec!["/ack/5/6/", "/data/5/0/olleh\n/"]
    );
    assert_eq!(texts(&table.retransmit()), vec!["/data/5/0/olleh\n/"]);
    assert_eq!(texts(&table.receive(b"/ack/5/6/", 1)), Vec::<String>::new());
    assert_eq!(texts(&table.retransmit()), Vec::<String>::new());
    let session = table.get(5).unwrap();
    assert_eq!(session.rx_pos(), 6);
    assert_eq!(session.tx_acked(), 6);
    assert!(session.tx_buffer().is_empty());
}

#[test]
fn open_twice_keeps_state() {
    let mut table: SessionTable<u16> = SessionTable::new();
    table.receive(b"/open/7/", 1);
    table.receive(b"/data/7/0/abc\nde/", 1);
    let out = table.receive(b"/open/7/", 1);
    assert_eq!(texts(&out), vec!["/ack/7/6/"]);
    let session = table.get(7).unwrap();
    assert_eq!(session.rx_pos(), 6);
    assert_eq!(session.rx_accumulator(), &b"de"[..]);
    assert_eq!(session.tx_buffer(), &b"cba\n"[..]);
    assert_eq!(session.tx_acked(), 0);
    assert_eq!(table.len(), 1);
}

#[test]
fn duplicate_data_is_appended_once_and_acked_twice() {
    let mut table: SessionTable<u16> = SessionTable::new();
    table.receive(b"/open/7/", 1);
    let first = table.receive(b"/data/7/0/abc/", 1);
    assert_eq!(texts(&first), vec!["/ack/7/3/"]);
    assert_eq!(table.get(7).unwrap().rx_accumulator(), &b"abc"[..]);
    let second = table.receive(b"/data/7/0/abc/", 1);
    assert_eq!(texts(&second), vec!["/ack/7/3/"]);
    assert_eq!(table.get(7).unwrap().rx_accumulator(), &b"abc"[..]);
    assert_eq!(table.get(7).unwrap().rx_pos(), 3);
}

#[test]
fn data_beyond_position_is_dropped_and_acked() {
    let mut table: SessionTable<u16> = SessionTable::new();
    table.receive(b"/open/7/", 1);
    table.receive(b"/data/7/0/abc/", 1);
    let out = table.receive(b"/data/7/5/xyz/", 1);
    assert_eq!(texts(&out), vec!["/ack/7/3/"]);
    assert_eq!(table.get(7).unwrap().rx_accumulator(), &b"abc"[..]);
    assert_eq!(table.get(7).unwrap().rx_pos(), 3);
}

#[test]
fn ack_overrun_closes_session() {
    let mut table: SessionTable<u16> = SessionTable::new();
    table.receive(b"/open/7/", 1);
    table.receive(b"/data/7/0/abcd\n/", 1);
    {
        let session = table.get(7).unwrap();
        assert_eq!(session.tx_buffer().len(), 5);
        assert_eq!(session.tx_acked(), 0);
    }
    let out = table.receive(b"/ack/7/6/", 1);
    assert_eq!(texts(&out), vec!["/close/7/"]);
    assert!(!table.contains(7));
    assert_eq!(table.len(), 0);
    let after = table.receive(b"/data/7/0/x/", 1);
    assert!(after.is_empty());
    assert!(!table.contains(7));
}

#[test]
fn ack_of_everything_sent_is_no_overrun() {
    let mut table: SessionTable<u16> = SessionTable::new();
    table.receive(b"/open/7/", 1);
    table.receive(b"/data/7/0/abcd\n/", 1);
    let out = table.receive(b"/ack/7/5/", 1);
    assert!(out.is_empty());
    assert!(table.contains(7));
    assert_eq!(table.get(7).unwrap().tx_acked(), 5);
}

#[test]
fn partial_ack_resends_the_rest_at_once() {
    let mut table: SessionTable<u16> = SessionTable::new();
    table.receive(b"/open/9/", 1);
    table.receive(b"/data/9/0/hello\nworld\n/", 1);
    let out = table.receive(b"/ack/9/6/", 1);
    assert_eq!(texts(&out), vec!["/data/9/6/dlrow\n/"]);
    let session = table.get(9).unwrap();
    assert_eq!(session.tx_acked(), 6);
    assert_eq!(session.tx_buffer(), &b"dlrow\n"[..]);
}

#[test]
fn stale_ack_changes_nothing() {
    let mut table: SessionTable<u16> = SessionTable::new();
    table.receive(b"/open/9/", 1);
    table.receive(b"/data/9/0/hello\nworld\n/", 1);
    table.receive(b"/ack/9/6/", 1);
    assert!(table.receive(b"/ack/9/6/", 1).is_empty());
    assert!(table.receive(b"/ack/9/2/", 1).is_empty());
    assert!(table.receive(b"/ack/9/0/", 1).is_empty());
    let session = table.get(9).unwrap();
    assert_eq!(session.tx_acked(), 6);
    assert_eq!(session.tx_buffer(), &b"dlrow\n"[..]);
}

#[test]
fn counts_never_go_down() {
    let mut table: SessionTable<u16> = SessionTable::new();
    let datagrams: Vec<&[u8]> = vec![
        b"/open/3/",
        b"/data/3/0/ab/",
        b"/data/3/0/ab/",
        b"/data/3/2/c\nd/",
        b"/ack/3/2/",
        b"/open/3/",
        b"/ack/3/1/",
        b"/data/3/1/zzz/",
        b"/data/3/5/\n/",
        b"/ack/3/6/",
        b"/bogus/3/",
    ];
    let mut rx = 0;
    let mut acked = 0;
    for datagram in datagrams {
        table.receive(datagram, 1);
        let session = table.get(3).unwrap();
        assert!(session.rx_pos() >= rx);
        assert!(session.tx_acked() >= acked);
        rx = session.rx_pos();
        acked = session.tx_acked();
    }
    assert_eq!(rx, 6);
    assert_eq!(acked, 6);
}

#[test]
fn data_and_ack_for_unknown_session_are_ignored() {
    let mut table: SessionTable<u16> = SessionTable::new();
    assert!(table.receive(b"/data/4/0/abc/", 1).is_empty());
    assert!(table.receive(b"/ack/4/0/", 1).is_empty());
    assert_eq!(table.len(), 0);
}

#[test]
fn close_is_answered_with_and_without_session() {
    let mut table: SessionTable<u16> = SessionTable::new();
    assert_eq!(texts(&table.receive(b"/close/4/", 2)), vec!["/close/4/"]);
    table.receive(b"/open/4/", 2);
    assert!(table.contains(4));
    assert_eq!(wire(&table.receive(b"/close/4/", 3)), vec![(3, "/close/4/".to_string())]);
    assert!(!table.contains(4));
    assert_eq!(texts(&table.receive(b"/close/4/", 2)), vec!["/close/4/"]);
}

#[test]
fn malformed_datagrams_change_nothing_and_get_no_answer() {
    let mut table: SessionTable<u16> = SessionTable::new();
    table.receive(b"/open/1/", 1);
    table.receive(b"/data/1/0/ab/", 1);
    let bad: Vec<&[u8]> = vec![
        b"",
        b"/",
        b"//",
        b"open/1/",
        b"/open/1",
        b"/open/",
        b"/open/1/2/",
        b"/open/x/",
        b"/open//",
        b"/open/-1/",
        b"/open/4294967296/",
        b"/data/1/2/",
        b"/data/1/2/abc",
        b"/data/1/2/a/b/",
        b"/data/1/2/a\\b/",
        b"/data/1/2/ab\\/",
        b"/data/1/x/ab/",
        b"/ack/1/",
        b"/ack/1/2/3/",
        b"/close/",
        b"/close/1/1/",
        b"/hello/1/",
        b"/OPEN/1/",
        b"/data/1/99999999999999999999999999/ab/",
    ];
    for datagram in bad {
        let out = table.receive(datagram, 1);
        assert!(out.is_empty(), "{:?}", datagram);
        assert_eq!(table.len(), 1);
        let session = table.get(1).unwrap();
        assert_eq!(session.rx_pos(), 2);
        assert_eq!(session.rx_accumulator(), &b"ab"[..]);
    }
}

#[test]
fn tick_resends_unconfirmed_output_identically() {
    let mut table: SessionTable<u16> = SessionTable::new();
    table.receive(b"/open/5/", 1);
    table.receive(b"/data/5/0/a\\/b\\\\c\n/", 1);
    let first = wire(&table.retransmit());
    let second = wire(&table.retransmit());
    let third = wire(&table.retransmit());
    assert_eq!(first, vec![(1, "/data/5/0/c\\\\b\\/a\n/".to_string())]);
    assert_eq!(first, second);
    assert_eq!(second, third);
}

#[test]
fn tick_sends_nothing_for_empty_buffers() {
    let mut table: SessionTable<u16> = SessionTable::new();
    assert!(table.retransmit().is_empty());
    table.receive(b"/open/5/", 1);
    table.receive(b"/data/5/0/no newline yet/", 1);
    assert!(table.retransmit().is_empty());
}

#[test]
fn tick_covers_every_session_in_order_of_opening() {
    let mut table: SessionTable<u16> = SessionTable::new();
    table.receive(b"/open/20/", 1);
    table.receive(b"/open/10/", 2);
    table.receive(b"/open/30/", 3);
    table.receive(b"/data/10/0/ab\n/", 2);
    table.receive(b"/data/20/0/cd\n/", 1);
    assert_eq!(
        wire(&table.retransmit()),
        vec![
            (1, "/data/20/0/dc\n/".to_string()),
            (2, "/data/10/0/ba\n/".to_string()),
        ]
    );
}

#[test]
fn replies_and_ticks_go_to_the_address_last_heard_from() {
    let mut table: SessionTable<u16> = SessionTable::new();
    table.receive(b"/open/5/", 1);
    let out = table.receive(b"/data/5/0/ab\n/", 2);
    assert_eq!(
        wire(&out),
        vec![(2, "/ack/5/3/".to_string()), (2, "/data/5/0/ba\n/".to_string())]
    );
    assert_eq!(table.get(5).unwrap().peer(), 2);
    assert_eq!(wire(&table.retransmit()), vec![(2, "/data/5/0/ba\n/".to_string())]);
}

#[test]
fn large_buffer_is_cut_into_chunks_that_tile_it() {
    let mut table: SessionTable<u16> = SessionTable::new();
    table.receive(b"/open/8/", 1);
    let mut line: Vec<u8> = Vec::new();
    for i in 0..2000usize {
        line.push(b'a' + (i % 26) as u8);
    }
    let mut sent = 0;
    while sent < line.len() {
        let end = (sent + 500).min(line.len());
        let message = Message::Data { id: 8, pos: sent, payload: line[sent..end].to_vec() };
        let out = table.handle(&message, 1);
        assert_eq!(out.len(), 1);
        sent = end;
    }
    let out = table.handle(&Message::Data { id: 8, pos: 2000, payload: vec![b'\n'] }, 1);
    assert_eq!(out.len(), 4);
    assert_eq!(out[0].message, Message::Ack { id: 8, len: 2001 });
    let mut expected: Vec<u8> = line.iter().rev().cloned().collect();
    expected.push(b'\n');
    let mut joined: Vec<u8> = Vec::new();
    let mut offset = 0;
    for (k, o) in out[1..].iter().enumerate() {
        match &o.message {
            Message::Data { id, pos, payload } => {
                assert_eq!(*id, 8);
                assert_eq!(*pos, offset);
                assert!(!payload.is_empty());
                assert!(payload.len() <= MAX_CHUNK);
                if k < 2 {
                    assert_eq!(payload.len(), MAX_CHUNK);
                }
                offset += payload.len();
                joined.extend_from_slice(payload);
            }
            other => panic!("not data: {:?}", other),
        }
    }
    assert_eq!(offset, 2001);
    assert_eq!(joined, expected);
    let again = table.retransmit();
    assert_eq!(again.len(), 3);
    for (a, b) in again.iter().zip(out[1..].iter()) {
        assert_eq!(a.message, b.message);
        assert_eq!(a.to, b.to);
    }
    let rest = table.handle(&Message::Ack { id: 8, len: 1000 }, 1);
    assert_eq!(rest.len(), 2);
    assert_eq!(
        rest[0].message,
        Message::Data { id: 8, pos: 1000, payload: expected[1000..1900].to_vec() }
    );
    assert_eq!(
        rest[1].message,
        Message::Data { id: 8, pos: 1900, payload: expected[1900..].to_vec() }
    );
}

#[test]
fn several_lines_in_one_payload_and_a_line_across_payloads() {
    let mut table: SessionTable<u16> = SessionTable::new();
    table.receive(b"/open/2/", 1);
    let out = table.receive(b"/data/2/0/one\ntwo\nthr/", 1);
    assert_eq!(texts(&out), vec!["/ack/2/11/", "/data/2/0/eno\nowt\n/"]);
    assert_eq!(table.get(2).unwrap().rx_accumulator(), &b"thr"[..]);
    let out = table.receive(b"/data/2/11/ee\n\n/", 1);
    assert_eq!(texts(&out), vec!["/ack/2/15/", "/data/2/0/eno\nowt\neerht\n\n/"]);
    assert!(table.get(2).unwrap().rx_accumulator().is_empty());
}

#[test]
fn data_at_the_limit_of_the_counter_is_not_taken_in() {
    let mut table: SessionTable<u16> = SessionTable::new();
    table.receive(b"/open/2/", 1);
    let out = table.handle(&Message::Data { id: 2, pos: usize::MAX, payload: vec![1, 2] }, 1);
    assert_eq!(out.len(), 1);
    assert_eq!(out[0].message, Message::Ack { id: 2, len: 0 });
    assert_eq!(table.get(2).unwrap().rx_pos(), 0);
}

#[test]
fn datagram_longer_than_the_buffer_is_dropped() {
    assert_eq!(MAX_DATAGRAM, 1024);
    assert_eq!(RETRANSMIT_SECONDS, 3);
    let mut table: SessionTable<u16> = SessionTable::new();
    table.receive(b"/open/1/", 1);
    let head = b"/data/1/0/";
    let mut fits = head.to_vec();
    fits.resize(MAX_DATAGRAM - 1, b'a');
    fits.push(b'/');
    assert_eq!(fits.len(), MAX_DATAGRAM);
    let mut long = head.to_vec();
    long.resize(MAX_DATAGRAM, b'a');
    long.push(b'/');
    assert_eq!(long.len(), MAX_DATAGRAM + 1);
    assert!(table.receive(&long, 1).is_empty());
    assert_eq!(table.get(1).unwrap().rx_pos(), 0);
    let out = table.receive(&fits, 1);
    assert_eq!(texts(&out), vec![format!("/ack/1/{}/", MAX_DATAGRAM - 1 - head.len())]);
    assert_eq!(table.get(1).unwrap().rx_pos(), MAX_DATAGRAM - 1 - head.len());
}

#[test]
fn accept_reads_what_fits_and_carries_a_message() {
    assert_eq!(accept(b"/open/3/"), Some(Message::Open { id: 3 }));
    assert_eq!(accept(b"/open/3"), None);
    assert_eq!(accept(b""), None);
    let mut long = b"/data/1/0/".to_vec();
    long.resize(MAX_DATAGRAM, b'a');
    long.push(b'/');
    assert_eq!(accept(&long), None);
    long.remove(20);
    assert!(accept(&long).is_some());
}
