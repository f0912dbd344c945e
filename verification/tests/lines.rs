use protohackers::lrcp::lines::reverse_lines;
use protohackers::lrcp::message::Message;
use protohackers::lrcp::segment::{segment, MAX_CHUNK};

#[test]
fn complete_lines_come_back_reversed() {
    assert_eq!(reverse_lines(b"hello\n"), (6, b"olleh\n".to_vec()));
    assert_eq!(reverse_lines(b"ab\ncd\nef"), (6, b"ba\ndc\n".to_vec()));
    assert_eq!(reverse_lines(b"\n\n"), (2, b"\n\n".to_vec()));
}

#[test]
fn partial_line_is_left_alone() {
    assert_eq!(reverse_lines(b"no newline"), (0, Vec::new()));
    assert_eq!(reverse_lines(b""), (0, Vec::new()));
}

#[test]
fn chunk_size_is_nine_hundred() {
    assert_eq!(MAX_CHUNK, 900);
}

#[test]
fn empty_buffer_gives_no_segment() {
    assert!(segment(1, 5, b"").is_empty());
}

#[test]
fn short_buffer_gives_one_segment() {
    assert_eq!(
        segment(1, 5, b"abc"),
        vec![Message::Data { id: 1, pos: 5, payload: b"abc".to_vec() }]
    );
}

#[test]
fn buffer_of_exactly_one_chunk_gives_one_segment() {
    let buffer = vec![7u8; 900];
    let out = segment(1, 0, &buffer);
    assert_eq!(out, vec![Message::Data { id: 1, pos: 0, payload: buffer }]);
}

#[test]
fn segments_tile_the_buffer() {
    for len in [901usize, 1799, 1800, 1801, 4000] {
        let buffer: Vec<u8> = (0..len).map(|i| (i % 251) as u8).collect();
        let out = segment(3, 100, &buffer);
        assert_eq!(out.len(), (len + 899) / 900);
        let mut next = 100;
        let mut joined = Vec::new();
        for (k, message) in out.iter().enumerate() {
            match message {
                Message::Data { id, pos, payload } => {
                    assert_eq!(*id, 3);
                    assert_eq!(*pos, next);
                    if k + 1 < out.len() {
                        assert_eq!(payload.len(), 900);
                    } else {
                        assert!(!payload.is_empty() && payload.len() <= 900);
                    }
                    next += payload.len();
                    joined.extend_from_slice(payload);
                }
                other => panic!("not data: {:?}", other),
            }
        }
        assert_eq!(next, 100 + len);
        assert_eq!(joined, buffer);
    }
}

#[test]
fn largest_chunk_on_the_wire() {
    let buffer = vec![b'/'; 900];
    let out = segment(u32::MAX, usize::MAX - 900, &buffer);
    assert_eq!(out.len(), 1);
    let wire = protohackers::lrcp::message::encode(&out[0]);
    assert_eq!(wire.len(), 2 * MAX_CHUNK + 39);
    let plain = vec![b'a'; 900];
    let out = segment(1, 0, &plain);
    assert_eq!(protohackers::lrcp::message::encode(&out[0]).len(), 900 + 11);
}
