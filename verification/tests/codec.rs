use protohackers::lrcp::escape::escape;
use protohackers::lrcp::frame::split_frame;
use protohackers::lrcp::message::{decode, encode, Message};
use protohackers::number::{parse_number, write_decimal};

#[test]
fn escape_doubles_backslash_and_guards_slash() {
    assert_eq!(escape(b"a/b\\c"), b"a\\/b\\\\c".to_vec());
    assert_eq!(escape(b""), Vec::<u8>::new());
    assert_eq!(escape(b"plain"), b"plain".to_vec());
    assert_eq!(escape(b"\\/"), b"\\\\\\/".to_vec());
}

#[test]
fn escaping_round_trips_for_slashes_and_backslashes() {
    let alphabet: [u8; 4] = [b'/', b'\\', b'a', b'\n'];
    for len in 0..6usize {
        let mut count = 1usize;
        for _ in 0..len {
            count *= 4;
        }
        for code in 0..count {
            let mut payload = Vec::new();
            let mut rest = code;
            for _ in 0..len {
                payload.push(alphabet[rest % 4]);
                rest /= 4;
            }
            let message = Message::Data { id: 1, pos: 0, payload: payload.clone() };
            let wire = encode(&message);
            assert_eq!(decode(&wire), Some(message));
            let mut framed = vec![b'/'];
            framed.extend_from_slice(&escape(&payload));
            framed.push(b'/');
            assert_eq!(split_frame(&framed), Some(vec![payload]));
        }
    }
}

#[test]
fn every_byte_value_round_trips() {
    let payload: Vec<u8> = (0..=255u8).collect();
    let message = Message::Data { id: 4294967295, pos: usize::MAX, payload };
    assert_eq!(decode(&encode(&message)), Some(message));
}

#[test]
fn escaped_backslash_before_separator_is_not_folded() {
    assert_eq!(
        decode(b"/data/1/0/ab\\\\/"),
        Some(Message::Data { id: 1, pos: 0, payload: b"ab\\".to_vec() })
    );
    assert_eq!(
        decode(b"/data/1/0/\\\\\\//"),
        Some(Message::Data { id: 1, pos: 0, payload: b"\\/".to_vec() })
    );
    assert_eq!(decode(b"/data/1/0/ab\\/"), None);
}

#[test]
fn encode_gives_the_wire_text() {
    assert_eq!(encode(&Message::Open { id: 7 }), b"/open/7/".to_vec());
    assert_eq!(encode(&Message::Close { id: 0 }), b"/close/0/".to_vec());
    assert_eq!(encode(&Message::Ack { id: 12, len: 3456 }), b"/ack/12/3456/".to_vec());
    assert_eq!(
        encode(&Message::Data { id: 5, pos: 10, payload: b"a/b\\c\n".to_vec() }),
        b"/data/5/10/a\\/b\\\\c\n/".to_vec()
    );
    assert_eq!(
        encode(&Message::Data { id: 5, pos: 0, payload: Vec::new() }),
        b"/data/5/0//".to_vec()
    );
}

#[test]
fn decode_reads_each_kind() {
    assert_eq!(decode(b"/open/7/"), Some(Message::Open { id: 7 }));
    assert_eq!(decode(b"/close/7/"), Some(Message::Close { id: 7 }));
    assert_eq!(decode(b"/ack/7/300/"), Some(Message::Ack { id: 7, len: 300 }));
    assert_eq!(
        decode(b"/data/7/0/abc/"),
        Some(Message::Data { id: 7, pos: 0, payload: b"abc".to_vec() })
    );
    assert_eq!(
        decode(b"/data/7/0//"),
        Some(Message::Data { id: 7, pos: 0, payload: Vec::new() })
    );
    assert_eq!(decode(b"/open/4294967295/"), Some(Message::Open { id: 4294967295 }));
    assert_eq!(decode(b"/open/007/"), Some(Message::Open { id: 7 }));
    assert_eq!(decode(b"/open/+7/"), Some(Message::Open { id: 7 }));
}

#[test]
fn decode_refuses_what_is_no_message() {
    let bad: Vec<&[u8]> = vec![
        b"",
        b"/",
        b"open/7/",
        b"/open/7",
        b"/open/7/8/",
        b"/open/",
        b"/open//",
        b"/open/+/",
        b"/open/++7/",
        b"/open/-7/",
        b"/open/7a/",
        b"/open/ 7/",
        b"/open/4294967296/",
        b"/data/7/0/",
        b"/data/7/0/a/b/",
        b"/data/7/0/a\\b/",
        b"/data/7/0/a\\/",
        b"/data/7//a/",
        b"/ack/7/",
        b"/ack/7/1/2/",
        b"/ack/7/1.5/",
        b"/close/",
        b"/close/7/7/",
        b"/connect/7/",
        b"/Open/7/",
        b"/op\\en/7/",
    ];
    for datagram in bad {
        assert_eq!(decode(datagram), None, "{:?}", datagram);
    }
}

#[test]
fn split_frame_gives_the_fields_unescaped() {
    assert_eq!(split_frame(b"/"), Some(Vec::<Vec<u8>>::new()));
    assert_eq!(split_frame(b"//"), Some(vec![Vec::new()]));
    assert_eq!(
        split_frame(b"/a/\\/b/\\\\/"),
        Some(vec![b"a".to_vec(), b"/b".to_vec(), b"\\".to_vec()])
    );
    assert_eq!(split_frame(b"a/"), None);
    assert_eq!(split_frame(b"/a"), None);
    assert_eq!(split_frame(b"/a\\"), None);
    assert_eq!(split_frame(b"/a\\n/"), None);
    assert_eq!(split_frame(b""), None);
}

#[test]
fn numbers_are_read_up_to_the_limit() {
    assert_eq!(parse_number(b"0", 10), Some(0));
    assert_eq!(parse_number(b"10", 10), Some(10));
    assert_eq!(parse_number(b"11", 10), None);
    assert_eq!(parse_number(b"0010", 10), Some(10));
    assert_eq!(parse_number(b"+10", 10), Some(10));
    assert_eq!(parse_number(b"", 10), None);
    assert_eq!(parse_number(b"+", 10), None);
    assert_eq!(parse_number(b"1+", 10), None);
    assert_eq!(parse_number(b"-1", 10), None);
    assert_eq!(parse_number(b"99999999999999999999999999999", usize::MAX), None);
    assert_eq!(parse_number(usize::MAX.to_string().as_bytes(), usize::MAX), Some(usize::MAX));
}

#[test]
fn numbers_are_written_in_shortest_form() {
    for n in [0usize, 1, 9, 10, 99, 100, 12345, 4294967295, usize::MAX] {
        let mut out = b"x".to_vec();
        write_decimal(n, &mut out);
        assert_eq!(out, format!("x{}", n).into_bytes());
        assert_eq!(parse_number(&out[1..], usize::MAX), Some(n));
    }
}
