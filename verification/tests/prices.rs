use protohackers::prices::{parse_request, read_i32, write_i32, PriceLog, Request};

#[test]
fn numbers_are_big_endian_twos_complement() {
    assert_eq!(read_i32(0, 0, 0x30, 0x39), 12345);
    assert_eq!(read_i32(0, 0, 0, 0x65), 101);
    assert_eq!(read_i32(0xff, 0xff, 0xff, 0xff), -1);
    assert_eq!(read_i32(0x80, 0, 0, 0), i32::MIN);
    assert_eq!(read_i32(0x7f, 0xff, 0xff, 0xff), i32::MAX);
    assert_eq!(write_i32(101), [0, 0, 0, 0x65]);
    assert_eq!(write_i32(-1), [0xff, 0xff, 0xff, 0xff]);
    assert_eq!(write_i32(i32::MIN), [0x80, 0, 0, 0]);
    for v in [0, 1, -1, 255, 256, -256, 65536, 12345678, -12345678, i32::MAX, i32::MIN] {
        let b = write_i32(v);
        assert_eq!(b, v.to_be_bytes());
        assert_eq!(read_i32(b[0], b[1], b[2], b[3]), v);
        assert_eq!(read_i32(b[0], b[1], b[2], b[3]), i32::from_be_bytes(b));
    }
}

#[test]
fn requests_are_read_by_their_letter() {
    assert_eq!(
        parse_request(&[0x49, 0, 0, 0x30, 0x39, 0, 0, 0, 0x65]),
        Some(Request::Insert { timestamp: 12345, price: 101 })
    );
    assert_eq!(
        parse_request(&[0x51, 0, 0, 0x03, 0xe8, 0, 0x01, 0x86, 0xa0]),
        Some(Request::Query { mintime: 1000, maxtime: 100000 })
    );
    assert_eq!(parse_request(&[0x50, 0, 0, 0, 0, 0, 0, 0, 0]), None);
    assert_eq!(parse_request(&[0x69, 0, 0, 0, 0, 0, 0, 0, 0]), None);
}

#[test]
fn mean_over_a_span() {
    let mut log = PriceLog::new();
    log.insert(12345, 101);
    log.insert(12346, 102);
    log.insert(12347, 100);
    log.insert(40960, 5);
    assert_eq!(log.len(), 4);
    assert_eq!(log.mean(12288, 16384), 101);
    assert_eq!(log.mean(12345, 12345), 101);
    assert_eq!(log.mean(12346, 40960), 69);
    assert_eq!(log.mean(i32::MIN, i32::MAX), 77);
}

#[test]
fn mean_is_zero_without_prices_in_the_span() {
    let mut log = PriceLog::new();
    assert_eq!(log.mean(0, 100), 0);
    log.insert(5, 10);
    assert_eq!(log.mean(6, 100), 0);
    assert_eq!(log.mean(100, 0), 0);
    assert_eq!(log.mean(5, 4), 0);
}

#[test]
fn mean_rounds_towards_zero() {
    let mut log = PriceLog::new();
    log.insert(1, 1);
    log.insert(2, 2);
    assert_eq!(log.mean(0, 10), 1);
    let mut log = PriceLog::new();
    log.insert(1, -1);
    log.insert(2, -2);
    assert_eq!(log.mean(0, 10), -1);
    let mut log = PriceLog::new();
    log.insert(1, -7);
    log.insert(2, 2);
    log.insert(2, 0);
    assert_eq!(log.mean(0, 10), -1);
}

#[test]
fn mean_of_extreme_prices_does_not_overflow() {
    let mut log = PriceLog::new();
    for t in 0..10 {
        log.insert(t, i32::MAX);
    }
    assert_eq!(log.mean(0, 9), i32::MAX);
    let mut log = PriceLog::new();
    for t in 0..10 {
        log.insert(t, i32::MIN);
    }
    assert_eq!(log.mean(0, 9), i32::MIN);
}

#[test]
fn apply_stores_and_answers() {
    let mut log = PriceLog::new();
    assert_eq!(log.apply(Request::Insert { timestamp: 1, price: 10 }), None);
    assert_eq!(log.apply(Request::Insert { timestamp: 3, price: 20 }), None);
    assert_eq!(log.apply(Request::Query { mintime: 0, maxtime: 5 }), Some(15));
    assert_eq!(log.apply(Request::Query { mintime: 2, maxtime: 5 }), Some(20));
    assert_eq!(log.len(), 2);
}
