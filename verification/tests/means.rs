use std::collections::BTreeMap;

use protohax::means::msg::{to_bytes, Msg, ReadFailure};
use protohax::means::prices::{range_average, Prices};

#[test]
fn messages_are_read() {
    assert_eq!(
        Msg::read_from(Ok([b'I', 0x00, 0x00, 0x30, 0x39, 0x00, 0x00, 0x00, 0x65])),
        Ok(Some(Msg::Insert { timestamp: 12345, price: 101 }))
    );
    assert_eq!(
        Msg::read_from(Ok([b'Q', 0xff, 0xff, 0xff, 0xff, 0x80, 0x00, 0x00, 0x00])),
        Ok(Some(Msg::Query { begin: -1, end: i32::MIN }))
    );
    assert_eq!(
        Msg::read_from(Ok([b'Q', 0x7f, 0xff, 0xff, 0xff, 0x00, 0x01, 0x02, 0x03])),
        Ok(Some(Msg::Query { begin: i32::MAX, end: 66051 }))
    );
}

#[test]
fn failed_reads_are_told_apart() {
    assert_eq!(Msg::read_from(Err(ReadFailure::Eof)), Ok(None));
    assert_eq!(
        Msg::read_from(Err(ReadFailure::Other("broken".to_string()))),
        Err("read error: broken".to_string())
    );
    assert_eq!(
        Msg::read_from(Ok([106, 0, 0, 0, 0, 0, 0, 0, 0])),
        Err("unrecognized type: 106".to_string())
    );
    assert_eq!(
        Msg::read_from(Ok([0, 0, 0, 0, 0, 0, 0, 0, 0])),
        Err("unrecognized type: 0".to_string())
    );
}

#[test]
fn numbers_are_sent_big_endian() {
    assert_eq!(to_bytes(101), vec![0, 0, 0, 101]);
    assert_eq!(to_bytes(-2), vec![255, 255, 255, 254]);
    assert_eq!(to_bytes(i32::MIN), vec![128, 0, 0, 0]);
    assert_eq!(to_bytes(i32::MAX), vec![127, 255, 255, 255]);
    for n in [0, 1, -1, 65536, -65537, i32::MIN, i32::MAX] {
        assert_eq!(to_bytes(n), n.to_be_bytes().to_vec());
    }
}

fn prices(list: &[(i32, i32)]) -> BTreeMap<i32, i32> {
    list.iter().copied().collect()
}

#[test]
fn averages_are_of_the_range() {
    let map = prices(&[(12345, 101), (12346, 102), (12347, 100), (40960, 5)]);
    assert_eq!(range_average(&map, 12288, 16384), 101);
    assert_eq!(range_average(&map, 12345, 12346), 101);
    assert_eq!(range_average(&map, 12346, 12346), 102);
    assert_eq!(range_average(&map, i32::MIN, i32::MAX), 77);
    assert_eq!(range_average(&map, 16384, 12288), 0);
    assert_eq!(range_average(&map, 20000, 30000), 0);
    assert_eq!(range_average(&prices(&[]), 0, 10), 0);
}

#[test]
fn averages_are_rounded_toward_zero() {
    assert_eq!(range_average(&prices(&[(1, -3), (2, -4)]), 0, 9), -3);
    assert_eq!(range_average(&prices(&[(1, 3), (2, 4)]), 0, 9), 3);
    assert_eq!(range_average(&prices(&[(1, 2), (2, -3)]), 0, 9), 0);
    assert_eq!(range_average(&prices(&[(1, i32::MIN), (2, i32::MIN)]), 0, 9), i32::MIN);
    assert_eq!(range_average(&prices(&[(1, i32::MAX), (2, i32::MAX)]), 0, 9), i32::MAX);
}

#[test]
fn prices_outside_the_range_make_no_difference() {
    let map = prices(&[(5, 10), (6, 20)]);
    let more = prices(&[(4, 1000), (5, 10), (6, 20), (7, -1000)]);
    assert_eq!(range_average(&map, 5, 6), 15);
    assert_eq!(range_average(&more, 5, 6), 15);
}

#[test]
fn price_sessions_are_answered() {
    let mut p = Prices::new();
    for (t, price) in [(12345, 101), (12346, 102), (12347, 100), (40960, 5)] {
        let a = p.handle(Ok(Some(Msg::Insert { timestamp: t, price })));
        assert!(a.write.is_none() && !a.done);
    }
    let a = p.handle(Ok(Some(Msg::Query { begin: 12288, end: 16384 })));
    assert_eq!(a.write, Some(vec![0, 0, 0, 101]));
    assert!(!a.done);
    p.handle(Ok(Some(Msg::Insert { timestamp: 12346, price: -3 })));
    let a = p.handle(Ok(Some(Msg::Query { begin: 12346, end: 12346 })));
    assert_eq!(a.write, Some(vec![255, 255, 255, 253]));
    let a = p.handle(Ok(None));
    assert!(a.write.is_none() && a.done);
    let a = p.handle(Err("read error: x".to_string()));
    assert!(a.write.is_none() && a.done);
}
