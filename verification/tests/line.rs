use protohax::bytes::parse;
use protohax::line::lrl::{unescaped, Data, Event, LineReverser, Msg};
use protohax::line::router::{Client, Route, Router};
use protohax::line::types::{MsgBlock, Pkt, PktType, Response, SessionId};

fn block(bytes: &[u8]) -> MsgBlock {
    let mut b = MsgBlock::new();
    b.as_mut()[..bytes.len()].copy_from_slice(bytes);
    b
}

fn pkt(bytes: &[u8]) -> Result<Pkt, &'static str> {
    Pkt::new(block(bytes), bytes.len())
}

fn say(bytes: &[u8]) -> Event {
    Event::Packet(pkt(bytes).unwrap())
}

/// What is sent at an event, and all that is queued by it.
fn replies(lr: &mut LineReverser, e: Event) -> Vec<String> {
    assert!(lr.has_room());
    let mut out = Vec::new();
    let r = lr.handle(e);
    if let Some(a) = r.send {
        out.push(String::from_utf8(a.bytes().to_vec()).unwrap());
    }
    if !r.done {
        while let Some(dr) = lr.next_response() {
            out.push(String::from_utf8(dr.response.bytes().to_vec()).unwrap());
        }
    }
    out
}

fn session(id: &[u8]) -> LineReverser {
    LineReverser::new(SessionId::from(id))
}

#[test]
fn blocks_are_zeroed() {
    assert_eq!(MsgBlock::new().as_ref(), &[0u8; 1024][..]);
}

#[test]
fn packets_are_recognized() {
    let p = pkt(b"/connect/3263827/").unwrap();
    assert_eq!(p.ptype, PktType::Connect);
    assert_eq!(p.id(), b"3263827");
    assert_eq!(p.length, 17);
    assert_eq!(pkt(b"/close/1/").unwrap().ptype, PktType::Close);
    assert_eq!(pkt(b"/ack/1/0/").unwrap().ptype, PktType::Ack);
    let p = pkt(b"/data/12/0/hello/").unwrap();
    assert_eq!((p.ptype, p.id_start, p.id_end), (PktType::Data, 6, 8));
    assert_eq!(p.to_text(), "Pkt { ptype: Data, id: \"12\", data: \"/data/12/0/hello/\" }");
}

#[test]
fn malformed_packets_are_refused() {
    let error = |b: &[u8]| pkt(b).err().unwrap();
    assert_eq!(error(b""), "no data");
    assert_eq!(error(b"connect/1/"), "no initial /");
    assert_eq!(error(b"/connect/1"), "no final /");
    assert_eq!(error(b"/"), "no second /");
    assert_eq!(error(b"/hello/1/"), "unrecognized MsgType");
    assert_eq!(error(b"/ack/"), "no third /");
    assert_eq!(error(b"/connect/1/2/"), "too many fields");
    assert_eq!(error(b"/close/1//"), "too many fields");
    assert_eq!(error(b"//"), "unrecognized MsgType");
}

#[test]
fn counts_are_parsed() {
    assert_eq!(parse(b"0"), Some(0));
    assert_eq!(parse(b"00123"), Some(123));
    assert_eq!(parse(b"+7"), Some(7));
    assert_eq!(parse(b"18446744073709551615"), Some(18446744073709551615));
    assert_eq!(parse(b"18446744073709551616"), None);
    assert_eq!(parse(b"99999999999999999999999"), None);
    assert_eq!(parse(b""), None);
    assert_eq!(parse(b"+"), None);
    assert_eq!(parse(b"-1"), None);
    assert_eq!(parse(b"1a"), None);
}

#[test]
fn messages_are_parsed() {
    let msg = |b: &[u8]| Msg::from_pkt(pkt(b).unwrap());
    assert!(matches!(msg(b"/ack/1/1024/"), Ok(Msg::Ack { count: 1024 })));
    assert!(matches!(msg(b"/connect/1/"), Ok(Msg::Connect)));
    assert!(matches!(msg(b"/close/1/"), Ok(Msg::Close)));
    match msg(b"/data/1/5/hello\\/world/") {
        Ok(Msg::Data(d)) => {
            assert_eq!(d.count, 5);
            assert_eq!(d.data(), b"hello\\/world");
        }
        _ => panic!("not data"),
    }
    let error = |b: &[u8]| match msg(b) {
        Err(e) => e,
        Ok(_) => panic!("parsed"),
    };
    assert_eq!(error(b"/ack/1/"), "no end of count field");
    assert_eq!(error(b"/ack/1/\xff/"), "count not valid UTF-8");
    assert_eq!(error(b"/ack/1/x/"), "count unparseable");
    assert_eq!(error(b"/ack/1//"), "count unparseable");
    assert_eq!(error(b"/ack/1/5/6/"), "ack packet has too many fields");
    assert_eq!(error(b"/data/1/5/"), "data ends before it starts");
}

#[test]
fn texts_are_unescaped() {
    assert_eq!(unescaped(b"abc"), Some(b"abc".to_vec()));
    assert_eq!(unescaped(b"a\\/b\\\\c"), Some(b"a/b\\c".to_vec()));
    assert_eq!(unescaped(b"\\\\\\/"), Some(b"\\/".to_vec()));
    assert_eq!(unescaped(b"a/b"), None);
    assert_eq!(unescaped(b"/"), None);
    assert_eq!(unescaped(b"\\\\/"), None);
    assert_eq!(unescaped(b"\\n"), Some(b"n".to_vec()));
    assert_eq!(unescaped(b"x\\"), Some(b"x".to_vec()));
    assert_eq!(unescaped(b""), Some(Vec::new()));
}

#[test]
fn responses_are_packets() {
    let r = Response::ack(b"12345", 1024);
    assert_eq!(r.bytes(), b"/ack/12345/1024/");
    assert_eq!(r.id(), b"12345");
    assert_eq!(r.rtype, PktType::Ack);
    assert_eq!(r.rtype(), PktType::Ack);
    assert_eq!(r.to_text(), "Response { data: \"/ack/12345/1024/\" }");
    let r = Response::close(b"7");
    assert_eq!(r.bytes(), b"/close/7/");
    assert_eq!(r.id(), b"7");
    assert_eq!(r.rtype, PktType::Close);
    let mut source = b"a/b\\c\n".iter().copied();
    let r = Response::data(b"99", 18446744073709551615, &mut source);
    assert_eq!(r.bytes(), b"/data/99/18446744073709551615/a\\/b\\\\c\n/");
    assert_eq!(r.id(), b"99");
    assert_eq!(r.rtype, PktType::Data);
    assert_eq!(source.next(), None);
}

#[test]
fn data_responses_are_at_most_a_thousand_bytes() {
    let mut source = vec![b'/'; 2000].into_iter();
    let r = Response::data(b"1234567890", 0, &mut source);
    // The header takes 19 bytes, and each slash two.
    assert_eq!(r.bytes().len(), 1000);
    assert_eq!(r.bytes()[999], b'/');
    assert_eq!(source.len(), 2000 - 490);
    let mut source = vec![b'x'; 2000].into_iter();
    let r = Response::data(b"1234567890", 0, &mut source);
    assert_eq!(r.bytes().len(), 999);
    assert_eq!(source.len(), 2000 - 979);
}

#[test]
fn an_endless_source_fills_one_packet() {
    let mut source = std::iter::repeat(b'x');
    let r = Response::data(b"1", 0, &mut source);
    assert_eq!(r.bytes().len(), 999);
    assert_eq!(&r.bytes()[..11], b"/data/1/0/x");
    assert_eq!(r.bytes()[998], b'/');
}

#[test]
fn long_ids_are_cut_in_a_close() {
    let id = vec![b'9'; 1100];
    let r = Response::close(&id);
    assert_eq!(r.bytes().len(), 1024);
    assert_eq!(r.id(), &id[..1016]);
    let r = Response::close(&id[..1016]);
    assert_eq!(r.bytes().len(), 1024);
    assert_eq!(r.bytes()[1023], b'/');
    assert_eq!(r.id(), &id[..1016]);
}

#[test]
fn session_ids_keep_ten_bytes() {
    assert_eq!(SessionId::from(b"1234567890123").as_slice(), b"1234567890");
    assert_eq!(SessionId::from(b"12").as_slice(), b"12");
    assert_eq!(SessionId::from(b"12").duplicate().as_slice(), b"12");
    assert_eq!(SessionId::from(b"1x\xe9").to_text(), "[1x\u{e9}]");
    assert_eq!(SessionId::from(b"12").debug_text(), "SessionId([[12]])");
    assert_eq!(session(b"1x\xe9").idstr(), "1x\u{fffd}");
}

#[test]
fn lines_are_reversed() {
    let mut lr = session(b"12345");
    assert_eq!(replies(&mut lr, say(b"/connect/12345/")), vec!["/ack/12345/0/"]);
    assert_eq!(replies(&mut lr, say(b"/data/12345/0/hello\n/")), vec![
        "/ack/12345/6/",
        "/data/12345/0/olleh\n/"
    ]);
    assert!(replies(&mut lr, say(b"/ack/12345/6/")).is_empty());
    assert_eq!(replies(&mut lr, say(b"/data/12345/6/Hello, world!\n/")), vec![
        "/ack/12345/20/",
        "/data/12345/6/!dlrow ,olleH\n/"
    ]);
    assert!(replies(&mut lr, say(b"/ack/12345/20/")).is_empty());
    assert_eq!(replies(&mut lr, say(b"/close/12345/")), vec!["/close/12345/"]);
}

#[test]
fn pieces_and_repeats_make_no_difference() {
    let mut lr = session(b"1");
    assert_eq!(replies(&mut lr, say(b"/data/1/0/abc/")), vec!["/ack/1/3/"]);
    // Sent again, and with something new behind it.
    assert!(replies(&mut lr, say(b"/data/1/0/abc/")).is_empty());
    assert_eq!(replies(&mut lr, say(b"/data/1/0/abcd\ne\n\n/")), vec![
        "/ack/1/8/",
        "/data/1/0/dcba\n/",
        "/data/1/5/e\n/",
        "/data/1/7/\n/"
    ]);
    // A gap is answered with how far we are.
    assert_eq!(replies(&mut lr, say(b"/data/1/10/x/")), vec!["/ack/1/8/"]);
    assert_eq!(replies(&mut lr, say(b"/data/1/8/x/")), vec!["/ack/1/9/"]);
    // Escaped bytes count once, coming and going.
    assert_eq!(replies(&mut lr, say(b"/data/1/9/\\/\\\\\n/")), vec![
        "/ack/1/12/",
        "/data/1/8/\\\\\\/x\n/"
    ]);
    // Repeated with escapes, it is acknowledged again.
    assert_eq!(replies(&mut lr, say(b"/data/1/9/\\/\\\\\n/")), vec!["/ack/1/12/"]);
}

#[test]
fn escaped_text_is_counted_as_it_is_meant() {
    let mut lr = session(b"3263827");
    assert_eq!(replies(&mut lr, say(b"/connect/3263827/")), vec!["/ack/3263827/0/"]);
    assert_eq!(
        replies(
            &mut lr,
            say(b"/data/3263827/0/_Either\\/Or_ is my favorite Elliot Smith album./")
        ),
        vec!["/ack/3263827/46/"]
    );
    assert_eq!(replies(&mut lr, say(b"/close/3263827/")), vec!["/close/3263827/"]);
}

#[test]
fn parts_can_come_in_any_order() {
    let mut lr = session(b"8");
    assert_eq!(replies(&mut lr, say(b"/data/8/3/d\n/")), vec!["/ack/8/0/"]);
    assert_eq!(replies(&mut lr, say(b"/data/8/0/ab/")), vec!["/ack/8/2/"]);
    assert_eq!(replies(&mut lr, say(b"/data/8/3/d\n/")), vec!["/ack/8/2/"]);
    assert_eq!(replies(&mut lr, say(b"/data/8/1/bcd/")), vec!["/ack/8/4/"]);
    assert!(replies(&mut lr, say(b"/data/8/0/ab/")).is_empty());
    assert_eq!(replies(&mut lr, say(b"/data/8/3/d\n/")), vec!["/ack/8/5/", "/data/8/0/dcba\n/"]);
}

#[test]
fn a_late_packet_with_escapes_takes_nothing_back() {
    let mut lr = session(b"8");
    assert_eq!(replies(&mut lr, say(b"/data/8/0/\\/\\/\\//")), vec!["/ack/8/3/"]);
    assert_eq!(replies(&mut lr, say(b"/data/8/3/xy/")), vec!["/ack/8/5/"]);
    assert_eq!(replies(&mut lr, say(b"/data/8/0/\\/\\/\\//")), vec!["/ack/8/5/"]);
    assert!(replies(&mut lr, say(b"/data/8/3/xy/")).is_empty());
    assert_eq!(replies(&mut lr, say(b"/data/8/5/\n/")), vec![
        "/ack/8/6/",
        "/data/8/0/yx\\/\\/\\/\n/"
    ]);
}

#[test]
fn unescaped_slashes_are_ignored() {
    let mut lr = session(b"1");
    assert!(replies(&mut lr, say(b"/data/1/0/a/b\n/")).is_empty());
    assert!(replies(&mut lr, say(b"/data/1/0//\n/")).is_empty());
    assert_eq!(replies(&mut lr, say(b"/data/1/0/ab\n/")), vec!["/ack/1/3/", "/data/1/0/ba\n/"]);
}

#[test]
fn long_lines_take_several_packets() {
    let mut lr = session(b"1");
    let text: Vec<u8> = (0..2400u32).map(|i| b'a' + (i % 26) as u8).collect();
    let mut at = 0;
    for piece in text.chunks(800) {
        let mut p = format!("/data/1/{}/", at).into_bytes();
        p.extend(piece);
        p.push(b'/');
        at += piece.len();
        assert_eq!(replies(&mut lr, say(&p)), vec![format!("/ack/1/{}/", at)]);
    }
    let out = replies(&mut lr, say(b"/data/1/2400/\n/"));
    assert_eq!(out.len(), 4);
    let mut answer: Vec<u8> = Vec::new();
    for p in &out[1..] {
        assert!(p.len() <= 1000);
        match Msg::from_pkt(pkt(p.as_bytes()).unwrap()) {
            Ok(Msg::Data(d)) => {
                assert_eq!(d.count, answer.len());
                answer.extend(unescaped(d.data()).unwrap());
            }
            _ => panic!("not data"),
        }
    }
    let mut expected: Vec<u8> = text.iter().rev().copied().collect();
    expected.push(b'\n');
    assert_eq!(answer, expected);
}

#[test]
fn unacknowledged_packets_are_sent_again() {
    let mut lr = session(b"1");
    replies(&mut lr, say(b"/data/1/0/abc\n/"));
    let r = lr.handle(Event::Timeout(4));
    assert_eq!(r.send.unwrap().bytes(), b"/data/1/0/cba\n/");
    assert_eq!(r.timer, Some(4));
    assert!(!r.done && !r.refresh);
    assert_eq!(lr.current_response(4).unwrap().id(), b"1");
    // Below the position nothing is acknowledged, but it does no harm.
    assert!(replies(&mut lr, say(b"/ack/1/2/")).is_empty());
    assert!(lr.current_response(4).is_some());
    assert!(replies(&mut lr, say(b"/ack/1/4/")).is_empty());
    assert!(lr.current_response(4).is_none());
    let r = lr.handle(Event::Timeout(4));
    assert!(r.send.is_none() && r.timer.is_none());
    assert!(replies(&mut lr, say(b"/ack/1/4/")).is_empty());
}

#[test]
fn acknowledging_what_was_not_sent_ends_the_session() {
    let mut lr = session(b"1");
    replies(&mut lr, say(b"/data/1/0/abc\n/"));
    let r = lr.handle(say(b"/ack/1/5/"));
    assert_eq!(r.send.unwrap().bytes(), b"/close/1/");
    assert!(r.done && r.refresh);
    assert_eq!(lr.ack(5).err().unwrap().bytes(), b"/close/1/");
    assert!(lr.ack(3).is_ok());
}

#[test]
fn sessions_end() {
    let mut lr = session(b"1");
    let r = lr.handle(Event::Idle);
    assert_eq!(r.send.unwrap().bytes(), b"/close/1/");
    assert!(r.done && !r.refresh);
    let r = lr.handle(Event::Hangup);
    assert!(r.send.is_none() && r.done);
    let r = lr.handle(say(b"/ack/1/x/"));
    assert!(r.send.is_none() && !r.done && r.refresh);
}

#[test]
fn data_can_be_read_directly() {
    let mut lr = session(b"1");
    let d = Data { data: block(b"ab\n"), count: 0, text_start: 0, length: 3 };
    assert_eq!(d.data(), b"ab\n");
    let r = lr.read_data(d).ok().unwrap().unwrap();
    assert_eq!(r.bytes(), b"/ack/1/3/");
    let dr = lr.next_response().unwrap();
    assert_eq!(dr.count, 3);
    assert_eq!(dr.response.bytes(), b"/data/1/0/ba\n/");
    assert!(lr.next_response().is_none());
}

#[test]
fn packets_are_routed() {
    let mut router: Router<char, u16> = Router::new();
    let p = |b: &[u8]| pkt(b).unwrap();
    assert!(matches!(router.route(&p(b"/data/5/0/x/")), Route::Ignore));
    match router.route(&p(b"/connect/5/")) {
        Route::Start(id) => {
            assert_eq!(id.as_slice(), b"5");
            router.start(id, Client { tx: 'a', addr: 12 });
        }
        _ => panic!("should start"),
    }
    assert!(matches!(router.route(&p(b"/data/5/0/x/")), Route::Deliver));
    assert!(matches!(router.route(&p(b"/connect/5/")), Route::Deliver));
    assert!(matches!(router.route(&p(b"/data/6/0/x/")), Route::Ignore));
    assert_eq!(router.get(b"5").unwrap().tx, 'a');
    assert!(router.get(b"6").is_none());
    assert_eq!(router.respond(&Response::ack(b"5", 0)), Some(12));
    assert_eq!(router.respond(&Response::ack(b"6", 0)), None);
    assert_eq!(router.respond(&Response::close(b"5")), Some(12));
    assert_eq!(router.respond(&Response::close(b"5")), None);
    assert!(matches!(router.route(&p(b"/data/5/0/x/")), Route::Ignore));
    assert!(matches!(router.route(&p(b"/connect/5/")), Route::Start(_)));
}

#[test]
fn long_session_ids_are_cut() {
    let mut router: Router<char, u16> = Router::new();
    match router.route(&pkt(b"/connect/12345678901/").unwrap()) {
        Route::Start(id) => {
            assert_eq!(id.as_slice(), b"1234567890");
            router.start(id, Client { tx: 'a', addr: 12 });
        }
        _ => panic!("should start"),
    }
    assert!(matches!(router.route(&pkt(b"/connect/12345678901/").unwrap()), Route::Start(_)));
    assert!(matches!(router.route(&pkt(b"/ack/1234567890/0/").unwrap()), Route::Deliver));
}
