use protohax::bytes::ByteSource;
use protohax::speed::bio;
use protohax::speed::bio::{IOPair, LPString, ServerMessage};
use protohax::speed::clients::{Action, Client, End, Heartbeat, Input, Role};
use protohax::speed::error::{Error, IoError, IoKind};
use protohax::speed::events::Event;
use protohax::speed::message::{ClientMessage, LPU16Array};
use protohax::speed::obs::{Car, Day, Infraction, Obs};
use protohax::speed::server::Server;

/// Values that do not print are compared here.
fn same<T: PartialEq>(a: T, b: T) {
    assert!(a == b);
}

fn differ<T: PartialEq>(a: T, b: T) {
    assert!(a != b);
}

#[test]
fn between_obs() {
    let o1 = Obs { mile: 8, timestamp: 0 };
    let o2 = Obs { mile: 9, timestamp: 45 };
    assert_eq!(o1.speed_between(&o2), 8000);
    assert_eq!(o2.speed_between(&o1), 8000);

    // Same times should be 0 speed.
    let o1 = Obs { mile: 5, timestamp: 25 };
    let o2 = Obs { mile: 6, timestamp: 26 };
    assert_eq!(o1.speed_between(&o2), 0);
    assert_eq!(o2.speed_between(&o1), 0);

    // Incredibly fast should also be zero speed.
    let o1 = Obs { mile: 1000, timestamp: 25 };
    let o2 = Obs { mile: 12, timestamp: 26 };
    assert_eq!(o1.speed_between(&o2), 0);
    assert_eq!(o2.speed_between(&o1), 0);
}

#[test]
fn speeds_are_rounded_down() {
    let a = Obs { mile: 10, timestamp: 100 };
    assert_eq!(a.speed_between(&Obs { mile: 11, timestamp: 107 }), 51428);
    assert_eq!(a.speed_between(&Obs { mile: 10, timestamp: 107 }), 0);
    assert_eq!(a.speed_between(&Obs { mile: 99, timestamp: 100 }), 0);
    assert_eq!(a.speed_between(&Obs { mile: 9, timestamp: 4294967295 }), 0);
}

#[test]
fn days_are_counted_from_the_epoch() {
    assert_eq!(Obs { mile: 0, timestamp: 86399 }.day(), Day(0));
    assert_eq!(Obs { mile: 0, timestamp: 86400 }.day(), Day(1));
    assert_eq!(Obs { mile: 0, timestamp: u32::MAX }.day(), Day(49710));
}

#[test]
fn write_server() {
    let mut buff: Vec<u8> = Vec::new();

    let msg = ServerMessage::Error { msg: LPString::from(b"testing!") };
    msg.write(&mut buff);

    let msg = ServerMessage::Ticket {
        plate: LPString::from(b"A550RGY"),
        road: 0x1,
        mile1: 0x2,
        timestamp1: 0x3,
        mile2: 0x4,
        timestamp2: 0x5,
        speed: 0x6,
    };
    msg.write(&mut buff);

    let msg = ServerMessage::Heartbeat;
    msg.write(&mut buff);

    assert_eq!(
        buff,
        [
            0x10, 0x08, b't', b'e', b's', b't', b'i', b'n', b'g', b'!',
            0x21, 0x07, b'A', b'5', b'5', b'0', b'R', b'G', b'Y',
                0x00, 0x01, 0x00, 0x02, 0x00, 0x00, 0x00, 0x03,
                0x00, 0x04, 0x00, 0x00, 0x00, 0x05, 0x00, 0x06,
            0x41
        ]
    );
}

#[test]
fn read_client() {
    let buff: Vec<u8> = vec![
        0x20, 0x07, b'A', b'5', b'5', b'0', b'R', b'G', b'Y',
            0x00, 0x00, 0x00, 0x01,
        0x40, 0x00, 0x00, 0x00, 0x02,
        0x80, 0x00, 0x03, 0x00, 0x04, 0x00, 0x05,
        0x81, 0x06, 0x00, 0x07, 0x00, 0x08, 0x00, 0x09,
                    0x00, 0x0a, 0x00, 0x0b, 0x00, 0x0c
    ];
    let mut buff = ByteSource::new(buff);

    let mut msgs: Vec<ClientMessage> = Vec::with_capacity(3);
    while let Ok(msg) = ClientMessage::read(&mut buff) {
        msgs.push(msg);
    }

    same(
        msgs,
        vec![
            ClientMessage::Plate {
                plate: LPString::from(b"A550RGY"),
                timestamp: 1,
            },
            ClientMessage::WantHeartbeat { interval: 2 },
            ClientMessage::IAmCamera {
                road: 3, mile: 4, limit: 5,
            },
            ClientMessage::IAmDispatcher {
                roads: LPU16Array::from(&[7, 8, 9, 10, 11, 12])
            },
        ]
    );
}

#[test]
fn streams_end_or_are_illegal() {
    let read = |b: &[u8]| {
        let mut src = ByteSource::new(b.to_vec());
        let r = ClientMessage::read(&mut src);
        (r, src.len())
    };
    same(read(b""), (Err(Error::Eof), 0));
    same(read(&[0x20, 3, b'a']), (Err(Error::Eof), 0));
    same(read(&[0x40, 0, 0, 1]), (Err(Error::Eof), 0));
    same(read(&[0x80, 0, 0, 1, 2, 3]), (Err(Error::Eof), 0));
    same(read(&[0x81, 2, 0, 1, 2]), (Err(Error::Eof), 0));
    same(
        read(&[0xfe, 1, 2]),
        (Err(Error::ClientError("illegal type: fe".to_string())), 2)
    );
    same(
        read(&[0x0a]),
        (Err(Error::ClientError("illegal type: a".to_string())), 0)
    );
    let mut long = vec![0x81, 40];
    for n in 0..40u16 {
        long.extend(n.to_be_bytes());
    }
    match read(&long).0 {
        Ok(ClientMessage::IAmDispatcher { roads }) => assert_eq!(roads.as_slice().len(), 40),
        _ => panic!("something else"),
    }
}

#[test]
fn errors_come_from_io_errors() {
    let e = |kind| IoError { kind, text: "x".to_string() };
    assert_eq!(Error::from(e(IoKind::UnexpectedEof)), Error::Eof);
    assert_eq!(Error::from(e(IoKind::Other)), Error::IOError(e(IoKind::Other)));
    assert_eq!(Error::unsent("Gone"), Error::ServerError("error sending Gone".to_string()));
}

#[test]
fn long_strings_are_clipped() {
    let long = vec![b'x'; 300];
    assert_eq!(LPString::from(&long).as_slice(), &long[..255]);
    assert_eq!(LPString::from(&long[..256]).as_slice().len(), 255);
    assert_eq!(LPString::from(&long[..255]).as_slice().len(), 255);
    assert_eq!(LPString::from(b"").as_slice(), b"");
    assert_eq!(LPString::from(&[b'a', 0xff]).to_text(), "a\u{fffd}");
    let mut w = vec![9u8];
    LPString::from(b"ab").write(&mut w);
    assert_eq!(w, vec![9, 2, b'a', b'b']);
    let mut src = ByteSource::new(vec![2, b'a', b'b', b'c']);
    same(LPString::read(&mut src), Ok(LPString::from(b"ab")));
    assert_eq!(src.next(), Some(b'c'));
}

#[test]
fn strings_are_equal_by_their_bytes() {
    let a = LPString::from(b"ab");
    same(a, LPString::from(&[b'a', b'b']));
    differ(a, LPString::from(b"ab\0"));
    differ(a, LPString::from(b"abc"));
    differ(a, LPString::from(b"aB"));
    same(LPString::from(b""), LPString::from(&[]));
    let mut src = ByteSource::new(vec![2, b'a', b'b']);
    same(LPString::read(&mut src), Ok(a));
}

#[test]
fn messages_arrive_in_pieces() {
    let mut io = IOPair::new();
    same(io.read(), Ok(None));
    same(io.receive(&[0x20, 0x02, b'U']), Ok(()));
    same(io.read(), Ok(None));
    same(io.receive(&[b'N', 0, 0, 1, 0, 0x40, 0, 0, 0]), Ok(()));
    same(
        io.read(),
        Ok(Some(bio::ClientMessage::Plate { plate: LPString::from(b"UN"), timestamp: 256 }))
    );
    assert_eq!(io.room(), 296);
    same(io.read(), Ok(None));
    same(io.receive(&[10, 0x81, 1, 0, 66, 0x80, 0, 123, 0, 8, 0, 60]), Ok(()));
    same(io.read(), Ok(Some(bio::ClientMessage::WantHeartbeat { interval: 10 })));
    same(
        io.read(),
        Ok(Some(bio::ClientMessage::IAmDispatcher { roads: bio::LPU16Array::from(&[66]) }))
    );
    same(
        io.read(),
        Ok(Some(bio::ClientMessage::IAmCamera { road: 123, mile: 8, limit: 60 }))
    );
    same(io.read(), Ok(None));
    assert_eq!(io.room(), 300);
}

#[test]
fn connections_fail() {
    let mut io = IOPair::new();
    same(io.receive(&[]), Err(bio::Error::Eof));
    same(io.receive(&[0x13]), Ok(()));
    same(io.read(), Err(bio::Error::ProtocolError("illegal message type: 13".to_string())));

    let mut io = IOPair::new();
    let mut full = vec![0u8; 300];
    full[0] = 0x81;
    full[1] = 200;
    same(io.receive(&full), Ok(()));
    same(io.read(), Ok(None));
    assert_eq!(io.room(), 0);
    same(
        io.receive(&[]),
        Err(bio::Error::ProtocolError("filled buffer w/o sending valid message".to_string()))
    );

    let e = |kind| IoError { kind, text: "x".to_string() };
    same(IOPair::failed(e(IoKind::Interrupted)), Ok(()));
    same(IOPair::failed(e(IoKind::WouldBlock)), Ok(()));
    same(
        IOPair::failed(e(IoKind::UnexpectedEof)),
        Err(bio::Error::IOError(e(IoKind::UnexpectedEof)))
    );
}

#[test]
fn too_many_roads_are_dropped() {
    let mut io = IOPair::new();
    let mut bytes = vec![0x81, 40];
    for n in 0..40u16 {
        bytes.extend(n.to_be_bytes());
    }
    bytes.push(0x40);
    assert_eq!(io.receive(&bytes), Ok(()));
    match io.read() {
        Ok(Some(bio::ClientMessage::IAmDispatcher { roads })) => {
            let kept: Vec<u16> = (0..32).collect();
            assert_eq!(roads.as_slice(), &kept[..]);
        }
        _ => panic!("something else"),
    }
    assert_eq!(io.room(), 299);
}

#[test]
fn messages_print() {
    assert_eq!(
        bio::ClientMessage::Plate { plate: LPString::from(b"A\"B"), timestamp: 4294967295 }.to_text(),
        "Plate { plate: LPString(\"A\\\"B\"), timestamp: 4294967295 }"
    );
    assert_eq!(
        bio::ClientMessage::WantHeartbeat { interval: 10 }.to_text(),
        "WantHeartbeat { interval: 10 }"
    );
    assert_eq!(
        bio::ClientMessage::IAmCamera { road: 1, mile: 20, limit: 300 }.to_text(),
        "IAmCamera { road: 1, mile: 20, limit: 300 }"
    );
    assert_eq!(LPString::from(b"A550RGY").debug_text(), "LPString(\"A550RGY\")");
    assert_eq!(LPString::from(&[b'a', 0xff]).debug_text(), "LPString(\"a\u{fffd}\")");
    assert_eq!(bio::LPU16Array::from(&[7, 80]).debug_text(), "LPU16Array([7, 80])");
    let roads = |a: &[u16]| bio::ClientMessage::IAmDispatcher { roads: bio::LPU16Array::from(a) };
    assert_eq!(roads(&[]).to_text(), "IAmDispatcher { roads: LPU16Array([]) }");
    assert_eq!(roads(&[5]).to_text(), "IAmDispatcher { roads: LPU16Array([5]) }");
    assert_eq!(roads(&[1, 2, 30]).to_text(), "IAmDispatcher { roads: LPU16Array([1, 2, 30]) }");
}

fn obs(mile: u16, timestamp: u32) -> Obs {
    Obs { mile, timestamp }
}

fn ends(t: &Infraction) -> (u16, Obs, Obs, u16) {
    (t.road, t.start, t.end, t.speed)
}

#[test]
fn speeding_is_ticketed() {
    let mut car = Car::new(LPString::from(b"UN1X"), 123, obs(8, 0));
    let t = car.observed(123, 6000, obs(9, 45)).unwrap();
    assert_eq!(ends(&t), (123, obs(8, 0), obs(9, 45), 8000));
    same(t.plate, LPString::from(b"UN1X"));
    // Not twice on a day.
    assert!(car.observed(123, 6000, obs(10, 90)).is_none());
    assert!(car.observed(123, 6000, obs(20, 95)).is_none());
    // Another day is another matter.
    assert!(car.observed(123, 6000, obs(8, 86400)).is_none());
    assert!(car.observed(123, 6000, obs(9, 86445)).is_some());
}

#[test]
fn reports_out_of_order_are_put_in_order() {
    let mut car = Car::new(LPString::from(b"X"), 1, obs(9, 45));
    let t = car.observed(1, 6000, obs(8, 0)).unwrap();
    assert_eq!(ends(&t), (1, obs(8, 0), obs(9, 45), 8000));
}

#[test]
fn within_the_limit_there_is_no_ticket() {
    let mut car = Car::new(LPString::from(b"X"), 1, obs(8, 0));
    assert!(car.observed(1, 8000, obs(9, 45)).is_none());
    // Other roads do not count.
    assert!(car.observed(2, 100, obs(50, 60)).is_none());
    // The first fast pair counts, in the order of the reports.
    let t = car.observed(1, 100, obs(12, 90)).unwrap();
    assert_eq!(ends(&t), (1, obs(8, 0), obs(12, 90), 16000));
}

#[test]
fn the_order_of_reports_makes_no_difference_to_a_day() {
    let day = [obs(10, 1000), obs(11, 1100), obs(12, 1150), obs(13, 1300)];
    // Only from the second to the third is it more than sixty miles an hour.
    for order in [[0, 1, 2, 3], [3, 2, 1, 0], [2, 0, 3, 1], [1, 3, 0, 2]] {
        for (limit, expected) in [(6000, 1), (7200, 0)] {
            let mut car = Car::new(LPString::from(b"X"), 1, day[order[0]]);
            let tickets = order[1..].iter().filter(|i| car.observed(1, limit, day[**i]).is_some());
            assert_eq!(tickets.count(), expected);
        }
    }
}

#[test]
fn tickets_mark_both_of_their_days() {
    let mut car = Car::new(LPString::from(b"X"), 1, obs(0, 86400 - 1800));
    let t = car.observed(1, 5000, obs(100, 86400 + 1800)).unwrap();
    assert_eq!(t.speed, 10000);
    assert!(car.observed(1, 5000, obs(0, 0)).is_none());
    assert!(car.observed(1, 5000, obs(100, 3600)).is_none());
    assert!(car.observed(1, 5000, obs(0, 86400 + 7200)).is_none());
    assert!(car.observed(1, 5000, obs(100, 86400 + 10800)).is_none());
    assert!(car.observed(1, 5000, obs(0, 2 * 86400)).is_none());
    assert!(car.observed(1, 5000, obs(100, 2 * 86400 + 3600)).is_some());
}

fn seen(plate: &[u8], road: u16, mile: u16, timestamp: u32) -> Event {
    Event::Observation { plate: LPString::from(plate), road, limit: 6000, pos: obs(mile, timestamp) }
}

fn sent(server: &mut Server, e: Event) -> Vec<(usize, Vec<u8>, u16)> {
    server
        .handle(e)
        .iter()
        .map(|d| (d.id, d.ticket.plate.as_slice().to_vec(), d.ticket.road))
        .collect()
}

fn dispatcher(id: usize, roads: &[u16]) -> Event {
    Event::Dispatcher { id, roads: bio::LPU16Array::from(roads) }
}

#[test]
fn tickets_go_to_dispatchers() {
    let mut s = Server::new();
    assert_eq!((s.connect(), s.connect(), s.connect()), (0, 1, 2));
    assert_eq!(s.connected(), 3);
    assert!(sent(&mut s, Event::Camera { id: 0 }).is_empty());
    assert!(sent(&mut s, dispatcher(1, &[123, 7])).is_empty());
    assert!(sent(&mut s, dispatcher(2, &[123])).is_empty());
    assert!(sent(&mut s, seen(b"A", 123, 8, 0)).is_empty());
    assert_eq!(sent(&mut s, seen(b"A", 123, 9, 45)), vec![(1, b"A".to_vec(), 123)]);
    assert!(sent(&mut s, Event::Gone { id: 1 }).is_empty());
    assert!(sent(&mut s, seen(b"B", 123, 8, 0)).is_empty());
    assert_eq!(sent(&mut s, seen(b"B", 123, 9, 45)), vec![(2, b"B".to_vec(), 123)]);
}

#[test]
fn tickets_wait_for_dispatchers() {
    let mut s = Server::new();
    for _ in 0..4 {
        s.connect();
    }
    for plate in [b"A", b"B"] {
        assert!(sent(&mut s, seen(plate, 5, 8, 0)).is_empty());
        assert!(sent(&mut s, seen(plate, 5, 9, 45)).is_empty());
    }
    assert!(sent(&mut s, seen(b"C", 6, 8, 0)).is_empty());
    assert!(sent(&mut s, seen(b"C", 6, 9, 45)).is_empty());
    // A camera cannot take them, nor a client that is not known.
    assert!(sent(&mut s, Event::Camera { id: 0 }).is_empty());
    assert!(sent(&mut s, dispatcher(0, &[5])).is_empty());
    assert!(sent(&mut s, dispatcher(9, &[5])).is_empty());
    assert_eq!(
        sent(&mut s, dispatcher(1, &[5, 5])),
        vec![(1, b"A".to_vec(), 5), (1, b"B".to_vec(), 5)]
    );
    assert_eq!(sent(&mut s, dispatcher(2, &[5, 6])), vec![(2, b"C".to_vec(), 6)]);
    assert!(sent(&mut s, dispatcher(3, &[5, 6])).is_empty());
    // Those who leave are not asked again.
    assert!(sent(&mut s, Event::Gone { id: 1 }).is_empty());
    assert!(sent(&mut s, Event::Gone { id: 2 }).is_empty());
    assert!(sent(&mut s, Event::Gone { id: 3 }).is_empty());
    assert!(sent(&mut s, seen(b"D", 5, 8, 0)).is_empty());
    assert!(sent(&mut s, seen(b"D", 5, 9, 45)).is_empty());
}

fn camera() -> Client {
    let mut c = Client::new(4);
    let a = c.handle(Input::Message(bio::ClientMessage::IAmCamera { road: 66, mile: 8, limit: 60 }));
    assert!(matches!(a.tell, Some(Event::Camera { id: 4 })));
    assert!(a.write.is_none() && a.end.is_none());
    c
}

fn written(a: &Action) -> Vec<u8> {
    let mut w = Vec::new();
    a.write.unwrap().write(&mut w);
    w
}

fn fault(a: Action) -> bio::Error {
    match a.end {
        Some(End::Failed(e)) => e,
        _ => panic!("no fault"),
    }
}

fn protocol(text: &str) -> bio::Error {
    bio::Error::ProtocolError(text.to_string())
}

#[test]
fn cameras_report_plates() {
    let mut c = camera();
    assert_eq!(c.role, Role::Camera { road: 66, mile: 8, limit: 6000 });
    let plate = LPString::from(b"UN1X");
    match c.handle(Input::Message(bio::ClientMessage::Plate { plate, timestamp: 99 })).tell {
        Some(Event::Observation { plate: p, road, limit, pos }) => {
            same((p, road, limit, pos), (plate, 66, 6000, obs(8, 99)));
        }
        _ => panic!("something else"),
    }
    assert_eq!(
        fault(c.handle(Input::Message(bio::ClientMessage::IAmCamera { road: 1, mile: 2, limit: 3 }))),
        protocol("illegal Camera msg: IAmCamera { road: 1, mile: 2, limit: 3 }")
    );
    assert!(c.handle(Input::Ticket(None)).end.is_none());
}

#[test]
fn dispatchers_are_sent_tickets() {
    let mut c = Client::new(7);
    let roads = bio::LPU16Array::from(&[1, 2]);
    match c.handle(Input::Message(bio::ClientMessage::IAmDispatcher { roads })).tell {
        Some(Event::Dispatcher { id, roads: r }) => same((id, r), (7, roads)),
        _ => panic!("something else"),
    }
    let ticket = Infraction {
        plate: LPString::from(b"UN"),
        road: 1,
        start: obs(8, 3),
        end: obs(9, 45),
        speed: 8000,
    };
    let a = c.handle(Input::Ticket(Some(ticket)));
    assert_eq!(
        written(&a),
        vec![0x21, 2, b'U', b'N', 0, 1, 0, 8, 0, 0, 0, 3, 0, 9, 0, 0, 0, 45, 0x1f, 0x40]
    );
    assert!(a.end.is_none());
    let a = c.handle(Input::Ticket(None));
    assert_eq!(&written(&a)[2..], b"server error, sorry");
    assert!(matches!(a.end, Some(End::Clean)));
    assert_eq!(
        fault(c.handle(Input::Message(bio::ClientMessage::Plate {
            plate: LPString::from(b"X"),
            timestamp: 1
        }))),
        protocol("illegal Dispatcher msg: Plate { plate: LPString(\"X\"), timestamp: 1 }")
    );
}

#[test]
fn unidentified_clients_send_no_plates() {
    let mut c = Client::new(0);
    assert_eq!(
        fault(c.handle(Input::Message(bio::ClientMessage::Plate {
            plate: LPString::from(b"X"),
            timestamp: 1
        }))),
        protocol("illegal unident msg: Plate { plate: LPString(\"X\"), timestamp: 1 } ")
    );
    assert_eq!(c.role, Role::Unidentified);
}

#[test]
fn hearts_are_started_once() {
    let mut c = camera();
    let want = |interval| Input::Message(bio::ClientMessage::WantHeartbeat { interval });
    assert!(c.handle(want(0)).end.is_none());
    assert_eq!(c.heart, Heartbeat(None));
    assert!(c.handle(want(25)).end.is_none());
    assert_eq!(c.heart, Heartbeat(Some(2500)));
    assert_eq!(written(&c.handle(Input::Beat)), vec![0x41]);
    assert_eq!(fault(c.handle(want(1))), protocol("multiple heartbeat requests"));
    assert_eq!(c.heart, Heartbeat(Some(2500)));
    let mut h = Heartbeat::new();
    h.set_decisecs(u32::MAX);
    assert_eq!(h, Heartbeat(Some(429496729500)));
    assert!(h.is_beating());
    h.stop();
    assert!(!h.is_beating());
}

#[test]
fn farewells_name_the_fault() {
    let mut c = Client::new(3);
    let farewell = |c: &Client, end: End| {
        let (msg, evt) = c.farewell(&end);
        assert!(matches!(evt, Event::Gone { id: 3 }));
        msg.map(|m| {
            let mut w = Vec::new();
            m.write(&mut w);
            w
        })
    };
    assert_eq!(farewell(&c, End::Clean), None);
    let eof = fault(c.handle(Input::Failed(bio::Error::Eof)));
    assert_eq!(farewell(&c, End::Failed(eof)), None);
    let io = fault(c.handle(Input::Unwritten(IoError { kind: IoKind::Other, text: "x".to_string() })));
    assert_eq!(
        farewell(&c, End::Failed(io)),
        Some(b"\x10\x1fthe server encountered an error".to_vec())
    );
    assert_eq!(farewell(&c, End::Failed(protocol("bad"))), Some(b"\x10\x03bad".to_vec()));
    let long = "y".repeat(300);
    let mut expected = vec![0x10, 255];
    expected.extend(vec![b'y'; 255]);
    assert_eq!(farewell(&c, End::Failed(protocol(&long))), Some(expected));
}
