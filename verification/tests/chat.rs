use protohax::chat::client::{name_is_ok, Client, Input, Stage};
use protohax::chat::message::{Event, Message};
use protohax::chat::room::Room;

fn join(room: &mut Room, id: usize, name: &str) -> (String, String) {
    let out = room.handle(Event::Join { id, name: name.to_string() });
    let msg = out.message.unwrap();
    assert_eq!(msg.id, id);
    (out.membership.unwrap(), msg.text)
}

#[test]
fn newcomers_are_told_who_is_there() {
    let mut room = Room::new();
    assert_eq!(room.also_here(), "* No one else is here.\n");
    assert_eq!(
        join(&mut room, 5, "bob"),
        ("* No one else is here.\n".to_string(), "* bob joins.\n".to_string())
    );
    assert_eq!(
        join(&mut room, 2, "alice"),
        ("* Also here: bob\n".to_string(), "* alice joins.\n".to_string())
    );
    // The list is in the order of the connections.
    assert_eq!(
        join(&mut room, 9, "charlie"),
        ("* Also here: alice, bob\n".to_string(), "* charlie joins.\n".to_string())
    );
    assert_eq!(room.also_here(), "* Also here: alice, bob, charlie\n");
}

#[test]
fn lines_carry_their_author() {
    let mut room = Room::new();
    join(&mut room, 0, "bob");
    assert!(room.contains(0) && !room.contains(1));
    let out = room.handle(Event::Text { id: 0, text: "hi alice\n".to_string() });
    let msg = out.message.unwrap();
    assert_eq!(msg.text, "[bob] hi alice\n");
    assert_eq!(msg.id, 0);
    assert!(out.membership.is_none());
}

#[test]
fn leaving_is_announced_once() {
    let mut room = Room::new();
    join(&mut room, 4, "bob");
    let out = room.handle(Event::Leave { id: 4 });
    assert_eq!(out.message.unwrap().text, "* bob leaves.\n");
    assert!(out.membership.is_none());
    let out = room.handle(Event::Leave { id: 4 });
    assert!(out.message.is_none());
    assert_eq!(room.also_here(), "* No one else is here.\n");
}

#[test]
fn names_are_alphanumeric() {
    assert!(name_is_ok("bob"));
    assert!(name_is_ok("B0b9azAZ"));
    assert!(name_is_ok("x"));
    assert!(!name_is_ok(""));
    assert!(!name_is_ok("bob jones"));
    assert!(!name_is_ok("b\u{f6}b"));
    assert!(!name_is_ok("bob\r"));
    assert!(!name_is_ok("@"));
    assert!(!name_is_ok("["));
    assert!(!name_is_ok("`"));
    assert!(!name_is_ok("{"));
    assert!(!name_is_ok("/"));
    assert!(!name_is_ok(":"));
}

type Parts = (Option<String>, Option<Event>, Option<Result<(), String>>);

fn step(c: &mut Client, input: Input) -> Parts {
    let a = c.handle(input);
    (a.write, a.send, a.end)
}

/// A client who has been asked for a name.
fn asked() -> Client {
    let mut c = Client::new(3);
    assert_eq!(c.stage, Stage::Connected);
    let (write, send, end) = step(&mut c, Input::Ready);
    assert_eq!(write.unwrap(), "Welcome. Please enter the name you'd like to use.\n");
    assert!(send.is_none() && end.is_none());
    assert_eq!(c.stage, Stage::Naming);
    c
}

fn joining() -> Client {
    let mut c = asked();
    let a = c.handle(Input::Name(Ok("bob\n".to_string())));
    assert!(a.resubscribe && a.write.is_none() && a.end.is_none());
    assert!(matches!(a.send, Some(Event::Join { id: 3, name }) if name == "bob"));
    assert_eq!(c.stage, Stage::Joining);
    c
}

fn inside() -> Client {
    let mut c = joining();
    let (write, send, end) = step(&mut c, Input::Membership(Ok("* Also here: al\n".to_string())));
    assert_eq!(write.unwrap(), "* Also here: al\n");
    assert!(send.is_none() && end.is_none());
    assert_eq!(c.stage, Stage::Inside);
    c
}

/// The error that an input ends the connection with.
fn ended(c: &mut Client, input: Input) -> Result<(), String> {
    let (write, send, end) = step(c, input);
    assert!(write.is_none());
    assert!(matches!(send, Some(Event::Leave { id: 3 })));
    assert_eq!(c.stage, Stage::Over);
    end.unwrap()
}

#[test]
fn names_lose_their_last_character() {
    let mut c = asked();
    let a = c.handle(Input::Name(Ok("bob".to_string())));
    assert!(matches!(a.send, Some(Event::Join { id: 3, name }) if name == "bo"));
}

#[test]
fn bad_names_are_refused() {
    for (line, quoted) in [("\n", "\"\""), ("", "\"\""), ("a b\n", "\"a b\""), ("a\"\n", "\"a\\\"\"")] {
        let mut c = asked();
        let (write, send, end) = step(&mut c, Input::Name(Ok(line.to_string())));
        assert_eq!(
            write.unwrap(),
            "Your name must consist of at least one ASCII alphanumeric character.\n"
        );
        assert!(matches!(send, Some(Event::Leave { id: 3 })));
        assert_eq!(end, Some(Err(format!("invalid name: {}", quoted))));
        assert_eq!(c.stage, Stage::Over);
    }
    assert_eq!(
        ended(&mut asked(), Input::Name(Err("reset".to_string()))),
        Err("read error: reset".to_string())
    );
}

fn said(line: &[u8]) -> String {
    match step(&mut inside(), Input::Line(line.to_vec())) {
        (None, Some(Event::Text { id: 3, text }), None) => text,
        other => panic!("{:?}", other),
    }
}

#[test]
fn lines_are_sent_to_the_room() {
    assert_eq!(said(b"hello\n"), "hello\n");
    assert_eq!(said(b"hello"), "hello\n");
    assert_eq!(said(b"\n"), "\n");
    assert_eq!(said(&[0xc3, 0xb6, 0xff, b'\n']), "\u{f6}\u{fffd}\n");
    assert_eq!(said("gr\u{fc}\u{df} dich".as_bytes()), "gr\u{fc}\u{df} dich\n");
    // The newline is not lost in what breaks off before it.
    for bytes in [&[0xe2, 0x82, b'\n'][..], &[0xe2, 0x82][..], &[b'a', 0xf0, 0x9f, 0x98, b'\n'][..]] {
        let mut line = bytes.to_vec();
        if line.last() != Some(&b'\n') {
            line.push(b'\n');
        }
        assert_eq!(said(bytes), String::from_utf8_lossy(&line));
    }
    assert_eq!(ended(&mut inside(), Input::Line(Vec::new())), Ok(()));
}

fn message(id: usize) -> Input {
    Input::Message(Message { id, text: "[x] hi\n".to_string() })
}

#[test]
fn own_messages_are_not_heard() {
    let mut c = inside();
    assert!(matches!(step(&mut c, message(3)), (None, None, None)));
    assert!(matches!(step(&mut c, message(4)), (Some(t), None, None) if t == "[x] hi\n"));
}

#[test]
fn outside_the_room_nothing_is_heard() {
    for mut c in [Client::new(3), asked(), joining()] {
        let stage = c.stage;
        assert!(matches!(step(&mut c, message(4)), (None, None, None)));
        assert!(matches!(step(&mut c, Input::Line(b"hi\n".to_vec())), (None, None, None)));
        assert_eq!(c.stage, stage);
    }
}

#[test]
fn lag_is_told() {
    assert!(matches!(
        step(&mut inside(), Input::Lagged(120)),
        (Some(t), None, None) if t == "Your connection has lagged and dropped 120 message(s)."
    ));
}

#[test]
fn chat_errors_end_the_connection() {
    let text = |s: &str| Err(s.to_string());
    assert_eq!(ended(&mut inside(), Input::Unread("a".to_string())), text("read error: a"));
    assert_eq!(ended(&mut inside(), Input::Unwritten("b".to_string())), text("write error: b"));
    assert_eq!(
        ended(&mut inside(), Input::Unsent("c".to_string())),
        text("unable to send event: c")
    );
    assert_eq!(ended(&mut inside(), Input::Closed), text("broadcast channel closed"));
    assert_eq!(
        ended(&mut joining(), Input::Unsent("d".to_string())),
        text("error sending Join event: d")
    );
    assert_eq!(
        ended(&mut joining(), Input::Membership(Err("e".to_string()))),
        text("error sending Join event: e")
    );
    assert_eq!(ended(&mut asked(), Input::Unwritten("f".to_string())), text("write error: f"));
    // Once it is over, nothing more is done.
    let mut c = inside();
    let _ = ended(&mut c, Input::Closed);
    assert!(matches!(step(&mut c, Input::Closed), (None, None, None)));
    assert!(matches!(step(&mut c, message(4)), (None, None, None)));
}

#[test]
fn a_conversation() {
    let mut room = Room::new();
    let mut users = [Client::new(0), Client::new(1)];
    let mut heard = [String::new(), String::new()];
    for (id, name) in [(0, "ann\n"), (1, "ben\n")] {
        users[id].handle(Input::Ready);
        let join = users[id].handle(Input::Name(Ok(name.to_string()))).send.unwrap();
        let out = room.handle(join);
        let text = users[id].handle(Input::Membership(Ok(out.membership.unwrap()))).write.unwrap();
        heard[id].push_str(&text);
        let msg = out.message.unwrap();
        for (c, h) in users.iter_mut().zip(heard.iter_mut()) {
            let told = Message { id: msg.id, text: msg.text.clone() };
            if let Some(text) = c.handle(Input::Message(told)).write {
                h.push_str(&text);
            }
        }
    }
    for (id, line) in [(0, "hi ben\n"), (1, "hi ann\n"), (0, "")] {
        let said = users[id].handle(Input::Line(line.as_bytes().to_vec())).send.unwrap();
        if let Event::Text { id, .. } = &said {
            assert!(room.contains(*id));
        }
        let msg = room.handle(said).message.unwrap();
        for (c, h) in users.iter_mut().zip(heard.iter_mut()) {
            let told = Message { id: msg.id, text: msg.text.clone() };
            if let Some(text) = c.handle(Input::Message(told)).write {
                h.push_str(&text);
            }
        }
    }
    assert_eq!(heard[0], "* No one else is here.\n* ben joins.\n[ben] hi ann\n");
    assert_eq!(heard[1], "* Also here: ann\n[ann] hi ben\n* ann leaves.\n");
}
