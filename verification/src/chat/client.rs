//! One connection: what the user is sent, and what the room is told.

use vstd::prelude::*;
use vstd::string::*;

use crate::bytes::NEWLINE;
use crate::chat::message::{Event, Happening, Message, Saying};
use crate::chat::room::{after, announcement};
use crate::text::{
    in_decimal, lemma_newline_at_the_end, push_decimal, quote, quoted, text_of, to_text,
};

verus! {

/// Whether a character is an ASCII letter or digit.
pub open spec fn alphanumeric(c: char) -> bool {
    ('0' <= c && c <= '9') || ('A' <= c && c <= 'Z') || ('a' <= c && c <= 'z')
}

/// Whether a name consists of more than zero ASCII alphanumerics.
pub open spec fn good_name(name: Seq<char>) -> bool {
    name.len() > 0 && forall|i: int| 0 <= i < name.len() ==> alphanumeric(#[trigger] name[i])
}

/// Ensure name consists of more than zero ASCII alphanumerics.
pub fn name_is_ok(name: &str) -> (r: bool)
    ensures
        r == good_name(name@),
{
    let n: usize = name.unicode_len();
    if n < 1 {
        return false;
    }
    let mut i: usize = 0;
    while i < n
        invariant
            i <= n,
            n == name@.len(),
            forall|j: int| 0 <= j < i ==> alphanumeric(#[trigger] name@[j]),
        decreases n - i,
    {
        let c = name.get_char(i);
        if !(('0' <= c && c <= '9') || ('A' <= c && c <= 'Z') || ('a' <= c && c <= 'z')) {
            assert(!alphanumeric(name@[i as int]));
            return false;
        }
        i = i + 1;
    }
    true
}

/// What the user who connects is sent.
pub open spec fn welcome() -> Seq<char> {
    "Welcome. Please enter the name you'd like to use.\n"@
}

/// What the user is sent whose name cannot be used.
pub open spec fn bad_name() -> Seq<char> {
    "Your name must consist of at least one ASCII alphanumeric character.\n"@
}

/// What a line is the name of: all of it but its last character, which should
/// be the newline.
pub open spec fn name_in(line: Seq<char>) -> Seq<char> {
    if line.len() == 0 {
        line
    } else {
        line.drop_last()
    }
}

/// A line with a newline at its end.
pub open spec fn completed(line: Seq<u8>) -> Seq<u8> {
    if line.len() > 0 && line.last() == NEWLINE {
        line
    } else {
        line.push(NEWLINE)
    }
}

/// A line without the newline at its end, if it has one.
pub open spec fn body(line: Seq<u8>) -> Seq<u8> {
    if line.len() > 0 && line.last() == NEWLINE {
        line.drop_last()
    } else {
        line
    }
}

/// What is told of a line: its text, with a newline at its end. The newline is
/// a character of its own, whatever bytes stand before it.
pub open spec fn line_text(line: Seq<u8>) -> Seq<char> {
    text_of(body(line)).push('\n')
}

/// What is told of a line ends in a newline, and is the text that the line,
/// completed, encodes, if it does encode one.
pub proof fn law_lines_are_told_as_they_are(line: Seq<u8>)
    ensures
        line_text(line).last() == '\n',
        vstd::utf8::valid_utf8(completed(line)) ==> line_text(line) == vstd::utf8::decode_utf8(
            completed(line),
        ),
{
    assert(completed(line).drop_last() =~= body(line));
    if vstd::utf8::valid_utf8(completed(line)) {
        lemma_newline_at_the_end(completed(line));
    }
}

/// How far a connection has come.
#[derive(Clone, Copy, Debug, PartialEq, Eq, Structural)]
pub enum Stage {
    /// The user has just connected.
    Connected,
    /// The user has been asked for a name.
    Naming,
    /// The room has been told the name, and has not answered.
    Joining,
    /// The user is in the room.
    Inside,
    /// The connection is over.
    Over,
}

/// What a connection waits for.
pub enum Input {
    /// The user can be written to.
    Ready,
    /// The line that the user has answered with, or the error in its place.
    Name(Result<String, String>),
    /// What the room says of who is there, or why it says nothing.
    Membership(Result<String, String>),
    /// A line from the user; it is empty where there will be no more.
    Line(Vec<u8>),
    /// The user cannot be read from.
    Unread(String),
    /// The user could not be written to.
    Unwritten(String),
    /// The room could not be told something.
    Unsent(String),
    /// What the room says to everybody.
    Message(Message),
    /// Messages were dropped because they came too fast.
    Lagged(u64),
    /// The room is closed.
    Closed,
}

/// What is done on a connection, in this order.
pub struct Action {
    /// What the user is sent.
    pub write: Option<String>,
    /// Whether to forget what the room has said up to now.
    pub resubscribe: bool,
    /// What the room is told.
    pub send: Option<Event>,
    /// Whether the connection is over, and with what error.
    pub end: Option<Result<(), String>>,
}

/// What is done on a connection, in the order of `Action`.
pub struct Deed {
    pub write: Option<Seq<char>>,
    pub resubscribe: bool,
    pub send: Option<Happening>,
    pub end: Option<Result<(), Seq<char>>>,
}

impl View for Action {
    type V = Deed;

    open spec fn view(&self) -> Deed {
        Deed {
            write: match self.write {
                Some(text) => Some(text@),
                None => None,
            },
            resubscribe: self.resubscribe,
            send: match self.send {
                Some(e) => Some(e@),
                None => None,
            },
            end: match self.end {
                Some(Ok(())) => Some(Ok(())),
                Some(Err(text)) => Some(Err(text@)),
                None => None,
            },
        }
    }
}

/// To do nothing.
pub open spec fn nothing() -> Deed {
    Deed { write: None, resubscribe: false, send: None, end: None }
}

/// To send the user a text.
pub open spec fn writes(text: Seq<char>) -> Deed {
    Deed { write: Some(text), ..nothing() }
}

/// To tell the room of something.
pub open spec fn tells(h: Happening) -> Deed {
    Deed { send: Some(h), ..nothing() }
}

/// To end the connection of the client with an id, and tell the room.
pub open spec fn leaves(id: usize, end: Result<(), Seq<char>>) -> Deed {
    Deed { send: Some(Happening::Leave { id }), end: Some(end), ..nothing() }
}

/// To end it because of an error.
pub open spec fn fails(id: usize, what: Seq<char>) -> Deed {
    leaves(id, Err(what))
}

/// What the client with an id does with what the room says once it is inside:
/// the user is sent it, unless it is about the client itself.
pub open spec fn heard(id: usize, m: Saying) -> Deed {
    if id != m.id {
        writes(m.text)
    } else {
        nothing()
    }
}

/// `what` with an error behind it.
fn report(what: &str, e: &str) -> (r: String)
    ensures
        r@ == what@ + e@,
{
    let mut text = String::from_str(what);
    text.append(e);
    text
}

/// A connection with a number of its own.
pub struct Client {
    pub id: usize,
    pub stage: Stage,
}

impl Client {
    /// What the client does at an input. What does not belong to its stage is
    /// passed over.
    pub open spec fn deed(self, input: Input) -> Deed {
        match (self.stage, input) {
            (Stage::Over, _) => nothing(),
            (_, Input::Unread(e)) => fails(self.id, "read error: "@ + e@),
            (_, Input::Unwritten(e)) => fails(self.id, "write error: "@ + e@),
            (Stage::Joining, Input::Unsent(e)) => fails(
                self.id,
                "error sending Join event: "@ + e@,
            ),
            (_, Input::Unsent(e)) => fails(self.id, "unable to send event: "@ + e@),
            (Stage::Connected, Input::Ready) => writes(welcome()),
            (Stage::Naming, Input::Name(Err(e))) => fails(self.id, "read error: "@ + e@),
            (Stage::Naming, Input::Name(Ok(line))) => if good_name(name_in(line@)) {
                Deed {
                    resubscribe: true,
                    ..tells(Happening::Join { id: self.id, name: name_in(line@) })
                }
            } else {
                Deed {
                    write: Some(bad_name()),
                    ..fails(self.id, "invalid name: "@ + quoted(name_in(line@)))
                }
            },
            (Stage::Joining, Input::Membership(Ok(text))) => writes(text@),
            (Stage::Joining, Input::Membership(Err(e))) => fails(
                self.id,
                "error sending Join event: "@ + e@,
            ),
            (Stage::Inside, Input::Line(line)) => if line@.len() == 0 {
                leaves(self.id, Ok(()))
            } else {
                tells(Happening::Text { id: self.id, text: line_text(line@) })
            },
            (Stage::Inside, Input::Message(m)) => heard(self.id, m@),
            (Stage::Inside, Input::Lagged(n)) => writes(
                "Your connection has lagged and dropped "@ + in_decimal(n as nat)
                    + " message(s)."@,
            ),
            (Stage::Inside, Input::Closed) => fails(self.id, "broadcast channel closed"@),
            _ => nothing(),
        }
    }

    /// The client after an input.
    pub open spec fn after(self, input: Input) -> Client {
        Client {
            stage: if self.deed(input).end is Some {
                Stage::Over
            } else {
                match (self.stage, input) {
                    (Stage::Connected, Input::Ready) => Stage::Naming,
                    (Stage::Naming, Input::Name(_)) => Stage::Joining,
                    (Stage::Joining, Input::Membership(_)) => Stage::Inside,
                    _ => self.stage,
                }
            },
            ..self
        }
    }

    /// The client of a connection.
    pub fn new(id: usize) -> (r: Client)
        ensures
            r == (Client { id, stage: Stage::Connected }),
    {
        Client { id, stage: Stage::Connected }
    }

    /// To do nothing.
    fn rest(&self) -> (r: Action)
        ensures
            r@ == nothing(),
    {
        Action { write: None, resubscribe: false, send: None, end: None }
    }

    /// To send the user a text.
    fn write(&self, text: String) -> (r: Action)
        ensures
            r@ == writes(text@),
    {
        Action { write: Some(text), resubscribe: false, send: None, end: None }
    }

    /// Ends the connection because of an error.
    fn fail(&mut self, what: &str, e: &str) -> (r: Action)
        ensures
            *final(self) == (Client { stage: Stage::Over, ..*old(self) }),
            r@ == fails(old(self).id, what@ + e@),
    {
        self.stage = Stage::Over;
        Action {
            write: None,
            resubscribe: false,
            send: Some(Event::Leave { id: self.id }),
            end: Some(Err(report(what, e))),
        }
    }

    /// Validates the name that the user has answered with.
    fn get_name(&mut self, line: String) -> (r: Action)
        requires
            old(self).stage == Stage::Naming,
        ensures
            *final(self) == old(self).after(Input::Name(Ok(line))),
            r@ == old(self).deed(Input::Name(Ok(line))),
    {
        // If the read happened properly, this should end with a newline we
        // want to remove.
        let n: usize = line.as_str().unicode_len();
        let name = if n == 0 {
            String::new()
        } else {
            String::from_str(line.as_str().substring_char(0, n - 1))
        };
        assert(name@ =~= name_in(line@));
        if name_is_ok(name.as_str()) {
            self.stage = Stage::Joining;
            Action {
                write: None,
                resubscribe: true,
                send: Some(Event::Join { id: self.id, name }),
                end: None,
            }
        } else {
            let shown = quote(name.as_str());
            let failed = self.fail("invalid name: ", shown.as_str());
            Action {
                write: Some(
                    String::from_str(
                        "Your name must consist of at least one ASCII alphanumeric character.\n",
                    ),
                ),
                resubscribe: failed.resubscribe,
                send: failed.send,
                end: failed.end,
            }
        }
    }

    /// Takes a line of the user who is in the room.
    fn take_line(&mut self, line: Vec<u8>) -> (r: Action)
        requires
            old(self).stage == Stage::Inside,
        ensures
            *final(self) == old(self).after(Input::Line(line)),
            r@ == old(self).deed(Input::Line(line)),
    {
        if line.len() == 0 {
            self.stage = Stage::Over;
            return Action {
                write: None,
                resubscribe: false,
                send: Some(Event::Leave { id: self.id }),
                end: Some(Ok(())),
            };
        }
        // Every line has to end with a newline. If we encountered EOF during
        // this read, it might be missing; if not, we put it back.
        let n: usize = line.len();
        let mut text = if line[n - 1] == NEWLINE {
            to_text(&line.as_slice()[0..n - 1])
        } else {
            to_text(line.as_slice())
        };
        assert(line@.subrange(0, n - 1) =~= line@.drop_last());
        text.push('\n');
        Action {
            write: None,
            resubscribe: false,
            send: Some(Event::Text { id: self.id, text }),
            end: None,
        }
    }

    /// Takes an input, and tells what is to be done.
    pub fn handle(&mut self, input: Input) -> (r: Action)
        ensures
            *final(self) == old(self).after(input),
            r@ == old(self).deed(input),
            match (old(self).stage, input) {
                (Stage::Inside, Input::Line(line)) => line@.len() > 0 && vstd::utf8::valid_utf8(
                    completed(line@),
                ) ==> r@.send == Some(
                    Happening::Text {
                        id: old(self).id,
                        text: vstd::utf8::decode_utf8(completed(line@)),
                    },
                ),
                _ => true,
            },
    {
        if let Stage::Over = self.stage {
            return self.rest();
        }
        match input {
            Input::Unread(e) => self.fail("read error: ", e.as_str()),
            Input::Unwritten(e) => self.fail("write error: ", e.as_str()),
            Input::Unsent(e) => match self.stage {
                Stage::Joining => self.fail("error sending Join event: ", e.as_str()),
                _ => self.fail("unable to send event: ", e.as_str()),
            },
            Input::Ready => match self.stage {
                Stage::Connected => {
                    self.stage = Stage::Naming;
                    self.write(
                        String::from_str("Welcome. Please enter the name you'd like to use.\n"),
                    )
                },
                _ => self.rest(),
            },
            Input::Name(answer) => match self.stage {
                Stage::Naming => match answer {
                    Ok(line) => self.get_name(line),
                    Err(e) => self.fail("read error: ", e.as_str()),
                },
                _ => self.rest(),
            },
            Input::Membership(answer) => match self.stage {
                Stage::Joining => match answer {
                    Ok(text) => {
                        self.stage = Stage::Inside;
                        self.write(text)
                    },
                    Err(e) => self.fail("error sending Join event: ", e.as_str()),
                },
                _ => self.rest(),
            },
            Input::Line(line) => {
                proof {
                    law_lines_are_told_as_they_are(line@);
                }
                match self.stage {
                    Stage::Inside => self.take_line(line),
                    _ => self.rest(),
                }
            },
            Input::Message(m) => match self.stage {
                Stage::Inside => if self.id != m.id {
                    self.write(m.text)
                } else {
                    self.rest()
                },
                _ => self.rest(),
            },
            Input::Lagged(n) => match self.stage {
                Stage::Inside => {
                    let mut text = String::from_str("Your connection has lagged and dropped ");
                    push_decimal(&mut text, n);
                    text.append(" message(s).");
                    self.write(text)
                },
                _ => self.rest(),
            },
            Input::Closed => match self.stage {
                Stage::Inside => {
                    let end = self.fail("broadcast channel closed", "");
                    proof {
                        reveal_strlit("");
                        assert("broadcast channel closed"@ + ""@ =~= "broadcast channel closed"@);
                    }
                    end
                },
                _ => self.rest(),
            },
        }
    }
}

/// A line reaches everybody else in the room under the name of its author, and
/// not the author.
pub proof fn law_lines_reach_the_others(
    clients: Map<usize, Seq<char>>,
    author: Client,
    other: Client,
    line: Vec<u8>,
)
    requires
        clients.contains_key(author.id),
        author.stage == Stage::Inside,
        other.stage == Stage::Inside,
        other.id != author.id,
        line@.len() > 0,
    ensures
        ({
            let said = author.deed(Input::Line(line)).send->Some_0;
            let told = announcement(clients, said)->Some_0;
            &&& author.deed(Input::Line(line)).send is Some
            &&& announcement(clients, said) is Some
            &&& after(clients, said) == clients
            &&& forall|m: Message|
                m@ == told ==> (#[trigger] author.deed(Input::Message(m))).write is None
            &&& forall|m: Message|
                m@ == told ==> (#[trigger] other.deed(Input::Message(m))).write == Some(
                    "["@ + clients[author.id] + "] "@ + line_text(line@),
                )
        }),
{
}

/// Who comes in is announced to everybody else, and not to themselves.
pub proof fn law_comings_are_announced(
    clients: Map<usize, Seq<char>>,
    id: usize,
    other: usize,
    name: Seq<char>,
)
    requires
        other != id,
    ensures
        ({
            let told = announcement(clients, Happening::Join { id, name })->Some_0;
            &&& announcement(clients, Happening::Join { id, name }) is Some
            &&& heard(id, told).write is None
            &&& heard(other, told).write == Some("* "@ + name + " joins.\n"@)
        }),
{
}

/// Nobody hears what is said in the room, or speaks there, who is not in it.
pub proof fn law_only_those_inside_hear_and_speak(c: Client, m: Message, input: Input)
    requires
        c.stage != Stage::Inside,
    ensures
        c.deed(Input::Message(m)) == nothing(),
        !(c.deed(input).send matches Some(Happening::Text { .. })),
{
}

/// Who joins has a good name.
pub proof fn law_only_good_names_join(c: Client, input: Input)
    ensures
        c.deed(input).send matches Some(Happening::Join { id, name }) ==> id == c.id && good_name(
            name,
        ) && c.stage == Stage::Naming,
{
}

/// The room is told that a client leaves when its connection ends, and only
/// then; after that the client does nothing more.
pub proof fn law_leaving_is_told_once(c: Client, input: Input, later: Input)
    ensures
        c.deed(input).end is Some <==> c.deed(input).send == Some(Happening::Leave { id: c.id }),
        c.deed(input).end is Some ==> c.after(input).stage == Stage::Over,
        c.deed(input).end is Some ==> c.after(input).deed(later) == nothing(),
{
}

/// Whether the room knows a client who counts on it.
pub open spec fn known(clients: Map<usize, Seq<char>>, c: Client) -> bool {
    c.stage == Stage::Joining || c.stage == Stage::Inside ==> clients.contains_key(c.id)
}

/// The room once it has been told what a client tells it, if anything.
pub open spec fn told(clients: Map<usize, Seq<char>>, d: Deed) -> Map<usize, Seq<char>> {
    match d.send {
        Some(h) => after(clients, h),
        None => clients,
    }
}

/// As long as the room is told what its clients tell it, it knows those who
/// are in it: nobody speaks there whom it does not know, and what one client
/// does takes no other out of it.
pub proof fn law_the_room_knows_who_speaks(
    clients: Map<usize, Seq<char>>,
    c: Client,
    input: Input,
    other: Client,
)
    requires
        known(clients, c),
    ensures
        c.deed(input).send matches Some(Happening::Text { id, .. }) ==> clients.contains_key(id),
        known(told(clients, c.deed(input)), c.after(input)),
        other.id != c.id && known(clients, other) ==> known(told(clients, c.deed(input)), other),
{
}

/// Which names are good: those of one character or more, all of them from `0`
/// to `9`, from `A` to `Z` or from `a` to `z`. A line is the name of all but
/// its last character.
pub proof fn law_good_names(name: Seq<char>)
    ensures
        good_name(name) <==> name.len() > 0 && forall|i: int|
            0 <= i < name.len() ==> {
                ||| '0' <= #[trigger] name[i] && name[i] <= '9'
                ||| 'A' <= name[i] && name[i] <= 'Z'
                ||| 'a' <= name[i] && name[i] <= 'z'
            },
        name_in(Seq::empty()) == Seq::<char>::empty(),
        name.len() > 0 ==> name_in(name).len() == name.len() - 1 && name_in(name) == name.take(
            name.len() - 1,
        ),
{
    if name.len() > 0 {
        assert(name_in(name) =~= name.take(name.len() - 1));
    }
}

/// What is told of a line: the text of what stands before its newline, or of
/// all of it where it has none, and a newline.
pub proof fn law_what_is_told_of_a_line(line: Seq<u8>)
    ensures
        line_text(line.push(10)) == text_of(line).push('\n'),
        line.len() == 0 || line.last() != 10 ==> line_text(line) == text_of(line).push('\n'),
        line.len() == 0 || line.last() != 10 ==> line_text(line.push(10)) == line_text(line),
{
    assert(line.push(10).drop_last() =~= line);
}

/// What a client does at each stage.
pub proof fn law_stages(c: Client, name: String, text: String, line: Vec<u8>, m: Message, n: u64)
    ensures
        c.stage is Connected ==> {
            &&& c.deed(Input::Ready).write == Some(welcome())
            &&& c.deed(Input::Ready).send is None && c.deed(Input::Ready).end is None
            &&& c.after(Input::Ready) == (Client { stage: Stage::Naming, ..c })
        },
        c.stage is Naming && good_name(name_in(name@)) ==> {
            let d = c.deed(Input::Name(Ok(name)));
            &&& d.send == Some(Happening::Join { id: c.id, name: name_in(name@) })
            &&& d.resubscribe && d.write is None && d.end is None
            &&& c.after(Input::Name(Ok(name))) == (Client { stage: Stage::Joining, ..c })
        },
        c.stage is Naming && !good_name(name_in(name@)) ==> {
            let d = c.deed(Input::Name(Ok(name)));
            &&& d.send == Some(Happening::Leave { id: c.id })
            &&& d.write == Some(bad_name())
            &&& d.end is Some && d.end->Some_0 is Err
            &&& c.after(Input::Name(Ok(name))) == (Client { stage: Stage::Over, ..c })
        },
        c.stage is Joining ==> {
            let d = c.deed(Input::Membership(Ok(text)));
            &&& d.write == Some(text@)
            &&& d.send is None && d.end is None && !d.resubscribe
            &&& c.after(Input::Membership(Ok(text))) == (Client { stage: Stage::Inside, ..c })
        },
        c.stage is Inside && line@.len() > 0 ==> {
            let d = c.deed(Input::Line(line));
            &&& d.send == Some(Happening::Text { id: c.id, text: line_text(line@) })
            &&& d.write is None && d.end is None
            &&& c.after(Input::Line(line)) == c
        },
        c.stage is Inside && line@.len() == 0 ==> {
            let d = c.deed(Input::Line(line));
            &&& d.send == Some(Happening::Leave { id: c.id })
            &&& d.write is None && d.end == Some(Ok::<(), Seq<char>>(()))
            &&& c.after(Input::Line(line)) == (Client { stage: Stage::Over, ..c })
        },
        c.stage is Inside ==> {
            let d = c.deed(Input::Message(m));
            &&& m.id != c.id ==> d.write == Some(m.text@)
            &&& m.id == c.id ==> d.write is None
            &&& d.send is None && d.end is None
            &&& c.after(Input::Message(m)) == c
        },
        c.stage is Inside ==> {
            let d = c.deed(Input::Lagged(n));
            &&& d.write == Some(
                "Your connection has lagged and dropped "@ + in_decimal(n as nat)
                    + " message(s)."@,
            )
            &&& d.send is None && d.end is None
            &&& c.after(Input::Lagged(n)) == c
        },
        !(c.stage is Over) ==> {
            &&& c.deed(Input::Unread(text)).end == Some(
                Err::<(), Seq<char>>("read error: "@ + text@),
            )
            &&& c.deed(Input::Unwritten(text)).end == Some(
                Err::<(), Seq<char>>("write error: "@ + text@),
            )
            &&& c.deed(Input::Unsent(text)).end is Some
            &&& c.deed(Input::Unread(text)).send == Some(Happening::Leave { id: c.id })
            &&& c.deed(Input::Unwritten(text)).send == Some(Happening::Leave { id: c.id })
            &&& c.deed(Input::Unsent(text)).send == Some(Happening::Leave { id: c.id })
        },
{
}

/// What is to be done is what a deed says.
pub proof fn law_what_actions_stand_for(a: Action, text: String, e: Event)
    ensures
        a.write == Some(text) ==> a@.write == Some(text@),
        a.write is None ==> a@.write is None,
        a@.resubscribe == a.resubscribe,
        a.send == Some(e) ==> a@.send == Some(e@),
        a.send is None ==> a@.send is None,
        a.end is None ==> a@.end is None,
        a.end == Some(Ok::<(), String>(())) ==> a@.end == Some(Ok::<(), Seq<char>>(())),
        a.end == Some(Err::<(), String>(text)) ==> a@.end == Some(Err::<(), Seq<char>>(text@)),
{
}

/// How connections end early, and that what does not belong to a stage is
/// passed over.
pub proof fn law_endings(c: Client, e: String, line: Vec<u8>, m: Message, n: u64, input: Input)
    ensures
        c.stage is Naming ==> c.deed(Input::Name(Err(e))).end == Some(
            Err::<(), Seq<char>>("read error: "@ + e@),
        ),
        c.stage is Joining ==> c.deed(Input::Membership(Err(e))).end == Some(
            Err::<(), Seq<char>>("error sending Join event: "@ + e@),
        ) && c.deed(Input::Unsent(e)).end == Some(
            Err::<(), Seq<char>>("error sending Join event: "@ + e@),
        ),
        !(c.stage is Joining) && !(c.stage is Over) ==> c.deed(Input::Unsent(e)).end == Some(
            Err::<(), Seq<char>>("unable to send event: "@ + e@),
        ),
        c.stage is Inside ==> c.deed(Input::Closed).end == Some(
            Err::<(), Seq<char>>("broadcast channel closed"@),
        ),
        c.stage is Naming && !good_name(name_in(e@)) ==> c.deed(Input::Name(Ok(e))).end == Some(
            Err::<(), Seq<char>>("invalid name: "@ + quoted(name_in(e@))),
        ),
        !(c.stage is Inside) ==> {
            &&& c.deed(Input::Line(line)) == nothing() && c.after(Input::Line(line)) == c
            &&& c.deed(Input::Message(m)) == nothing() && c.after(Input::Message(m)) == c
            &&& c.deed(Input::Lagged(n)) == nothing() && c.after(Input::Lagged(n)) == c
            &&& c.deed(Input::Closed) == nothing() && c.after(Input::Closed) == c
        },
        !(c.stage is Connected) ==> c.deed(Input::Ready) == nothing() && c.after(Input::Ready) == c,
        !(c.stage is Naming) ==> c.deed(Input::Name(Ok(e))) == nothing() && c.deed(
            Input::Name(Err(e)),
        ) == nothing(),
        !(c.stage is Joining) ==> c.deed(Input::Membership(Ok(e))) == nothing() && c.deed(
            Input::Membership(Err(e)),
        ) == nothing(),
        c.stage is Over ==> c.deed(input) == nothing() && c.after(input) == c,
{
}

} // verus!
