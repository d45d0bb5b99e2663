//! A service that echoes what it is sent.

use vstd::prelude::*;

verus! {

/// We'll read a kilobyte at a time.
pub const BUFFSIZE: usize = 1024;

/// What a connection waits for.
pub enum Input {
    /// Some bytes have been read; none means that there are no more.
    Data(Vec<u8>),
    /// There was nothing to read yet.
    WouldBlock,
    /// The socket cannot be read from.
    Unread,
    /// The socket could not be written to.
    Unwritten,
}

/// What is done on a connection.
pub struct Action {
    /// What is written into the socket.
    pub write: Option<Vec<u8>>,
    /// Whether the connection is closed.
    pub done: bool,
}

/// What is written at an input.
pub open spec fn echo(input: Input) -> Seq<u8> {
    match input {
        Input::Data(bytes) => bytes@,
        _ => Seq::empty(),
    }
}

/// Whether an input closes the connection.
pub open spec fn closes(input: Input) -> bool {
    match input {
        Input::Data(bytes) => bytes@.len() == 0,
        Input::WouldBlock => false,
        _ => true,
    }
}

/// Suck small mouthfuls out of a socket and spit them back until there's
/// no more data coming.
///
/// If we encounter any errors, we'll just give up and close the connection.
pub fn handle(input: Input) -> (r: Action)
    ensures
        r.done == closes(input),
        match r.write {
            Some(bytes) => bytes@ == echo(input) && bytes@.len() > 0,
            None => echo(input).len() == 0,
        },
{
    match input {
        Input::Data(bytes) => if bytes.len() == 0 {
            Action { write: None, done: true }
        } else {
            Action { write: Some(bytes), done: false }
        },
        // We'll try it again in a moment.
        Input::WouldBlock => Action { write: None, done: false },
        // Any other error, and we'll just give up.
        Input::Unread => Action { write: None, done: true },
        Input::Unwritten => Action { write: None, done: true },
    }
}

/// What is written over the life of a connection.
pub open spec fn echoed(inputs: Seq<Input>) -> Seq<u8>
    decreases inputs.len(),
{
    if inputs.len() == 0 {
        Seq::empty()
    } else if closes(inputs[0]) {
        echo(inputs[0])
    } else {
        echo(inputs[0]) + echoed(inputs.skip(1))
    }
}

/// All that is read over the life of a connection.
pub open spec fn received(inputs: Seq<Input>) -> Seq<u8>
    decreases inputs.len(),
{
    if inputs.len() == 0 {
        Seq::empty()
    } else {
        match inputs[0] {
            Input::Data(bytes) => bytes@ + received(inputs.skip(1)),
            _ => received(inputs.skip(1)),
        }
    }
}

/// All that comes before the connection is closed is sent back, unchanged and
/// in order.
pub proof fn law_everything_is_echoed(inputs: Seq<Input>)
    requires
        forall|i: int| 0 <= i < inputs.len() - 1 ==> !closes(#[trigger] inputs[i]),
    ensures
        echoed(inputs) == received(inputs),
    decreases inputs.len(),
{
    if inputs.len() > 0 {
        assert forall|i: int| 0 <= i < inputs.skip(1).len() - 1 implies !closes(
            #[trigger] inputs.skip(1)[i],
        ) by {
            assert(inputs.skip(1)[i] == inputs[i + 1]);
        }
        law_everything_is_echoed(inputs.skip(1));
        if inputs.len() == 1 {
            assert(echoed(inputs.skip(1)) =~= Seq::<u8>::empty());
        } else {
            assert(!closes(inputs[0]));
        }
        assert(echoed(inputs) =~= received(inputs));
    }
}

/// What is read is written back, byte for byte, and the connection goes on; at
/// the end of the data and at an error it is closed with nothing written.
pub proof fn law_echo(bytes: Vec<u8>)
    ensures
        echo(Input::Data(bytes)) == bytes@,
        closes(Input::Data(bytes)) <==> bytes@.len() == 0,
        echo(Input::WouldBlock).len() == 0 && !closes(Input::WouldBlock),
        echo(Input::Unread).len() == 0 && closes(Input::Unread),
        echo(Input::Unwritten).len() == 0 && closes(Input::Unwritten),
{
}

} // verus!
