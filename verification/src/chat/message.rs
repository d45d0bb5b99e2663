//! Types to get passed between the clients and the room.

use vstd::prelude::*;

verus! {

/// Chunks of information sent from a Client to the Room.
#[derive(Debug)]
pub enum Event {
    Join { id: usize, name: String },
    Leave { id: usize },
    Text { id: usize, text: String },
}

/// Lines of text to be sent from the Room to the Clients.
#[derive(Debug)]
pub struct Message {
    pub id: usize,
    pub text: String,
}

/// What an event says.
pub enum Happening {
    Join { id: usize, name: Seq<char> },
    Leave { id: usize },
    Text { id: usize, text: Seq<char> },
}

impl View for Event {
    type V = Happening;

    open spec fn view(&self) -> Happening {
        match self {
            Event::Join { id, name } => Happening::Join { id: *id, name: name@ },
            Event::Leave { id } => Happening::Leave { id: *id },
            Event::Text { id, text } => Happening::Text { id: *id, text: text@ },
        }
    }
}

/// What a message says, and who it is about.
pub struct Saying {
    pub id: usize,
    pub text: Seq<char>,
}

impl View for Message {
    type V = Saying;

    open spec fn view(&self) -> Saying {
        Saying { id: self.id, text: self.text@ }
    }
}

/// What events and messages say is what they hold.
pub proof fn law_what_values_stand_for(id: usize, text: String)
    ensures
        (Event::Join { id, name: text })@ == (Happening::Join { id, name: text@ }),
        (Event::Leave { id })@ == (Happening::Leave { id }),
        (Event::Text { id, text })@ == (Happening::Text { id, text: text@ }),
        (Message { id, text })@ == (Saying { id, text: text@ }),
{
}

} // verus!
