//! The chat server's driving nexus.

use std::collections::BTreeMap;

use vstd::prelude::*;
use vstd::std_specs::btree::{axiom_increasing_seq_meaning, increasing_seq};
use vstd::std_specs::cmp::OrdSpec;
use vstd::string::*;

use crate::chat::message::{Event, Happening, Message, Saying};

verus! {

/// The ids below a bound that are in the room, in increasing order.
pub open spec fn present(clients: Map<usize, Seq<char>>, below: nat) -> Seq<usize>
    decreases below,
{
    if below == 0 {
        Seq::empty()
    } else {
        let id = (below - 1) as usize;
        let rest = present(clients, (below - 1) as nat);
        if clients.contains_key(id) {
            rest.push(id)
        } else {
            rest
        }
    }
}

/// The ids in the room, in increasing order.
pub open spec fn everyone(clients: Map<usize, Seq<char>>) -> Seq<usize> {
    present(clients, (usize::MAX + 1) as nat)
}

/// The names that go with ids, with commas between them.
pub open spec fn names(clients: Map<usize, Seq<char>>, ids: Seq<usize>) -> Seq<char>
    decreases ids.len(),
{
    if ids.len() == 0 {
        Seq::empty()
    } else if ids.len() == 1 {
        clients[ids[0]]
    } else {
        names(clients, ids.drop_last()) + ", "@ + clients[ids.last()]
    }
}

/// What somebody who comes in is told of who is there.
pub open spec fn membership(clients: Map<usize, Seq<char>>) -> Seq<char> {
    if everyone(clients).len() == 0 {
        "* No one else is here.\n"@
    } else {
        "* Also here: "@ + names(clients, everyone(clients)) + "\n"@
    }
}

/// The room after an event.
pub open spec fn after(clients: Map<usize, Seq<char>>, h: Happening) -> Map<usize, Seq<char>> {
    match h {
        Happening::Join { id, name } => clients.insert(id, name),
        Happening::Leave { id } => clients.remove(id),
        Happening::Text { .. } => clients,
    }
}

/// What is told to everybody at an event. It is about the client whose id it
/// holds, who is not told.
pub open spec fn announcement(clients: Map<usize, Seq<char>>, h: Happening) -> Option<Saying> {
    match h {
        Happening::Join { id, name } => Some(Saying { id, text: "* "@ + name + " joins.\n"@ }),
        Happening::Leave { id } => if clients.contains_key(id) {
            Some(Saying { id, text: "* "@ + clients[id] + " leaves.\n"@ })
        } else {
            None
        },
        Happening::Text { id, text } => Some(
            Saying { id, text: "["@ + clients[id] + "] "@ + text },
        ),
    }
}

/// Whether `ids` are the ids in the room below a bound, in increasing order.
spec fn lists(clients: Map<usize, Seq<char>>, ids: Seq<usize>, below: int) -> bool {
    &&& forall|i: int, j: int| 0 <= i < j < ids.len() ==> ids[i] < ids[j]
    &&& forall|i: int| 0 <= i < ids.len() ==> clients.contains_key(#[trigger] ids[i]) && ids[i] < below
    &&& forall|k: usize| #[trigger] clients.contains_key(k) && k < below ==> ids.contains(k)
}

/// What increases does so by the order of numbers.
proof fn lemma_increasing(s: Seq<usize>)
    requires
        increasing_seq(s),
    ensures
        forall|i: int, j: int| 0 <= i < j < s.len() ==> s[i] < s[j],
{
    broadcast use axiom_increasing_seq_meaning;

    assert forall|i: int, j: int| 0 <= i < j < s.len() implies s[i] < s[j] by {
        assert(s[i].cmp_spec(&s[j]) is Less);
    }
}

/// There is one such list.
proof fn lemma_lists(clients: Map<usize, Seq<char>>, ids: Seq<usize>, below: nat)
    requires
        below <= usize::MAX + 1,
        lists(clients, ids, below as int),
    ensures
        ids == present(clients, below),
    decreases below,
{
    if below == 0 {
        if ids.len() > 0 {
            assert(clients.contains_key(ids[0]));
        }
        assert(ids =~= Seq::<usize>::empty());
    } else {
        let id = (below - 1) as usize;
        if clients.contains_key(id) {
            let i = ids.index_of(id);
            assert(ids[i] == id);
            let last = ids.len() - 1;
            assert(clients.contains_key(ids[last]));
            assert(i == last);
            let less = ids.drop_last();
            assert forall|k: usize| #[trigger] clients.contains_key(k) && k < below
                - 1 implies less.contains(k) by {
                let j = ids.index_of(k);
                assert(less[j] == k);
            }
            assert(lists(clients, less, below - 1));
            lemma_lists(clients, less, (below - 1) as nat);
            assert(ids =~= less.push(id));
        } else {
            assert(lists(clients, ids, below - 1));
            lemma_lists(clients, ids, (below - 1) as nat);
        }
    }
}

/// What the room does at an event.
pub struct Outcome {
    /// What the client who comes in is told of who is there.
    pub membership: Option<String>,
    /// What everybody is told.
    pub message: Option<Message>,
}

pub struct Room {
    /// Stores the names of connected clients.
    clients: BTreeMap<usize, String>,
}

impl View for Room {
    type V = Map<usize, Seq<char>>;

    closed spec fn view(&self) -> Map<usize, Seq<char>> {
        self.clients@.map_values(|s: String| s@)
    }
}

impl Room {
    /// A room with nobody in it.
    pub fn new() -> (r: Room)
        ensures
            r@ == Map::<usize, Seq<char>>::empty(),
    {
        let r = Room { clients: BTreeMap::new() };
        assert(r@ =~= Map::<usize, Seq<char>>::empty());
        r
    }

    /// Generate a list of names of clients currently connected.
    pub fn also_here(&self) -> (r: String)
        ensures
            r@ == membership(self@),
    {
        let mut list = String::from_str("* Also here: ");
        let mut any = false;
        let ghost mut ids: Seq<usize> = Seq::empty();
        assert(list@ =~= "* Also here: "@ + names(self@, ids));
        for kv in it: self.clients.iter()
            invariant
                any == (ids.len() > 0),
                ids.len() == it.index(),
                forall|i: int|
                    #![trigger ids[i]]
                    #![trigger it.seq()[i]]
                    0 <= i < it.index() ==> ids[i] == *it.seq()[i].0,
                increasing_seq(it.seq().map_values(|kv: (&usize, &String)| *kv.0)),
                forall|i: int, j: int| 0 <= i < j < ids.len() ==> ids[i] < ids[j],
                forall|k: usize| #[trigger]
                    self.clients@.contains_key(k) ==> exists|i: int|
                        0 <= i < it.seq().len() && *(#[trigger] it.seq()[i]).0 == k,
                list@ == "* Also here: "@ + names(self@, ids),
        {
            let ghost had = ids;
            if any {
                list.append(", ");
            }
            any = true;
            list.append(kv.1.as_str());
            proof {
                ids = ids.push(*kv.0);
                assert(ids.drop_last() =~= had);
                assert(self@[*kv.0] == kv.1@);
                let keys = it.seq().map_values(|kv: (&usize, &String)| *kv.0);
                lemma_increasing(keys);
                assert forall|i: int| 0 <= i < had.len() implies had[i] < *kv.0 by {
                    assert(keys[i] == had[i] && keys[it.index()] == *kv.0);
                }
                assert(list@ =~= "* Also here: "@ + names(self@, ids));
            }
        }
        proof {
            assert forall|k: usize| #[trigger] self@.contains_key(k) implies ids.contains(k) by {
                assert(self.clients@.contains_key(k));
            }
            lemma_lists(self@, ids, (usize::MAX + 1) as nat);
        }
        if !any {
            return String::from_str("* No one else is here.\n");
        }
        list.append("\n");
        assert(list@ =~= membership(self@));
        list
    }

    /// Takes an event, and tells what is to be said to whom. Only somebody who
    /// is in the room can speak.
    pub fn handle(&mut self, e: Event) -> (r: Outcome)
        requires
            e matches Event::Text { id, .. } ==> old(self)@.contains_key(id),
        ensures
            final(self)@ == after(old(self)@, e@),
            match r.message {
                Some(m) => announcement(old(self)@, e@) == Some(m@),
                None => announcement(old(self)@, e@) is None,
            },
            match r.membership {
                Some(text) => e is Join && text@ == membership(old(self)@),
                None => !(e is Join),
            },
    {
        let ghost before = self@;
        match e {
            Event::Text { id, text } => {
                let mut line = String::from_str("[");
                match self.clients.get(&id) {
                    Some(name) => {
                        line.append(name.as_str());
                    },
                    None => {},
                }
                line.append("] ");
                line.append(text.as_str());
                Outcome { membership: None, message: Some(Message { id, text: line }) }
            },
            Event::Join { id, name } => {
                let text = self.also_here();
                let mut line = String::from_str("* ");
                line.append(name.as_str());
                line.append(" joins.\n");
                self.clients.insert(id, name);
                assert(self@ =~= before.insert(id, name@));
                Outcome { membership: Some(text), message: Some(Message { id, text: line }) }
            },
            Event::Leave { id } => {
                let gone = self.clients.remove(&id);
                assert(self@ =~= before.remove(id));
                match gone {
                    Some(name) => {
                        let mut line = String::from_str("* ");
                        line.append(name.as_str());
                        line.append(" leaves.\n");
                        Outcome { membership: None, message: Some(Message { id, text: line }) }
                    },
                    None => Outcome { membership: None, message: None },
                }
            },
        }
    }

    /// Whether a client is in the room.
    pub fn contains(&self, id: usize) -> (r: bool)
        ensures
            r == self@.contains_key(id),
    {
        self.clients.contains_key(&id)
    }
}

/// Everybody in the room is on the list, and nobody else: the ids increase, and
/// each is that of somebody in the room.
pub proof fn law_everyone_is_listed(clients: Map<usize, Seq<char>>, below: nat)
    requires
        below <= usize::MAX + 1,
    ensures
        forall|i: int, j: int|
            0 <= i < j < present(clients, below).len() ==> present(clients, below)[i] < present(
                clients,
                below,
            )[j],
        forall|id: usize|
            #[trigger] present(clients, below).contains(id) <==> clients.contains_key(id) && id
                < below,
    decreases below,
{
    if below > 0 {
        let id = (below - 1) as usize;
        let rest = present(clients, (below - 1) as nat);
        law_everyone_is_listed(clients, (below - 1) as nat);
        assert forall|i: int| 0 <= i < rest.len() implies rest[i] < id by {
            assert(rest.contains(rest[i]));
        }
        let all = present(clients, below);
        assert forall|x: usize| #[trigger] all.contains(x) <==> clients.contains_key(x) && x
            < below by {
            if all.contains(x) {
                let i = all.index_of(x);
                if i < rest.len() {
                    assert(rest[i] == x);
                    assert(rest.contains(x));
                }
            }
            if clients.contains_key(x) && x < below {
                if x == id {
                    assert(all.last() == x);
                } else {
                    assert(rest.contains(x));
                    let i = rest.index_of(x);
                    assert(all[i] == x);
                }
            }
        }
    } else {
        assert forall|x: usize| !(#[trigger] present(clients, below).contains(x)) by {}
    }
}

/// Somebody who leaves is announced, and once only, by the name that they came
/// in with.
pub proof fn law_who_joins_leaves_once(
    clients: Map<usize, Seq<char>>,
    id: usize,
    name: Seq<char>,
)
    ensures
        ({
            let inside = after(clients, Happening::Join { id, name });
            let outside = after(inside, Happening::Leave { id });
            &&& announcement(inside, Happening::Leave { id }) == Some(
                Saying { id, text: "* "@ + name + " leaves.\n"@ },
            )
            &&& announcement(outside, Happening::Leave { id }) is None
            &&& outside == clients.remove(id)
        }),
{
    assert(clients.insert(id, name).remove(id) =~= clients.remove(id));
}

/// The list of one id is its name, and one more id adds a comma and its name.
pub proof fn law_lists_of_names(clients: Map<usize, Seq<char>>, ids: Seq<usize>, id: usize)
    ensures
        names(clients, Seq::empty()) == Seq::<char>::empty(),
        names(clients, seq![id]) == clients[id],
        ids.len() > 0 ==> names(clients, ids.push(id)) == names(clients, ids) + ", "@
            + clients[id],
{
    assert(ids.push(id).drop_last() =~= ids);
}

/// Everybody in the room is named to a newcomer, in the order of the ids, with
/// commas between the names; and where there is nobody, that is said.
pub proof fn law_everybody_is_named(clients: Map<usize, Seq<char>>, ids: Seq<usize>)
    requires
        forall|i: int, j: int| 0 <= i < j < ids.len() ==> ids[i] < ids[j],
        forall|id: usize| #[trigger] ids.contains(id) <==> clients.contains_key(id),
    ensures
        everyone(clients) == ids,
        ids.len() == 0 ==> membership(clients) == "* No one else is here.\n"@,
        ids.len() > 0 ==> membership(clients) == "* Also here: "@ + Seq::new(
            ids.len(),
            |i: int|
                if i == 0 {
                    clients[ids[0]]
                } else {
                    ", "@ + clients[ids[i]]
                },
        ).flatten() + "\n"@,
{
    assert forall|i: int| 0 <= i < ids.len() implies clients.contains_key(#[trigger] ids[i]) by {
        assert(ids.contains(ids[i]));
    }
    assert forall|k: usize| #[trigger] clients.contains_key(k) implies ids.contains(k) by {
        assert(ids.contains(k) <==> clients.contains_key(k));
    }
    lemma_lists(clients, ids, (usize::MAX + 1) as nat);
    lemma_names_are_joined(clients, ids);
}

/// The names of a list, put together.
proof fn lemma_names_are_joined(clients: Map<usize, Seq<char>>, ids: Seq<usize>)
    ensures
        names(clients, ids) == Seq::new(
            ids.len(),
            |i: int|
                if i == 0 {
                    clients[ids[0]]
                } else {
                    ", "@ + clients[ids[i]]
                },
        ).flatten(),
    decreases ids.len(),
{
    let parts = Seq::new(
        ids.len(),
        |i: int|
            if i == 0 {
                clients[ids[0]]
            } else {
                ", "@ + clients[ids[i]]
            },
    );
    parts.lemma_flatten_and_flatten_alt_are_equivalent();
    if ids.len() == 1 {
        assert(parts.drop_last() =~= Seq::<Seq<char>>::empty());
        assert(parts.last() == parts[0]);
        assert(parts.drop_last().flatten_alt() =~= Seq::<char>::empty());
        assert(parts.flatten_alt() =~= clients[ids[0]]);
    } else if ids.len() > 1 {
        let less = ids.drop_last();
        lemma_names_are_joined(clients, less);
        let fewer = Seq::new(
            less.len(),
            |i: int|
                if i == 0 {
                    clients[less[0]]
                } else {
                    ", "@ + clients[less[i]]
                },
        );
        fewer.lemma_flatten_and_flatten_alt_are_equivalent();
        assert(parts.drop_last() =~= fewer);
        assert(names(clients, ids) =~= parts.flatten_alt());
    }
}

/// Who is in the room after each event, and what is said of it: who joins is
/// in, who leaves is out, and a line stands behind its author's name in
/// brackets.
pub proof fn law_what_is_said(clients: Map<usize, Seq<char>>, id: usize, text: Seq<char>)
    ensures
        after(clients, Happening::Join { id, name: text }) == clients.insert(id, text),
        after(clients, Happening::Leave { id }) == clients.remove(id),
        after(clients, Happening::Text { id, text }) == clients,
        announcement(clients, Happening::Join { id, name: text }) == Some(
            Saying { id, text: "* "@ + text + " joins.\n"@ },
        ),
        clients.contains_key(id) ==> announcement(clients, Happening::Leave { id }) == Some(
            Saying { id, text: "* "@ + clients[id] + " leaves.\n"@ },
        ),
        !clients.contains_key(id) ==> announcement(clients, Happening::Leave { id }) is None,
        announcement(clients, Happening::Text { id, text }) == Some(
            Saying { id, text: "["@ + clients[id] + "] "@ + text },
        ),
{
}

} // verus!
