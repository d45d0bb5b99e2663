//! What holds of a connection from its beginning to its end.

use vstd::prelude::*;

use crate::chat::client::{
    good_name, line_text, name_in, welcome, Client, Deed, Input, Stage,
};
use crate::chat::message::Happening;

verus! {

/// What a client does at one input after another.
pub open spec fn deeds(c: Client, inputs: Seq<Input>) -> Seq<Deed>
    decreases inputs.len(),
{
    if inputs.len() == 0 {
        Seq::empty()
    } else {
        seq![c.deed(inputs[0])] + deeds(c.after(inputs[0]), inputs.skip(1))
    }
}

/// What the room is told, in order.
pub open spec fn sent(ds: Seq<Deed>) -> Seq<Happening>
    decreases ds.len(),
{
    if ds.len() == 0 {
        Seq::empty()
    } else {
        match ds[0].send {
            Some(h) => seq![h] + sent(ds.skip(1)),
            None => sent(ds.skip(1)),
        }
    }
}

/// What the user is sent, in order.
pub open spec fn written(ds: Seq<Deed>) -> Seq<Seq<char>>
    decreases ds.len(),
{
    if ds.len() == 0 {
        Seq::empty()
    } else {
        match ds[0].write {
            Some(text) => seq![text] + written(ds.skip(1)),
            None => written(ds.skip(1)),
        }
    }
}

/// Whether an input is part of a conversation: a line of the user, or what the
/// room says.
pub open spec fn talk(input: Input) -> bool {
    match input {
        Input::Line(line) => line@.len() > 0,
        Input::Message(_) => true,
        _ => false,
    }
}

/// A line of a conversation as the room is told it, for each line, in order.
pub open spec fn lines(id: usize, inputs: Seq<Input>) -> Seq<Happening>
    decreases inputs.len(),
{
    if inputs.len() == 0 {
        Seq::empty()
    } else {
        match inputs[0] {
            Input::Line(line) => seq![Happening::Text { id, text: line_text(line@) }] + lines(
                id,
                inputs.skip(1),
            ),
            _ => lines(id, inputs.skip(1)),
        }
    }
}

/// What the room says in a conversation of others than the client with an id,
/// in order.
pub open spec fn of_others(id: usize, inputs: Seq<Input>) -> Seq<Seq<char>>
    decreases inputs.len(),
{
    if inputs.len() == 0 {
        Seq::empty()
    } else {
        match inputs[0] {
            Input::Message(m) => if m.id != id {
                seq![m.text@] + of_others(id, inputs.skip(1))
            } else {
                of_others(id, inputs.skip(1))
            },
            _ => of_others(id, inputs.skip(1)),
        }
    }
}

/// What is done at a first input comes before what is done at the others.
proof fn lemma_first_deed(c: Client, inputs: Seq<Input>)
    requires
        inputs.len() > 0,
    ensures
        ({
            let d = c.deed(inputs[0]);
            let rest = deeds(c.after(inputs[0]), inputs.skip(1));
            &&& sent(deeds(c, inputs)) == match d.send {
                Some(h) => seq![h] + sent(rest),
                None => sent(rest),
            }
            &&& written(deeds(c, inputs)) == match d.write {
                Some(text) => seq![text] + written(rest),
                None => written(rest),
            }
        }),
{
    assert(deeds(c, inputs).skip(1) =~= deeds(c.after(inputs[0]), inputs.skip(1)));
}

/// A conversation comes out in order, and leaves the client inside.
proof fn lemma_talk(c: Client, inputs: Seq<Input>, rest: Seq<Input>)
    requires
        c.stage == Stage::Inside,
        forall|i: int| 0 <= i < inputs.len() ==> talk(#[trigger] inputs[i]),
    ensures
        sent(deeds(c, inputs + rest)) == lines(c.id, inputs) + sent(deeds(c, rest)),
        written(deeds(c, inputs + rest)) == of_others(c.id, inputs) + written(deeds(c, rest)),
    decreases inputs.len(),
{
    let all = inputs + rest;
    if inputs.len() == 0 {
        assert(all =~= rest);
        assert(sent(deeds(c, all)) =~= lines(c.id, inputs) + sent(deeds(c, rest)));
        assert(written(deeds(c, all)) =~= of_others(c.id, inputs) + written(deeds(c, rest)));
    } else {
        assert(talk(inputs[0]));
        assert(c.after(inputs[0]) == c);
        assert(all.skip(1) =~= inputs.skip(1) + rest);
        assert forall|i: int| 0 <= i < inputs.skip(1).len() implies talk(
            #[trigger] inputs.skip(1)[i],
        ) by {
            assert(inputs.skip(1)[i] == inputs[i + 1]);
        }
        lemma_talk(c, inputs.skip(1), rest);
        lemma_first_deed(c, all);
        assert(sent(deeds(c, all)) =~= lines(c.id, inputs) + sent(deeds(c, rest)));
        assert(written(deeds(c, all)) =~= of_others(c.id, inputs) + written(deeds(c, rest)));
    }
}

/// A whole run of a client whose name is good: the room is told that it joins,
/// once and first, then each line of the user in order, and at the end that it
/// leaves. The user is sent the welcome, who is there, and of what the room
/// says exactly what is not about the client itself, in order.
pub proof fn law_a_whole_run(
    id: usize,
    name: String,
    membership: String,
    conversation: Seq<Input>,
    eof: Vec<u8>,
)
    requires
        good_name(name_in(name@)),
        forall|i: int| 0 <= i < conversation.len() ==> talk(#[trigger] conversation[i]),
        eof@.len() == 0,
    ensures
        ({
            let c = Client { id, stage: Stage::Connected };
            let start = seq![Input::Ready, Input::Name(Ok(name)), Input::Membership(Ok(membership))];
            let ds = deeds(c, start + conversation + seq![Input::Line(eof)]);
            &&& sent(ds) == seq![Happening::Join { id, name: name_in(name@) }] + lines(
                id,
                conversation,
            ) + seq![Happening::Leave { id }]
            &&& written(ds) == seq![welcome(), membership@] + of_others(id, conversation)
        }),
{
    let c = Client { id, stage: Stage::Connected };
    let start = seq![Input::Ready, Input::Name(Ok(name)), Input::Membership(Ok(membership))];
    let end = seq![Input::Line(eof)];
    let all = start + conversation + end;
    let c1 = c.after(all[0]);
    let c2 = c1.after(all[1]);
    let c3 = c2.after(all[2]);
    lemma_first_deed(c, all);
    lemma_first_deed(c1, all.skip(1));
    lemma_first_deed(c2, all.skip(1).skip(1));
    assert(all.skip(1).skip(1).skip(1) =~= conversation + end);
    lemma_talk(c3, conversation, end);
    lemma_first_deed(c3, end);
    assert(end.skip(1) =~= Seq::<Input>::empty());
    let over = c3.after(end[0]);
    assert(deeds(over, Seq::empty()) =~= Seq::<Deed>::empty());
    assert(sent(deeds(over, Seq::empty())) =~= Seq::<Happening>::empty());
    assert(written(deeds(over, Seq::empty())) =~= Seq::<Seq<char>>::empty());
    let ds = deeds(c, all);
    assert(sent(ds) =~= seq![Happening::Join { id, name: name_in(name@) }] + lines(
        id,
        conversation,
    ) + seq![Happening::Leave { id }]);
    assert(written(ds) =~= seq![welcome(), membership@] + of_others(id, conversation));
}

/// Each line that the room is told in a conversation is one of the client, and
/// ends in a newline.
pub proof fn law_lines_end_in_a_newline(id: usize, inputs: Seq<Input>)
    ensures
        forall|i: int|
            0 <= i < lines(id, inputs).len() ==> {
                &&& (#[trigger] lines(id, inputs)[i]) is Text
                &&& lines(id, inputs)[i]->Text_id == id
                &&& lines(id, inputs)[i]->Text_text.last() == '\n'
            },
    decreases inputs.len(),
{
    if inputs.len() > 0 {
        let rest = lines(id, inputs.skip(1));
        law_lines_end_in_a_newline(id, inputs.skip(1));
        if let Input::Line(line) = inputs[0] {
            let all = lines(id, inputs);
            assert forall|i: int| 0 <= i < all.len() implies (#[trigger] all[i]) is Text
                && all[i]->Text_id == id && all[i]->Text_text.last() == '\n' by {
                if i > 0 {
                    assert(all[i] == rest[i - 1]);
                }
            }
        }
    }
}

} // verus!
