//! A key/value store that is accessed by datagrams.

use vstd::prelude::*;

use crate::bytes::{ascii, ascii_bytes, lemma_seek, lemma_seek_is, position, same, seek};
use crate::table::Table;

verus! {

/// Size of buffer to hold requests. Requests will be shorter than 1000 bytes.
pub const BUFFSIZE: usize = 1000;

/// `=`
pub const EQUALS: u8 = 61;

/// Our response to a "version" request.
pub open spec fn version() -> Seq<u8> {
    ascii("version=Mr Ken's Wild UDP Ride, v 0.1"@)
}

/// The key that our version has.
pub open spec fn version_key() -> Seq<u8> {
    ascii("version"@)
}

/// Array large enough to hold any legal request.
pub type Buffer = [u8; BUFFSIZE];

/// Constructor for the `Buffer` type that creates zeroed Buffers.
pub fn buffer() -> (r: Buffer)
    ensures
        r@ == Seq::new(BUFFSIZE as nat, |i: int| 0u8),
{
    let r = [0u8; BUFFSIZE];
    assert(r@ =~= Seq::new(BUFFSIZE as nat, |i: int| 0u8));
    r
}

/// This struct carries both requests to the store from the socket, and
/// responses back in the other direction.
pub struct Msg<A> {
    /// Contains the request or response data.
    pub bytes: Buffer,
    /// Contains the _length_ of the data in the `bytes` buffer.
    pub length: usize,
    /// The address from which the request came, and hence the address to
    /// which to send the response.
    pub addr: A,
}

impl<A> Msg<A> {
    /// Whether the data lies inside the buffer.
    pub open spec fn wf(&self) -> bool {
        self.length <= BUFFSIZE
    }

    /// The request or the response.
    pub open spec fn data(&self) -> Seq<u8> {
        self.bytes@.take(self.length as int)
    }
}

/// An entry as it is written in requests and responses.
pub open spec fn entry(key: Seq<u8>, val: Seq<u8>) -> Seq<u8> {
    key + seq![EQUALS] + val
}

/// The store after a request: one with an equals sign associates what stands
/// after the first with what stands before it. The version cannot be set.
pub open spec fn after(store: Map<Seq<u8>, Seq<u8>>, request: Seq<u8>) -> Map<Seq<u8>, Seq<u8>> {
    let n = seek(request, EQUALS, 0);
    if n >= request.len() || request.take(n) == version_key() {
        store
    } else {
        store.insert(request.take(n), request.skip(n + 1))
    }
}

/// What a request is answered: one without an equals sign asks for the value
/// of a key. There is no answer where it has none.
pub open spec fn answer(store: Map<Seq<u8>, Seq<u8>>, request: Seq<u8>) -> Option<Seq<u8>> {
    if request == version_key() {
        Some(version())
    } else if seek(request, EQUALS, 0) < request.len() {
        None
    } else if store.contains_key(request) {
        Some(entry(request, store[request]))
    } else {
        None
    }
}

/// The bytes of both, copied behind one another.
fn join(a: &[u8], b: &[u8]) -> (r: (Buffer, usize))
    requires
        a@.len() + b@.len() <= BUFFSIZE,
    ensures
        r.1 == a@.len() + b@.len(),
        r.0@.take(r.1 as int) == a@ + b@,
{
    let mut bytes = buffer();
    let mut i: usize = 0;
    while i < a.len()
        invariant
            i <= a@.len() <= BUFFSIZE,
            forall|j: int| 0 <= j < i ==> bytes@[j] == a@[j],
        decreases a@.len() - i,
    {
        bytes[i] = a[i];
        i = i + 1;
    }
    let start: usize = a.len();
    let mut k: usize = 0;
    while k < b.len()
        invariant
            k <= b@.len(),
            start == a@.len(),
            start + b@.len() <= BUFFSIZE,
            forall|j: int| 0 <= j < start ==> bytes@[j] == a@[j],
            forall|j: int| 0 <= j < k ==> bytes@[start + j] == b@[j],
        decreases b@.len() - k,
    {
        bytes[start + k] = b[k];
        k = k + 1;
    }
    assert(bytes@.take(start + b@.len()) =~= a@ + b@);
    (bytes, start + b.len())
}

/// The keys and their values.
pub struct Store {
    store: Table<Vec<u8>, Vec<u8>>,
}

impl View for Store {
    type V = Map<Seq<u8>, Seq<u8>>;

    closed spec fn view(&self) -> Map<Seq<u8>, Seq<u8>> {
        self.store@.map_values(|v: Vec<u8>| v@)
    }
}

impl Store {
    /// Whether no key stands twice, and every entry fits in a response.
    pub closed spec fn wf(&self) -> bool {
        &&& self.store.wf()
        &&& forall|k: Seq<u8>| #[trigger]
            self.store@.contains_key(k) ==> k.len() + self.store@[k]@.len() < BUFFSIZE
    }

    /// A store with no entries.
    pub fn new() -> (r: Store)
        ensures
            r.wf(),
            r@ == Map::<Seq<u8>, Seq<u8>>::empty(),
    {
        let r = Store { store: Table::new() };
        assert(r@ =~= Map::<Seq<u8>, Seq<u8>>::empty());
        r
    }

    /// Takes a request, and gives the response to it, if there is one.
    pub fn handle<A: Copy>(&mut self, msg: &Msg<A>) -> (r: Option<Msg<A>>)
        requires
            old(self).wf(),
            msg.wf(),
        ensures
            final(self).wf(),
            final(self)@ == after(old(self)@, msg.data()),
            match r {
                Some(m) => m.wf() && answer(old(self)@, msg.data()) == Some(m.data()) && m.addr
                    == msg.addr,
                None => answer(old(self)@, msg.data()) is None,
            },
    {
        let request = &msg.bytes[0..msg.length];
        assert(request@ =~= msg.data());
        proof {
            reveal_strlit("version");
            reveal_strlit("version=Mr Ken's Wild UDP Ride, v 0.1");
            lemma_seek(request@, EQUALS, 0);
        }
        let ghost before = self@;
        if same(request, ascii_bytes("version")) {
            proof {
                lemma_seek_is(version_key(), EQUALS, 0, 7);
            }
            let none: [u8; 0] = [];
            let (bytes, length) = join(
                ascii_bytes("version=Mr Ken's Wild UDP Ride, v 0.1"),
                none.as_slice(),
            );
            assert(bytes@.take(length as int) =~= version());
            return Some(Msg { bytes, length, addr: msg.addr });
        }
        match position(request, EQUALS, 0) {
            Some(n) => {
                if same(&request[0..n], ascii_bytes("version")) {
                    assert(request@.subrange(0, n as int) =~= request@.take(n as int));
                    return None;
                }
                let mut key: Vec<u8> = Vec::new();
                key.extend_from_slice(&request[0..n]);
                let mut val: Vec<u8> = Vec::new();
                val.extend_from_slice(&request[n + 1..msg.length]);
                assert(key@ =~= request@.take(n as int));
                assert(val@ =~= request@.skip(n + 1));
                self.store.insert(key, val);
                assert(self@ =~= after(before, request@));
                None
            },
            None => {
                match self.store.get(request) {
                    Some(val) => {
                        let mut head: Vec<u8> = Vec::new();
                        head.extend_from_slice(request);
                        head.push(EQUALS);
                        let (bytes, length) = join(head.as_slice(), val.as_slice());
                        assert(bytes@.take(length as int) =~= entry(request@, val@));
                        Some(Msg { bytes, length, addr: msg.addr })
                    },
                    None => None,
                }
            },
        }
    }
}

/// A value that was stored is given back, and takes the place of what the key
/// had before; other keys keep theirs. The key holds no equals sign, and is
/// not the one that cannot be set.
pub proof fn law_stored_values_are_given_back(
    store: Map<Seq<u8>, Seq<u8>>,
    key: Seq<u8>,
    val: Seq<u8>,
    other: Seq<u8>,
)
    requires
        !key.contains(EQUALS),
        key != version_key(),
    ensures
        answer(after(store, entry(key, val)), key) == Some(entry(key, val)),
        answer(store, entry(key, val)) is None,
        other != key ==> answer(after(store, entry(key, val)), other) == answer(store, other),
{
    let request = entry(key, val);
    assert forall|j: int| 0 <= j < key.len() implies request[j] != EQUALS by {
        assert(request[j] == key[j]);
    }
    lemma_seek_is(request, EQUALS, 0, key.len() as int);
    assert(request.take(key.len() as int) =~= key);
    assert(request.skip(key.len() as int + 1) =~= val);
    lemma_seek_is(key, EQUALS, 0, key.len() as int);
    if request == version_key() {
        reveal_strlit("version");
        assert(request[key.len() as int] == EQUALS);
        assert(false);
    }
}

/// The version is the same whatever has been asked before.
pub proof fn law_version_cannot_be_set(store: Map<Seq<u8>, Seq<u8>>, val: Seq<u8>)
    ensures
        answer(store, version_key()) == Some(version()),
        after(store, entry(version_key(), val)) == store,
        version().len() > version_key().len() + 1,
{
    reveal_strlit("version");
    reveal_strlit("version=Mr Ken's Wild UDP Ride, v 0.1");
    let key = version_key();
    let request = entry(key, val);
    lemma_seek_is(request, EQUALS, 0, key.len() as int);
    assert(request.take(key.len() as int) =~= key);
}

/// To ask for a value changes nothing.
pub proof fn law_asking_changes_nothing(store: Map<Seq<u8>, Seq<u8>>, request: Seq<u8>)
    requires
        !request.contains(EQUALS),
    ensures
        after(store, request) == store,
{
    lemma_seek(request, EQUALS, 0);
}

/// What requests do, byte by byte: what stands before the first equals sign is
/// the key, and what stands after it the value, which takes the place of an
/// earlier one. A request without one is answered with the key, an equals sign
/// and the value, if the key has one. The version stays what it is.
pub proof fn law_requests(store: Map<Seq<u8>, Seq<u8>>, key: Seq<u8>, val: Seq<u8>)
    requires
        forall|i: int| 0 <= i < key.len() ==> key[i] != 61,
    ensures
        answer(store, key + seq![61u8] + val) is None,
        after(store, key) == store,
        ({
            let name = seq![118u8, 101, 114, 115, 105, 111, 110];
            if key == name {
                &&& after(store, key + seq![61u8] + val) == store
                &&& answer(store, key) is Some
                &&& answer(store, key)->Some_0.len() > 8
                &&& answer(store, key)->Some_0.take(8) == name + seq![61u8]
                &&& answer(store, key) == answer(Map::empty(), key)
            } else {
                &&& after(store, key + seq![61u8] + val) == store.insert(key, val)
                &&& store.contains_key(key) ==> answer(store, key) == Some(
                    key + seq![61u8] + store[key],
                )
                &&& !store.contains_key(key) ==> answer(store, key) is None
            }
        }),
{
    reveal_strlit("version");
    reveal_strlit("version=Mr Ken's Wild UDP Ride, v 0.1");
    let name = seq![118u8, 101, 114, 115, 105, 111, 110];
    assert(version_key() =~= name);
    let request = key + seq![61u8] + val;
    assert(request == entry(key, val));
    assert forall|j: int| 0 <= j < key.len() implies request[j] != EQUALS by {
        assert(request[j] == key[j]);
    }
    lemma_seek_is(request, EQUALS, 0, key.len() as int);
    lemma_seek_is(key, EQUALS, 0, key.len() as int);
    assert(request.take(key.len() as int) =~= key);
    assert(request.skip(key.len() as int + 1) =~= val);
    if request == version_key() {
        assert(request[key.len() as int] == EQUALS);
        assert(false);
    }
    if key == name {
        assert(version().take(8) =~= name + seq![61u8]);
    }
}

/// A store remembers: the last value that a key was given is the one that it
/// is answered with, however many requests with other keys come in between.
pub proof fn law_the_last_value_is_answered(
    store: Map<Seq<u8>, Seq<u8>>,
    key: Seq<u8>,
    val: Seq<u8>,
    others: Seq<(Seq<u8>, Seq<u8>)>,
)
    requires
        forall|i: int| 0 <= i < key.len() ==> key[i] != 61,
        key != seq![118u8, 101, 114, 115, 105, 111, 110],
        forall|n: int| 0 <= n < others.len() ==> (#[trigger] others[n]).0 != key && (forall|i: int|
            0 <= i < others[n].0.len() ==> others[n].0[i] != 61),
    ensures
        answer(
            others.fold_left(
                after(store, key + seq![61u8] + val),
                |s: Map<Seq<u8>, Seq<u8>>, o: (Seq<u8>, Seq<u8>)| after(s, o.0 + seq![61u8] + o.1),
            ),
            key,
        ) == Some(key + seq![61u8] + val),
    decreases others.len(),
{
    let f = |s: Map<Seq<u8>, Seq<u8>>, o: (Seq<u8>, Seq<u8>)| after(s, o.0 + seq![61u8] + o.1);
    law_requests(store, key, val);
    lemma_others_keep(after(store, key + seq![61u8] + val), key, val, others);
    law_requests(others.fold_left(after(store, key + seq![61u8] + val), f), key, val);
}

/// Requests with other keys leave a key its value.
proof fn lemma_others_keep(
    store: Map<Seq<u8>, Seq<u8>>,
    key: Seq<u8>,
    val: Seq<u8>,
    others: Seq<(Seq<u8>, Seq<u8>)>,
)
    requires
        store.contains_key(key),
        store[key] == val,
        forall|n: int| 0 <= n < others.len() ==> (#[trigger] others[n]).0 != key && (forall|i: int|
            0 <= i < others[n].0.len() ==> others[n].0[i] != 61),
    ensures
        ({
            let end = others.fold_left(
                store,
                |s: Map<Seq<u8>, Seq<u8>>, o: (Seq<u8>, Seq<u8>)| after(s, o.0 + seq![61u8] + o.1),
            );
            end.contains_key(key) && end[key] == val
        }),
    decreases others.len(),
{
    let f = |s: Map<Seq<u8>, Seq<u8>>, o: (Seq<u8>, Seq<u8>)| after(s, o.0 + seq![61u8] + o.1);
    if others.len() > 0 {
        let less = others.drop_last();
        assert forall|n: int| 0 <= n < less.len() implies (#[trigger] less[n]).0 != key && (forall|
            i: int,
        |
            0 <= i < less[n].0.len() ==> less[n].0[i] != 61) by {
            assert(less[n] == others[n]);
        }
        lemma_others_keep(store, key, val, less);
        let last = others.last();
        assert(last == others[others.len() - 1]);
        law_requests(less.fold_left(store, f), last.0, last.1);
    }
}

} // verus!
