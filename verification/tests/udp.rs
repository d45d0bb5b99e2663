use protohax::udp::{buffer, Msg, Store};

fn request(data: &[u8]) -> Msg<u32> {
    let mut bytes = buffer();
    bytes[..data.len()].copy_from_slice(data);
    Msg { bytes, length: data.len(), addr: 7 }
}

fn ask(store: &mut Store, data: &[u8]) -> Option<Vec<u8>> {
    store.handle(&request(data)).map(|m| {
        assert_eq!(m.addr, 7);
        m.bytes[..m.length].to_vec()
    })
}

#[test]
fn values_are_given_back() {
    let mut s = Store::new();
    assert_eq!(ask(&mut s, b"foo"), None);
    assert_eq!(ask(&mut s, b"foo=bar"), None);
    assert_eq!(ask(&mut s, b"foo"), Some(b"foo=bar".to_vec()));
    assert_eq!(ask(&mut s, b"foo=bar=baz"), None);
    assert_eq!(ask(&mut s, b"foo"), Some(b"foo=bar=baz".to_vec()));
    assert_eq!(ask(&mut s, b"frogs=blue"), None);
    assert_eq!(ask(&mut s, b"frogs"), Some(b"frogs=blue".to_vec()));
    assert_eq!(ask(&mut s, b"foo"), Some(b"foo=bar=baz".to_vec()));
    assert_eq!(ask(&mut s, b"other"), None);
}

#[test]
fn keys_and_values_can_be_empty() {
    let mut s = Store::new();
    assert_eq!(ask(&mut s, b"foo="), None);
    assert_eq!(ask(&mut s, b"foo"), Some(b"foo=".to_vec()));
    assert_eq!(ask(&mut s, b"=foo"), None);
    assert_eq!(ask(&mut s, b""), Some(b"=foo".to_vec()));
    assert_eq!(ask(&mut s, b"foo==="), None);
    assert_eq!(ask(&mut s, b"foo"), Some(b"foo===".to_vec()));
}

#[test]
fn version_cannot_be_set() {
    let mut s = Store::new();
    let version = Some(b"version=Mr Ken's Wild UDP Ride, v 0.1".to_vec());
    assert_eq!(ask(&mut s, b"version"), version);
    assert_eq!(ask(&mut s, b"version=2"), None);
    assert_eq!(ask(&mut s, b"version"), version);
    assert_eq!(ask(&mut s, b"versions=2"), None);
    assert_eq!(ask(&mut s, b"versions"), Some(b"versions=2".to_vec()));
}

#[test]
fn long_entries_fit() {
    let mut s = Store::new();
    let mut entry = vec![b'k'; 400];
    entry.push(b'=');
    entry.extend(vec![b'v'; 599]);
    assert_eq!(entry.len(), 1000);
    assert_eq!(ask(&mut s, &entry), None);
    assert_eq!(ask(&mut s, &[b'k'; 400]), Some(entry));
}

#[test]
fn request_buffers_are_zeroed() {
    assert_eq!(buffer(), [0u8; 1000]);
}
