use protohax::lrcp::pkt::{buffer, Gram, IdField, Msg};

fn gram(data: &[u8]) -> Option<Gram<u8>> {
    let mut bytes = buffer();
    bytes[..data.len()].copy_from_slice(data);
    Gram::new(bytes, data.len(), 3)
}

#[test]
fn grams_are_taken_apart() {
    let g = gram(b"/data/12345/0/hello\n/").unwrap();
    assert_eq!(g.msg, Msg::Data);
    assert_eq!(g.id.as_bytes(), b"12345\0\0\0\0\0");
    assert_eq!(g.data(), b"0/hello\n/");
    assert_eq!(g.addr, 3);
    assert_eq!(gram(b"/ack/1/5/").unwrap().msg, Msg::Ack);
    assert_eq!(gram(b"/connect/1/").unwrap().msg, Msg::Connect);
    assert_eq!(gram(b"/close/1/").unwrap().msg, Msg::Close);
    assert_eq!(gram(b"/close/1/").unwrap().data(), b"");
}

#[test]
fn malformed_grams_are_refused() {
    assert!(gram(b"data/1/").is_none());
    assert!(gram(b"/data").is_none());
    assert!(gram(b"/data/1").is_none());
    assert!(gram(b"/date/1/").is_none());
    assert!(gram(b"").is_none());
}

#[test]
fn ids_keep_ten_bytes() {
    assert_eq!(IdField::from(b"1234567890123").as_bytes(), b"1234567890");
    assert_eq!(IdField::from(b"12").as_bytes(), b"12\0\0\0\0\0\0\0\0");
    assert_eq!(gram(b"/ack/12345678901/0/").unwrap().id.as_bytes(), b"1234567890");
}

#[test]
fn ids_print_in_brackets() {
    assert_eq!(IdField::from(b"1234567890").to_text(), "[1234567890]");
    assert_eq!(IdField::from(b"42").to_text(), "[42]");
    assert_eq!(IdField::from(b"").to_text(), "[]");
    assert_eq!(IdField::from(b"a!").to_text(), "[490]");
    assert_eq!(IdField::from(b"42").debug_text(), "IdField([42])");
}

#[test]
fn packet_buffers_are_zeroed() {
    assert_eq!(buffer(), [0u8; 1024]);
}
