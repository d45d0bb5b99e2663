use protohax::smoke::{handle, Input};

#[test]
fn data_is_echoed() {
    let mut out: Vec<u8> = Vec::new();
    for chunk in [vec![1u8, 2, 3], vec![0], vec![255; 1024]] {
        let a = handle(Input::Data(chunk));
        out.extend(a.write.unwrap());
        assert!(!a.done);
    }
    let mut expected = vec![1u8, 2, 3, 0];
    expected.extend(vec![255u8; 1024]);
    assert_eq!(out, expected);
}

#[test]
fn echo_ends_at_eof_and_errors() {
    let a = handle(Input::Data(Vec::new()));
    assert!(a.write.is_none() && a.done);
    let a = handle(Input::WouldBlock);
    assert!(a.write.is_none() && !a.done);
    let a = handle(Input::Unread);
    assert!(a.write.is_none() && a.done);
    let a = handle(Input::Unwritten);
    assert!(a.write.is_none() && a.done);
}
