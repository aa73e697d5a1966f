use at2_ns::{get_all_outcome, put_outcome, Error, PublicKey};

#[test]
fn put_not_queued_is_gone_on_send() {
    assert_eq!(put_outcome(false, Some(Ok(()))), Err(Error::GoneOnSend));
    assert_eq!(put_outcome(false, None), Err(Error::GoneOnSend));
}

#[test]
fn put_without_answer_is_gone_on_recv() {
    assert_eq!(put_outcome(true, None), Err(Error::GoneOnRecv));
}

#[test]
fn put_answer_is_passed_on() {
    assert_eq!(put_outcome(true, Some(Ok(()))), Ok(()));
    assert_eq!(
        put_outcome(true, Some(Err(Error::AlreadyExisting))),
        Err(Error::AlreadyExisting)
    );
}

#[test]
fn get_all_outcomes() {
    let pairs = vec![(PublicKey::from_bytes([9u8; 32]), "nine".to_owned())];
    assert_eq!(
        get_all_outcome(false, Some(pairs.clone())),
        Err(Error::GoneOnSend)
    );
    assert_eq!(get_all_outcome(true, None), Err(Error::GoneOnRecv));
    assert_eq!(get_all_outcome(true, Some(pairs.clone())), Ok(pairs));
}

#[test]
fn error_messages() {
    assert_eq!(Error::AlreadyExisting.message(), "name already registered");
    assert_eq!(Error::GoneOnSend.message(), "gone on send");
    assert_eq!(Error::GoneOnRecv.message(), "gone on recv");
}

#[test]
fn keys_compare_by_bytes() {
    let mut bytes = [0u8; 32];
    let a = PublicKey::from_bytes(bytes);
    bytes[31] = 1;
    let b = PublicKey::from_bytes(bytes);
    assert_ne!(a, b);
    assert_eq!(a, PublicKey::from_bytes([0u8; 32]));
    assert!(a.same_as(&PublicKey::from_bytes([0u8; 32])));
    assert!(!a.same_as(&b));
    assert_eq!(b.as_bytes(), bytes);
}
