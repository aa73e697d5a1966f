use at2_ns::{AccountsHandler, PublicKey};

fn key(seed: u8) -> PublicKey {
    let mut bytes = [0u8; 32];
    for (i, b) in bytes.iter_mut().enumerate() {
        *b = seed.wrapping_mul(31).wrapping_add(i as u8);
    }
    PublicKey::from_bytes(bytes)
}

#[test]
fn put_once_returns_it_in_get_all() {
    let mut accounts = AccountsHandler::new();
    let user = key(1);

    accounts.put(user, "user".to_owned()).expect("put user");

    assert_eq!(accounts.get_all(), vec![(user, "user".to_owned())]);
}

#[test]
fn put_twice_update_name() {
    let mut accounts = AccountsHandler::new();
    let user = key(1);

    accounts.put(user, "first".to_owned()).expect("first put");
    accounts.put(user, "second".to_owned()).expect("second put");

    assert_eq!(accounts.get_all(), vec![(user, "second".to_owned())]);
}

#[test]
fn put_for_same_name_with_different_pubkey_fails() {
    let mut accounts = AccountsHandler::new();
    let first_user = key(1);
    let second_user = key(2);

    accounts
        .put(first_user, "user".to_owned())
        .expect("put first user");
    accounts
        .put(second_user, "user".to_owned())
        .expect_err("fail to put second user");
}

#[test]
fn update_name_for_another_already_existing() {
    let mut accounts = AccountsHandler::new();
    let first_user = key(1);
    let second_user = key(2);

    accounts
        .put(first_user, "user".to_owned())
        .expect("put first user");
    accounts
        .put(second_user, "usr".to_owned())
        .expect("put second user");

    accounts
        .put(second_user, "user".to_owned())
        .expect_err("fail to update name for second user");
}
