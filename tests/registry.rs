use std::collections::HashSet;

use at2_ns::{AccountsHandler, Error, PublicKey};

fn key(seed: u8) -> PublicKey {
    PublicKey::from_bytes([seed; 32])
}

fn sorted(mut pairs: Vec<(PublicKey, String)>) -> Vec<(PublicKey, String)> {
    pairs.sort_by(|a, b| a.0.as_bytes().cmp(&b.0.as_bytes()));
    pairs
}

#[test]
fn empty_registry_lists_nothing() {
    let accounts = AccountsHandler::new();
    assert_eq!(accounts.get_all(), vec![]);
}

#[test]
fn first_registration_is_the_only_binding() {
    let mut accounts = AccountsHandler::new();
    assert_eq!(accounts.put(key(7), "carol".to_owned()), Ok(()));
    assert_eq!(accounts.get_all(), vec![(key(7), "carol".to_owned())]);
}

#[test]
fn repeated_put_is_accepted_and_keeps_one_entry() {
    let mut accounts = AccountsHandler::new();
    assert_eq!(accounts.put(key(1), "alice".to_owned()), Ok(()));
    assert_eq!(accounts.put(key(1), "alice".to_owned()), Ok(()));
    assert_eq!(accounts.get_all(), vec![(key(1), "alice".to_owned())]);
}

#[test]
fn renamed_away_name_is_free_for_another_key() {
    let mut accounts = AccountsHandler::new();
    assert_eq!(accounts.put(key(1), "first".to_owned()), Ok(()));
    assert_eq!(accounts.put(key(1), "second".to_owned()), Ok(()));
    assert_eq!(accounts.put(key(2), "first".to_owned()), Ok(()));
    assert_eq!(
        sorted(accounts.get_all()),
        vec![(key(1), "second".to_owned()), (key(2), "first".to_owned())]
    );
}

#[test]
fn taken_name_is_rejected_without_change() {
    let mut accounts = AccountsHandler::new();
    assert_eq!(accounts.put(key(1), "user".to_owned()), Ok(()));
    assert_eq!(
        accounts.put(key(2), "user".to_owned()),
        Err(Error::AlreadyExisting)
    );
    assert_eq!(accounts.get_all(), vec![(key(1), "user".to_owned())]);
}

#[test]
fn rename_onto_taken_name_keeps_current_name() {
    let mut accounts = AccountsHandler::new();
    assert_eq!(accounts.put(key(1), "user".to_owned()), Ok(()));
    assert_eq!(accounts.put(key(2), "usr".to_owned()), Ok(()));
    assert_eq!(
        accounts.put(key(2), "user".to_owned()),
        Err(Error::AlreadyExisting)
    );
    assert_eq!(
        sorted(accounts.get_all()),
        vec![(key(1), "user".to_owned()), (key(2), "usr".to_owned())]
    );
}

#[test]
fn names_compare_exactly() {
    let mut accounts = AccountsHandler::new();
    assert_eq!(accounts.put(key(1), "user".to_owned()), Ok(()));
    assert_eq!(accounts.put(key(2), "User".to_owned()), Ok(()));
    assert_eq!(accounts.put(key(3), "user ".to_owned()), Ok(()));
    assert_eq!(accounts.put(key(4), "".to_owned()), Ok(()));
    assert_eq!(
        accounts.put(key(5), "".to_owned()),
        Err(Error::AlreadyExisting)
    );
    assert_eq!(accounts.get_all().len(), 4);
}

#[test]
fn contested_name_has_exactly_one_winner() {
    let mut accounts = AccountsHandler::new();
    let answers: Vec<Result<(), Error>> = (1..=8u8)
        .map(|seed| accounts.put(key(seed), "contested".to_owned()))
        .collect();
    assert_eq!(answers.iter().filter(|a| a.is_ok()).count(), 1);
    assert_eq!(answers[0], Ok(()));
    for answer in &answers[1..] {
        assert_eq!(*answer, Err(Error::AlreadyExisting));
    }
    assert_eq!(accounts.get_all(), vec![(key(1), "contested".to_owned())]);
}

#[test]
fn contested_name_held_by_a_contender_stays_with_it() {
    let mut accounts = AccountsHandler::new();
    assert_eq!(accounts.put(key(3), "contested".to_owned()), Ok(()));
    let answers: Vec<Result<(), Error>> = (1..=5u8)
        .map(|seed| accounts.put(key(seed), "contested".to_owned()))
        .collect();
    assert_eq!(
        answers,
        vec![
            Err(Error::AlreadyExisting),
            Err(Error::AlreadyExisting),
            Ok(()),
            Err(Error::AlreadyExisting),
            Err(Error::AlreadyExisting),
        ]
    );
}

#[test]
fn mixed_requests_keep_names_unique() {
    let mut accounts = AccountsHandler::new();
    let requests: Vec<(u8, &str)> = vec![
        (1, "a"),
        (2, "b"),
        (3, "a"),
        (1, "c"),
        (3, "a"),
        (2, "c"),
        (2, "b"),
        (4, "b"),
        (2, "d"),
        (4, "b"),
    ];
    let answers: Vec<Result<(), Error>> = requests
        .iter()
        .map(|(seed, name)| accounts.put(key(*seed), name.to_string()))
        .collect();
    assert_eq!(
        answers,
        vec![
            Ok(()),
            Ok(()),
            Err(Error::AlreadyExisting),
            Ok(()),
            Ok(()),
            Err(Error::AlreadyExisting),
            Ok(()),
            Err(Error::AlreadyExisting),
            Ok(()),
            Ok(()),
        ]
    );
    let all = accounts.get_all();
    let names: HashSet<String> = all.iter().map(|(_, n)| n.clone()).collect();
    let keys: HashSet<[u8; 32]> = all.iter().map(|(k, _)| k.as_bytes()).collect();
    assert_eq!(names.len(), all.len());
    assert_eq!(keys.len(), all.len());
    assert_eq!(
        sorted(all),
        vec![
            (key(1), "c".to_owned()),
            (key(2), "d".to_owned()),
            (key(3), "a".to_owned()),
            (key(4), "b".to_owned()),
        ]
    );
}
