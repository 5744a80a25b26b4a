use thread_groups::naming::{decimal_text, name_task};
use thread_groups::{thread_id, Error, Failures};

#[test]
fn decimal_text_writes_numbers() {
    assert_eq!(decimal_text(0), "0");
    assert_eq!(decimal_text(7), "7");
    assert_eq!(decimal_text(10), "10");
    assert_eq!(decimal_text(407), "407");
    assert_eq!(decimal_text(1234567890), "1234567890");
    assert_eq!(decimal_text(usize::MAX), format!("{}", usize::MAX));
}

#[test]
fn name_task_joins_identity_and_number() {
    assert_eq!(name_task("g", 1), "g:1");
    assert_eq!(name_task("4711:main", 20), "4711:main:20");
    assert_eq!(name_task("", 3), ":3");
}

#[test]
fn thread_id_uses_the_name_or_falls_back() {
    assert_eq!(
        thread_id(4711, Some(String::from("worker")), String::from("ThreadId(9)")),
        "4711:worker"
    );
    assert_eq!(thread_id(4711, None, String::from("ThreadId(9)")), "4711:ThreadId(9)");
    assert_eq!(thread_id(0, Some(String::new()), String::from("x")), "0:");
    assert_eq!(thread_id(u32::MAX, None, String::from("x")), "4294967295:x");
}

#[test]
fn error_variant_prefix_and_rendering() {
    let group = Error::ThreadGroupError(String::from("no threads"));
    let join = Error::ThreadJoinError(String::from("boom"));
    assert_eq!(group.variant(), "ThreadGroupError");
    assert_eq!(join.variant(), "ThreadJoinError");
    assert_eq!(group.prefix(), Some(String::from("ThreadGroupError: ")));
    assert_eq!(join.prefix(), Some(String::from("ThreadJoinError: ")));
    assert_eq!(group.message(), "no threads");
    assert_eq!(group.to_string(), "ThreadGroupError: no threads");
    assert_eq!(join.to_string(), "ThreadJoinError: boom");
    assert_eq!(join.clone(), join);
    assert_ne!(join, Error::ThreadGroupError(String::from("boom")));
}

#[test]
fn ledger_insert_replaces_under_the_same_name() {
    let mut ledger = Failures::new();
    assert!(ledger.is_empty());
    ledger.insert(String::from("a"), Error::ThreadJoinError(String::from("one")));
    ledger.insert(String::from("b"), Error::ThreadJoinError(String::from("two")));
    ledger.insert(String::from("a"), Error::ThreadJoinError(String::from("three")));
    assert_eq!(ledger.len(), 2);
    assert!(!ledger.is_empty());
    assert_eq!(ledger.get("a"), Some(&Error::ThreadJoinError(String::from("three"))));
    assert_eq!(ledger.get("b"), Some(&Error::ThreadJoinError(String::from("two"))));
    assert_eq!(ledger.get("c"), None);
    assert!(ledger.contains("b"));
    assert!(!ledger.contains("c"));
    assert_eq!(
        ledger.to_vec(),
        vec![
            (String::from("a"), Error::ThreadJoinError(String::from("three"))),
            (String::from("b"), Error::ThreadJoinError(String::from("two"))),
        ]
    );
    let copy = ledger.clone();
    ledger.insert(String::from("c"), Error::ThreadJoinError(String::from("four")));
    assert_eq!(copy.len(), 2);
    assert_eq!(ledger.len(), 3);
}

#[test]
fn ledger_record_settles_an_outcome() {
    let mut ledger = Failures::new();
    assert_eq!(ledger.record(String::from("g:1"), Ok::<u32, String>(5)), Ok(5));
    assert!(ledger.is_empty());
    let failed = ledger.record(String::from("g:2"), Err::<u32, String>(String::from("boom")));
    let expected = Error::ThreadJoinError(String::from("joining thread g:2: boom"));
    assert_eq!(failed, Err(expected.clone()));
    assert_eq!(ledger.len(), 1);
    assert_eq!(ledger.get("g:2"), Some(&expected));
}
