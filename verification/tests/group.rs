use thread_groups::{Error, ThreadGroup};

/// Launches a task whose handle is the number it stands for.
fn launch(number: u32) -> impl FnOnce(String) -> Result<u32, String> {
    move |_name: String| Ok(number)
}

/// A task ends abnormally where its number is even and below 407.
fn outcome(number: u32) -> Result<u32, String> {
    if number % 2 == 0 && number < 407 {
        Err(format!("synthetic error at number {}", number))
    } else {
        Ok(number)
    }
}

fn spawned(identity: &str) -> ThreadGroup<u32> {
    let mut group = ThreadGroup::<u32>::with_id(String::from(identity));
    for number in 401u32..409u32 {
        assert_eq!(group.spawn(launch(number)), Ok(()));
    }
    group
}

#[test]
fn a_new_group_is_empty() {
    let group = ThreadGroup::<u32>::with_id(String::from("g"));
    assert_eq!(group.id(), "g");
    assert_eq!(group.pending(), 0);
    assert!(group.errors().is_empty());
    assert_eq!(group.errors().len(), 0);
    assert_eq!(group.to_string(), "thread_groups::ThreadGroup g");
}

#[test]
fn new_derives_the_identity_from_process_and_thread() {
    let named = ThreadGroup::<u32>::new(4711, Some(String::from("main")), String::from("ThreadId(1)"));
    assert_eq!(named.id(), "4711:main");
    let unnamed = ThreadGroup::<u32>::new(4711, None, String::from("ThreadId(1)"));
    assert_eq!(unnamed.id(), "4711:ThreadId(1)");
}

#[test]
fn spawn_names_tasks_by_identity_and_counter() {
    let mut group = ThreadGroup::<u32>::with_id(String::from("g"));
    let mut names: Vec<String> = Vec::new();
    for number in 1u32..13u32 {
        let mut seen = String::new();
        let r = group.spawn(|name: String| {
            seen = name;
            Ok(number)
        });
        assert_eq!(r, Ok(()));
        names.push(seen);
    }
    assert_eq!(
        names,
        vec!["g:1", "g:2", "g:3", "g:4", "g:5", "g:6", "g:7", "g:8", "g:9", "g:10", "g:11", "g:12"]
    );
    assert_eq!(group.pending(), 12);
}

#[test]
fn a_failed_spawn_leaves_the_group_as_it_was() {
    let mut group = ThreadGroup::<u32>::with_id(String::from("g"));
    assert_eq!(group.spawn(launch(1)), Ok(()));
    let r = group.spawn(|_name: String| Err(String::from("out of threads")));
    assert_eq!(
        r,
        Err(Error::ThreadJoinError(String::from("spawning thread g:2: out of threads")))
    );
    assert_eq!(group.pending(), 1);
    assert!(group.errors().is_empty());
    let mut seen = String::new();
    let r = group.spawn(|name: String| {
        seen = name;
        Ok(2)
    });
    assert_eq!(r, Ok(()));
    assert_eq!(seen, "g:2");
    assert_eq!(group.pending(), 2);
}

#[test]
fn join_serves_tasks_in_spawn_order() {
    let mut group = spawned("order");
    let mut served: Vec<u32> = Vec::new();
    for _ in 0u32..8u32 {
        served.push(group.join(|handle: u32| Ok(handle)).unwrap());
    }
    assert_eq!(served, vec![401, 402, 403, 404, 405, 406, 407, 408]);
    assert_eq!(group.pending(), 0);
}

#[test]
fn join_records_a_failure_under_the_task_name() {
    let mut group = spawned("g");
    assert_eq!(group.join(outcome), Ok(401));
    assert!(group.errors().is_empty());
    let failed = group.join(outcome);
    let expected =
        Error::ThreadJoinError(String::from("joining thread g:2: synthetic error at number 402"));
    assert_eq!(failed, Err(expected.clone()));
    let ledger = group.errors();
    assert_eq!(ledger.len(), 1);
    assert!(ledger.contains("g:2"));
    assert!(!ledger.contains("g:1"));
    assert_eq!(ledger.get("g:2"), Some(&expected));
    assert_eq!(ledger.get("g:1"), None);
    assert_eq!(group.pending(), 6);
}

#[test]
fn join_on_an_empty_group_is_a_group_error() {
    let mut group = ThreadGroup::<u32>::with_id(String::from("idle"));
    let r = group.join(outcome);
    assert_eq!(
        r,
        Err(Error::ThreadGroupError(String::from(
            "no threads in group thread_groups::ThreadGroup idle"
        )))
    );
    assert!(group.errors().is_empty());
    assert_eq!(group.pending(), 0);
}

#[test]
fn join_on_a_drained_group_keeps_the_ledger() {
    let mut group = spawned("g");
    let _ = group.results(outcome);
    let before = group.errors().to_vec();
    let r = group.join(outcome);
    assert!(matches!(r, Err(Error::ThreadGroupError(_))));
    assert_eq!(group.errors().to_vec(), before);
    assert_eq!(group.errors().len(), 3);
}

#[test]
fn results_gives_one_outcome_for_each_task() {
    let mut group = spawned("g");
    let data = group.results(outcome);
    assert_eq!(data.len(), 8);
    assert_eq!(
        data,
        vec![
            Ok(401),
            Err(Error::ThreadJoinError(String::from(
                "joining thread g:2: synthetic error at number 402"
            ))),
            Ok(403),
            Err(Error::ThreadJoinError(String::from(
                "joining thread g:4: synthetic error at number 404"
            ))),
            Ok(405),
            Err(Error::ThreadJoinError(String::from(
                "joining thread g:6: synthetic error at number 406"
            ))),
            Ok(407),
            Ok(408),
        ]
    );
    assert_eq!(data.iter().filter(|r| r.is_err()).count(), 3);
    assert_eq!(group.pending(), 0);
    let names: Vec<String> = group.errors().to_vec().into_iter().map(|line| line.0).collect();
    assert_eq!(names, vec!["g:2", "g:4", "g:6"]);
}

#[test]
fn results_of_an_empty_group_is_empty() {
    let mut group = ThreadGroup::<u32>::with_id(String::from("g"));
    assert_eq!(group.results(outcome), Vec::<Result<u32, Error>>::new());
    assert_eq!(group.as_far_as_ok(outcome), Vec::<u32>::new());
    assert_eq!(group.all_ok(outcome), Ok(Vec::<u32>::new()));
    assert!(group.errors().is_empty());
}

#[test]
fn as_far_as_ok_keeps_the_values_in_order() {
    let mut group = spawned("g");
    let data = group.as_far_as_ok(outcome);
    assert_eq!(data, vec![401, 403, 405, 407, 408]);
    assert_eq!(data.len(), 8 - 3);
    assert_eq!(group.errors().len(), 3);
    assert_eq!(group.pending(), 0);
}

#[test]
fn all_ok_returns_every_value_when_none_fails() {
    let mut group = spawned("g");
    let data = group.all_ok(|handle: u32| Ok(format!("{}", handle)));
    assert_eq!(
        data,
        Ok(vec![
            String::from("401"),
            String::from("402"),
            String::from("403"),
            String::from("404"),
            String::from("405"),
            String::from("406"),
            String::from("407"),
            String::from("408"),
        ])
    );
    assert!(group.errors().is_empty());
    assert_eq!(group.pending(), 0);
}

#[test]
fn all_ok_stops_at_the_first_failure() {
    let mut group = spawned("g");
    let r = group.all_ok(outcome);
    assert_eq!(
        r,
        Err(Error::ThreadJoinError(String::from(
            "joining thread g:2: synthetic error at number 402"
        )))
    );
    assert_eq!(group.errors().len(), 1);
    assert_eq!(group.pending(), 6);
    assert_eq!(group.join(outcome), Ok(403));
    let rest = group.as_far_as_ok(outcome);
    assert_eq!(rest, vec![405, 407, 408]);
    assert_eq!(group.errors().len(), 3);
    assert_eq!(group.pending(), 0);
}

#[test]
fn the_ledger_grows_over_several_drains() {
    let mut group = spawned("g");
    assert_eq!(group.as_far_as_ok(outcome), vec![401, 403, 405, 407, 408]);
    assert_eq!(group.errors().len(), 3);
    for number in 401u32..409u32 {
        assert_eq!(group.spawn(launch(number + 1000)), Ok(()));
    }
    let second = group.results(|handle: u32| {
        if handle == 1408 {
            Err(String::from("late"))
        } else {
            Ok(handle)
        }
    });
    assert_eq!(second.iter().filter(|r| r.is_err()).count(), 1);
    let ledger = group.errors();
    assert_eq!(ledger.len(), 4);
    assert_eq!(
        ledger.get("g:8"),
        Some(&Error::ThreadJoinError(String::from("joining thread g:8: late")))
    );
}

#[test]
fn a_reused_name_replaces_the_earlier_failure() {
    let mut group = ThreadGroup::<u32>::with_id(String::from("g"));
    assert_eq!(group.spawn(launch(1)), Ok(()));
    assert!(group.join(|_handle: u32| Err::<u32, String>(String::from("first"))).is_err());
    assert_eq!(group.spawn(launch(2)), Ok(()));
    assert!(group.join(|_handle: u32| Err::<u32, String>(String::from("second"))).is_err());
    let ledger = group.errors();
    assert_eq!(ledger.len(), 1);
    assert_eq!(
        ledger.get("g:1"),
        Some(&Error::ThreadJoinError(String::from("joining thread g:1: second")))
    );
}

#[test]
fn errors_is_a_snapshot() {
    let mut group = spawned("g");
    let early = group.errors();
    let _ = group.results(outcome);
    assert!(early.is_empty());
    assert_eq!(group.errors().len(), 3);
}
