use thread_groups::{Error, ThreadGroup};

/// A task that has been started and will give its outcome when waited for.
type Started<T> = Box<dyn FnOnce() -> Result<T, String>>;

/// Starts `work` under whatever name the group picked.
fn start<T, W>(work: W) -> impl FnOnce(String) -> Result<Started<T>, String>
where
    W: FnOnce() -> Result<T, String> + 'static,
{
    move |_name: String| {
        let started: Started<T> = Box::new(work);
        Ok(started)
    }
}

/// Waits for a started task.
fn wait<T>(task: Started<T>) -> Result<T, String> {
    task()
}

#[test]
fn test_join() -> Result<(), Error> {
    let mut threads =
        ThreadGroup::<Started<String>>::with_id(format!("{}:{}", "test_thread_groups", 5u32));
    for number in 401u32..409u32 {
        threads.spawn(start(move || Ok(format!("{}", number))))?;
    }
    let data = threads.join(wait)?;
    assert_eq!(data, "401");
    assert!(threads.errors().is_empty());
    Ok(())
}

#[test]
fn test_results() -> Result<(), Error> {
    let mut threads =
        ThreadGroup::<Started<u32>>::with_id(format!("{}:{}", "test_thread_groups", 17u32));
    for number in 401u32..409u32 {
        threads.spawn(start(move || {
            if number % 2 == 0 && number < 407 {
                return Err(format!("synthetic error at number {}", number));
            }
            Ok(number)
        }))?;
    }
    let data = threads.results(wait);
    let ok_data = data
        .iter()
        .filter(|result| result.is_ok())
        .map(|result| result.clone().unwrap())
        .collect::<Vec<u32>>();
    let err_data = data
        .iter()
        .filter(|result| result.is_err())
        .map(|result| result.clone().err().unwrap())
        .collect::<Vec<Error>>();

    assert_eq!(ok_data, vec![401, 403, 405, 407, 408]);
    assert_eq!(err_data.len(), 3);
    assert_eq!(threads.errors().len(), 3);
    Ok(())
}

#[test]
fn test_as_far_as_ok() -> Result<(), Error> {
    let mut threads =
        ThreadGroup::<Started<u32>>::with_id(format!("{}:{}", "test_thread_groups", 46u32));
    for number in 401u32..409u32 {
        threads.spawn(start(move || {
            if number % 2 == 0 && number < 407 {
                return Err(format!("synthetic error at number {}", number));
            }
            Ok(number)
        }))?;
    }
    let data = threads.as_far_as_ok(wait);
    assert_eq!(data, vec![401, 403, 405, 407, 408]);
    assert_eq!(threads.errors().len(), 3);
    Ok(())
}

#[test]
fn test_all_ok() -> Result<(), Error> {
    let mut threads =
        ThreadGroup::<Started<String>>::with_id(format!("{}:{}", "test_thread_groups", 63u32));
    for number in 401u32..409u32 {
        threads.spawn(start(move || Ok(format!("{}", number))))?;
    }
    let mut data = threads.all_ok(wait)?;
    data.sort();

    assert_eq!(
        data,
        vec!["401", "402", "403", "404", "405", "406", "407", "408"]
    );
    assert!(threads.errors().is_empty());
    Ok(())
}
