use projector::config::Config;
use projector::config::ConfigError;
use projector::config::Operation;
use projector::config::Opts;
use projector::config::UsageError;

fn resolve(opts: Opts) -> Result<Config, ConfigError> {
    Config::resolve(opts, Some(String::from("/home/me")), Some(String::from("/somewhere")))
}

#[test]
fn print_all() {
    let opts = resolve(Opts { args: vec![], pwd: None, config: None }).unwrap();
    assert_eq!(opts.operation, Operation::Print(None));
}

#[test]
fn print_key() {
    let opts = resolve(Opts { args: vec!["foo".to_string()], pwd: None, config: None }).unwrap();
    assert_eq!(opts.operation, Operation::Print(Some("foo".to_string())));
}

#[test]
fn add_key_value() {
    let opts = resolve(Opts {
        args: vec!["add".to_string(), "foo".to_string(), "bar".to_string()],
        pwd: None,
        config: None,
    })
    .unwrap();
    assert_eq!(opts.operation, Operation::Add("foo".to_string(), "bar".to_string()));
}

#[test]
fn remove_key_value() {
    let opts = resolve(Opts {
        args: vec!["rm".to_string(), "foo".to_string()],
        pwd: None,
        config: None,
    })
    .unwrap();
    assert_eq!(opts.operation, Operation::Remove("foo".to_string()));
}

#[test]
fn add_wrong_count_fails() {
    let r = Operation::from_args(&vec!["add".to_string(), "foo".to_string()]);
    match r {
        Err(e) => {
            assert_eq!(e, UsageError::AddCount(1));
            assert_eq!(e.message(), "Operation 'add' expects 2 arguments, got 1 instead");
        },
        Ok(_) => panic!("expected a usage error"),
    }
}

#[test]
fn rm_wrong_count_fails() {
    let r = Operation::from_args(&vec!["rm".to_string()]);
    match r {
        Err(e) => {
            assert_eq!(e, UsageError::RemoveCount(0));
            assert_eq!(e.message(), "Operation 'remove' expects 1 arguments, got 0 instead");
        },
        Ok(_) => panic!("expected a usage error"),
    }
    let r2 = Operation::from_args(&vec!["rm".to_string(), "a".to_string(), "b".to_string()]);
    assert_eq!(r2, Err(UsageError::RemoveCount(2)));
}

#[test]
fn print_too_many_fails() {
    let r = Operation::from_args(&vec!["a".to_string(), "b".to_string()]);
    match r {
        Err(e) => {
            assert_eq!(e, UsageError::PrintCount(2));
            assert_eq!(e.message(), "Operation 'print' expects 0 or 1 arguments, got 2 instead");
        },
        Ok(_) => panic!("expected a usage error"),
    }
}

#[test]
fn default_store_path_under_home() {
    let cfg = resolve(Opts { args: vec![], pwd: None, config: None }).unwrap();
    assert_eq!(cfg.config, "/home/me/projector/projector.json");
    assert_eq!(cfg.pwd, "/somewhere");
}

#[test]
fn explicit_overrides_win() {
    let cfg = resolve(Opts {
        args: vec![],
        pwd: Some(String::from("/work")),
        config: Some(String::from("/tmp/store.json")),
    })
    .unwrap();
    assert_eq!(cfg.config, "/tmp/store.json");
    assert_eq!(cfg.pwd, "/work");
}

#[test]
fn missing_home_is_an_error() {
    let r = Config::resolve(
        Opts { args: vec![], pwd: None, config: None },
        None,
        Some(String::from("/somewhere")),
    );
    match r {
        Err(e) => {
            assert_eq!(e, ConfigError::MissingHome);
            assert_eq!(e.message(), "Unable to find HOME");
        },
        Ok(_) => panic!("expected an error"),
    }
}

#[test]
fn missing_working_dir_is_an_error() {
    let r = Config::resolve(
        Opts { args: vec![], pwd: None, config: Some(String::from("/tmp/store.json")) },
        None,
        None,
    );
    match r {
        Err(e) => {
            assert_eq!(e, ConfigError::MissingWorkingDir);
            assert_eq!(e.message(), "Unable to get current_dir");
        },
        Ok(_) => panic!("expected an error"),
    }
}
