use taskmaster::taskmaster::config::{Config, ConfigError};
use taskmaster::taskmaster::unit::{Timestamp, Unit, UnitError};

fn config(cmd: &str) -> Config {
    Config {
        cmd: cmd.to_string(),
        description: Some("test unit".to_string()),
        args: Some(vec!["-l".to_string(), "/tmp".to_string()]),
        numprocs: Some(1),
        workingdir: Some("/tmp".to_string()),
        autostart: Some(true),
        autorestart: None,
        exitcodes: None,
        startretries: None,
        starttime: None,
        stopsignal: None,
        stoptime: None,
        stdout: Some("/tmp/out.log".to_string()),
        stderr: None,
        env: Some(vec!["MODE=test".to_string()]),
    }
}

fn now(secs: u64) -> Timestamp {
    Timestamp { secs, nanos: 5 }
}

#[test]
fn new_unit_is_idle_at_epoch() {
    let u = Unit::new("units/ls.service".to_string(), Ok(config("/bin/ls"))).unwrap();
    assert_eq!(u.child, None);
    assert_eq!(u.started_at.secs, 0);
    assert_eq!(u.started_at.nanos, 0);
    assert_eq!(u.path(), "units/ls.service");
    assert_eq!(u.config().cmd, "/bin/ls");
}

#[test]
fn new_unit_reports_config_error() {
    let err = ConfigError::Io(std::io::Error::new(std::io::ErrorKind::NotFound, "gone"));
    match Unit::new("x.service".to_string(), Err(err)) {
        Err(UnitError::ConfigError(ConfigError::Io(e))) => {
            assert_eq!(e.kind(), std::io::ErrorKind::NotFound)
        }
        _ => panic!("expected a configuration error"),
    }
}

#[test]
fn launch_plan_of_idle_unit() {
    let u = Unit::new("ls.service".to_string(), Ok(config("/bin/ls"))).unwrap();
    let inherited = vec![("HOME".to_string(), "/root".to_string())];
    let plan = u.launch_plan(&inherited).unwrap();
    assert_eq!(plan.program, "/bin/ls");
    assert_eq!(plan.args, vec!["-l".to_string(), "/tmp".to_string()]);
    assert_eq!(plan.working_dir.as_deref(), Some("/tmp"));
    assert_eq!(plan.stdout.as_deref(), Some("/tmp/out.log"));
    assert_eq!(plan.stderr, None);
    assert_eq!(plan.env.get("MODE").map(|s| s.as_str()), Some("test"));
    assert_eq!(plan.env.get("HOME").map(|s| s.as_str()), Some("/root"));
}

#[test]
fn launch_plan_without_args() {
    let mut c = config("/bin/ls");
    c.args = None;
    let u = Unit::new("ls.service".to_string(), Ok(c)).unwrap();
    let plan = u.launch_plan(&vec![]).unwrap();
    assert!(plan.args.is_empty());
}

#[test]
fn start_records_child_and_time() {
    let mut u = Unit::new("ls.service".to_string(), Ok(config("/bin/ls"))).unwrap();
    assert!(u.start(42, now(100)).is_ok());
    assert_eq!(u.child, Some(42));
    assert_eq!(u.started_at.secs, 100);
    assert_eq!(u.started_at.nanos, 5);
}

#[test]
fn start_twice_is_refused() {
    let mut u = Unit::new("ls.service".to_string(), Ok(config("/bin/ls"))).unwrap();
    u.start(42, now(100)).unwrap();
    match u.start(43, now(200)) {
        Err(UnitError::AlreadyRunning) => {}
        _ => panic!("expected AlreadyRunning"),
    }
    assert_eq!(u.child, Some(42));
    assert_eq!(u.started_at.secs, 100);
    match u.launch_plan(&vec![]) {
        Err(UnitError::AlreadyRunning) => {}
        _ => panic!("expected AlreadyRunning"),
    }
}

#[test]
fn stop_gives_child_to_kill() {
    let mut u = Unit::new("ls.service".to_string(), Ok(config("/bin/ls"))).unwrap();
    assert_eq!(u.stop(), None);
    u.start(7, now(1)).unwrap();
    assert_eq!(u.stop(), Some(7));
    assert_eq!(u.child, Some(7));
}

#[test]
fn every_unit_is_alive() {
    let u = Unit::new("ls.service".to_string(), Ok(config("/bin/ls"))).unwrap();
    assert!(u.is_alive());
}

#[test]
fn build_env_of_unit() {
    let c = config("/bin/ls");
    let env = Unit::build_env(&c, &vec![("MODE".to_string(), "prod".to_string())]);
    assert_eq!(env.get("MODE").map(|s| s.as_str()), Some("test"));
}

#[test]
fn epoch() {
    let t = Timestamp::unix_epoch();
    assert_eq!((t.secs, t.nanos), (0, 0));
}

#[test]
fn launch_plan_without_env_list_inherits() {
    let mut c = config("/bin/ls");
    c.env = None;
    let u = Unit::new("ls.service".to_string(), Ok(c)).unwrap();
    let plan = u.launch_plan(&vec![("HOME".to_string(), "/root".to_string())]).unwrap();
    assert_eq!(plan.env.len(), 1);
    assert_eq!(plan.env.get("HOME").map(|s| s.as_str()), Some("/root"));
}
