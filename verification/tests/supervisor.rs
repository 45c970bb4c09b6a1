use taskmaster::taskmaster::config::Config;
use taskmaster::taskmaster::config::ConfigError;
use taskmaster::taskmaster::unit::{PollOutcome, Timestamp, Unit, UnitError, UnitResult};
use taskmaster::taskmaster::{is_unit_file, is_unit_file_name, Taskmaster, UnitInfo};

fn config(cmd: &str) -> Config {
    Config {
        cmd: cmd.to_string(),
        description: None,
        args: None,
        numprocs: None,
        workingdir: None,
        autostart: None,
        autorestart: None,
        exitcodes: None,
        startretries: None,
        starttime: None,
        stopsignal: None,
        stoptime: None,
        stdout: None,
        stderr: None,
        env: Some(vec![]),
    }
}

fn unit(cmd: &str) -> Unit {
    Unit::new(format!("units/{}.service", cmd), Ok(config(cmd))).unwrap()
}

fn loaded(names: &[&str]) -> Vec<(String, UnitResult<Unit>)> {
    names.iter().map(|n| (format!("{}.service", n), Ok(unit(n)))).collect()
}

fn t(secs: u64) -> Timestamp {
    Timestamp { secs, nanos: 0 }
}

#[test]
fn unit_file_names() {
    assert!(is_unit_file_name("nginx.service"));
    assert!(is_unit_file_name(".service"));
    assert!(!is_unit_file_name("nginx.conf"));
    assert!(!is_unit_file_name("service"));
    assert!(!is_unit_file_name("nginx.service.bak"));
}

#[test]
fn unit_info_new_is_idle() {
    let info = UnitInfo::new(unit("a"));
    assert_eq!(info.restarts(), 0);
    assert!(!info.is_running());
    assert_eq!(info.unit.child, None);
}

#[test]
fn new_taskmaster_has_no_unit_alive() {
    let tm = Taskmaster::new();
    assert!(!tm.units_alive());
    assert_eq!(tm.units().len(), 0);
}

#[test]
fn load_units_counts_and_keeps_order() {
    let mut tm = Taskmaster::new();
    assert_eq!(tm.load_units(loaded(&["a", "b", "c"])), 3);
    assert!(tm.units_alive());
    let pool = tm.units();
    assert_eq!(pool.len(), 3);
    assert_eq!(pool.name_at(0), "a.service");
    assert_eq!(pool.name_at(2), "c.service");
}

#[test]
fn load_units_same_name_replaces() {
    let mut tm = Taskmaster::new();
    let mut l = loaded(&["a", "b"]);
    l.push(("a.service".to_string(), Ok(unit("z"))));
    assert_eq!(tm.load_units(l), 3);
    let pool = tm.units();
    assert_eq!(pool.len(), 2);
    assert_eq!(pool.value_at(0).unit.config().cmd, "z");
}

#[test]
fn start_all_units_marks_running() {
    let mut tm = Taskmaster::new();
    tm.load_units(loaded(&["a", "b"]));
    let plans = tm.launch_plans(&vec![]);
    assert!(plans.iter().all(|p| matches!(p, Some(Ok(_)))));
    tm.start_all_units(&vec![Some(10), Some(11)], t(5));
    let pool = tm.units();
    for i in 0..2 {
        let info = pool.value_at(i);
        assert!(info.is_running());
        assert_eq!(info.unit.child, Some(10 + i as u32));
        assert_eq!(info.unit.started_at.secs, 5);
        assert_eq!(info.restarts(), 0);
    }
}

#[test]
fn start_all_units_skips_units_without_child_and_running_ones() {
    let mut tm = Taskmaster::new();
    tm.load_units(loaded(&["a", "b", "c"]));
    Taskmaster::start_unit_by_name(tm.units_mut(), "a.service", 1, t(1)).unwrap();
    let plans = tm.launch_plans(&vec![]);
    assert!(matches!(plans[0], Some(Err(UnitError::AlreadyRunning))));
    assert!(matches!(plans[1], Some(Ok(_))) && matches!(plans[2], Some(Ok(_))));
    tm.start_all_units(&vec![Some(99), None, Some(3)], t(2));
    let pool = tm.units();
    // Already had a child: refused, kept as it was (and not marked running).
    assert_eq!(pool.value_at(0).unit.child, Some(1));
    assert!(!pool.value_at(0).is_running());
    // No child launched: untouched.
    assert_eq!(pool.value_at(1).unit.child, None);
    assert!(!pool.value_at(1).is_running());
    assert_eq!(pool.value_at(2).unit.child, Some(3));
    assert!(pool.value_at(2).is_running());
}

#[test]
fn start_unit_by_name_missing() {
    let mut tm = Taskmaster::new();
    tm.load_units(loaded(&["a"]));
    match Taskmaster::start_unit_by_name(tm.units_mut(), "b.service", 1, t(1)) {
        Err(UnitError::DoesNotExist) => {}
        _ => panic!("expected DoesNotExist"),
    }
    assert_eq!(tm.units().value_at(0).unit.child, None);
    match Taskmaster::plan_unit_by_name(tm.units(), "b.service", &vec![]) {
        Err(UnitError::DoesNotExist) => {}
        _ => panic!("expected DoesNotExist"),
    }
}

#[test]
fn start_unit_by_name_then_again() {
    let mut tm = Taskmaster::new();
    tm.load_units(loaded(&["a", "b"]));
    let plan = Taskmaster::plan_unit_by_name(tm.units(), "b.service", &vec![]).unwrap();
    assert_eq!(plan.program, "b");
    assert!(Taskmaster::start_unit_by_name(tm.units_mut(), "b.service", 8, t(3)).is_ok());
    assert_eq!(tm.units().value_at(1).unit.child, Some(8));
    assert_eq!(tm.units().value_at(0).unit.child, None);
    match Taskmaster::start_unit_by_name(tm.units_mut(), "b.service", 9, t(4)) {
        Err(UnitError::AlreadyRunning) => {}
        _ => panic!("expected AlreadyRunning"),
    }
    assert_eq!(tm.units().value_at(1).unit.child, Some(8));
}

#[test]
fn start_unit_directly() {
    let mut u = unit("a");
    assert!(Taskmaster::start_unit(&mut u, 4, t(1)).is_ok());
    assert!(matches!(Taskmaster::start_unit(&mut u, 5, t(2)), Err(UnitError::AlreadyRunning)));
}

#[test]
fn update_units_lists_exited_running_units() {
    let mut tm = Taskmaster::new();
    tm.load_units(loaded(&["a", "b", "c", "d"]));
    tm.start_all_units(&vec![Some(1), Some(2), Some(3), Some(4)], t(1));
    let polls = vec![
        PollOutcome::Exited,
        PollOutcome::StillRunning,
        PollOutcome::Failed,
        PollOutcome::Exited,
    ];
    assert_eq!(tm.update_units(&polls), vec![0, 3]);
    assert_eq!(tm.units().value_at(0).unit.child, Some(1));
    assert!(tm.units().value_at(0).is_running());
}

#[test]
fn update_units_ignores_units_not_marked_running() {
    let mut tm = Taskmaster::new();
    tm.load_units(loaded(&["a"]));
    Taskmaster::start_unit_by_name(tm.units_mut(), "a.service", 1, t(1)).unwrap();
    assert_eq!(tm.update_units(&vec![PollOutcome::Exited]), Vec::<usize>::new());
}

#[test]
fn restart_unit_leaves_unit() {
    let mut tm = Taskmaster::new();
    tm.load_units(loaded(&["a"]));
    tm.start_all_units(&vec![Some(1)], t(1));
    let info = tm.units_mut().value_at_mut(0);
    Taskmaster::restart_unit(info, PollOutcome::Exited);
    assert_eq!(info.unit.child, Some(1));
    assert!(info.is_running());
    assert_eq!(info.restarts(), 0);
}

#[test]
fn unit_files_are_regular_service_files() {
    assert!(is_unit_file("a.service", true));
    assert!(!is_unit_file("a.service", false));
    assert!(!is_unit_file("a.conf", true));
}

#[test]
fn load_units_keeps_service_units_that_were_created() {
    let mut tm = Taskmaster::new();
    let err = ConfigError::Io(std::io::Error::new(std::io::ErrorKind::Other, "unreadable"));
    let read: Vec<(String, UnitResult<Unit>)> = vec![
        ("a.service".to_string(), Ok(unit("a"))),
        ("notes.txt".to_string(), Ok(unit("n"))),
        ("b.service".to_string(), Err(UnitError::ConfigError(err))),
        ("c.service".to_string(), Ok(unit("c"))),
    ];
    assert_eq!(tm.load_units(read), 2);
    let pool = tm.units();
    assert_eq!(pool.len(), 2);
    assert_eq!(pool.name_at(0), "a.service");
    assert_eq!(pool.name_at(1), "c.service");
    assert!(!pool.contains_key("notes.txt"));
    assert!(!pool.contains_key("b.service"));
}

fn disabled_unit(cmd: &str) -> Unit {
    let mut c = config(cmd);
    c.autostart = Some(false);
    Unit::new(format!("units/{}.service", cmd), Ok(c)).unwrap()
}

#[test]
fn start_all_units_leaves_disabled_units() {
    let mut tm = Taskmaster::new();
    let mut read = loaded(&["a"]);
    read.push(("off.service".to_string(), Ok(disabled_unit("off"))));
    let mut on = config("on");
    on.autostart = Some(true);
    read.push(("on.service".to_string(), Ok(Unit::new("on.service".to_string(), Ok(on)).unwrap())));
    tm.load_units(read);
    assert!(tm.units().value_at(0).unit.starts_by_default());
    assert!(!tm.units().value_at(1).unit.starts_by_default());
    assert!(tm.units().value_at(2).unit.starts_by_default());
    let plans = tm.launch_plans(&vec![]);
    assert!(matches!(plans[0], Some(Ok(_))));
    assert!(plans[1].is_none());
    assert!(matches!(plans[2], Some(Ok(_))));
    // Even a pid handed for the disabled unit does not start it.
    tm.start_all_units(&vec![Some(1), Some(2), Some(3)], t(1));
    let pool = tm.units();
    assert_eq!(pool.value_at(1).unit.child, None);
    assert!(!pool.value_at(1).is_running());
    assert_eq!(pool.value_at(0).unit.child, Some(1));
    assert_eq!(pool.value_at(2).unit.child, Some(3));
    // Starting it by name still does.
    assert!(Taskmaster::start_unit_by_name(tm.units_mut(), "off.service", 9, t(2)).is_ok());
    assert_eq!(tm.units().value_at(1).unit.child, Some(9));
}

#[test]
fn stop_all_units_gives_running_children() {
    let mut tm = Taskmaster::new();
    tm.load_units(loaded(&["a", "b", "c"]));
    tm.start_all_units(&vec![Some(1), None, Some(3)], t(1));
    assert_eq!(tm.stop_all_units(), vec![1, 3]);
    for i in 0..3 {
        assert!(!tm.units().value_at(i).is_running());
    }
    assert_eq!(tm.units().value_at(0).unit.child, Some(1));
    assert_eq!(tm.stop_all_units(), Vec::<u32>::new());
    // Stopped units are not restarted.
    Taskmaster::start_unit_by_name(tm.units_mut(), "b.service", 2, t(2)).unwrap();
    let polls = vec![PollOutcome::Exited, PollOutcome::Exited, PollOutcome::Exited];
    assert_eq!(tm.update_units(&polls), Vec::<usize>::new());
}

#[test]
fn stop_unit_by_name() {
    let mut tm = Taskmaster::new();
    tm.load_units(loaded(&["a", "b"]));
    tm.start_all_units(&vec![Some(1), Some(2)], t(1));
    assert!(matches!(tm.stop_unit("x.service"), Err(UnitError::DoesNotExist)));
    assert!(matches!(tm.stop_unit("b.service"), Ok(2)));
    assert!(!tm.units().value_at(1).is_running());
    assert!(tm.units().value_at(0).is_running());
    assert!(matches!(tm.stop_unit("b.service"), Err(UnitError::AlreadyStopped)));
}
