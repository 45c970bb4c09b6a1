use taskmaster::dgressions::Master as PoolMaster;
use taskmaster::master::Master;
use taskmaster::taskmaster::config::Config;
use taskmaster::taskmaster::config::ConfigError;
use taskmaster::taskmaster::unit::{PollOutcome, Timestamp, Unit, UnitError, UnitResult};

fn unit(cmd: &str) -> Unit {
    let config = Config {
        cmd: cmd.to_string(),
        description: None,
        args: None,
        numprocs: None,
        workingdir: None,
        autostart: None,
        autorestart: None,
        exitcodes: None,
        startretries: None,
        starttime: None,
        stopsignal: None,
        stoptime: None,
        stdout: None,
        stderr: None,
        env: Some(vec!["X=1".to_string()]),
    };
    Unit::new(format!("{}.service", cmd), Ok(config)).unwrap()
}

fn t(secs: u64) -> Timestamp {
    Timestamp { secs, nanos: 0 }
}

#[test]
fn pool_master_lifecycle() {
    let mut units = PoolMaster::load_units(vec![
        ("a.service".to_string(), Ok(unit("a"))),
        ("b.service".to_string(), Ok(unit("b"))),
        ("b.conf".to_string(), Ok(unit("c"))),
    ]);
    assert_eq!(units.len(), 2);
    assert!(PoolMaster::units_alive(&units));
    let plans = PoolMaster::launch_plans(&units, &vec![]);
    assert_eq!(plans.len(), 2);
    match &plans[0] {
        Some(Ok(plan)) => assert_eq!(plan.env.get("X").map(|s| s.as_str()), Some("1")),
        _ => panic!("expected a launch plan"),
    }
    PoolMaster::start_all_units(&mut units, &vec![Some(5), Some(6)], t(1));
    assert!(units.value_at(0).is_running() && units.value_at(1).is_running());
    let restart = PoolMaster::update_units(&mut units, &vec![PollOutcome::StillRunning, PollOutcome::Exited]);
    assert_eq!(restart, vec![1]);
    PoolMaster::restart_unit(units.value_at_mut(1), PollOutcome::Exited);
    assert_eq!(units.value_at(1).unit.child, Some(6));
}

#[test]
fn pool_master_by_name() {
    let master = PoolMaster {};
    let mut units = PoolMaster::load_units(vec![("a.service".to_string(), Ok(unit("a")))]);
    assert!(matches!(
        master.start_unit_by_name(&mut units, "nope", 1, t(1)),
        Err(UnitError::DoesNotExist)
    ));
    assert!(matches!(
        master.plan_unit_by_name(&units, "nope", &vec![]),
        Err(UnitError::DoesNotExist)
    ));
    assert!(master.plan_unit_by_name(&units, "a.service", &vec![]).is_ok());
    assert!(master.start_unit_by_name(&mut units, "a.service", 1, t(1)).is_ok());
    assert!(matches!(
        master.start_unit_by_name(&mut units, "a.service", 2, t(2)),
        Err(UnitError::AlreadyRunning)
    ));
    let mut u = unit("b");
    assert!(PoolMaster::start_unit(&mut u, 3, t(3)).is_ok());
    assert!(matches!(PoolMaster::start_unit(&mut u, 4, t(4)), Err(UnitError::AlreadyRunning)));
}

#[test]
fn pool_master_empty_pool_not_alive() {
    let units = PoolMaster::load_units(vec![]);
    assert!(!PoolMaster::units_alive(&units));
}

#[test]
fn owning_master() {
    let mut m = Master::new();
    assert_eq!(m.units().len(), 0);
    m.add_unit("a.service".to_string(), unit("a"));
    m.add_unit("a.service".to_string(), unit("b"));
    assert_eq!(m.units().len(), 1);
    assert_eq!(m.units().value_at(0).unit.config().cmd, "b");
    m.restart_unit("a.service");
    assert_eq!(m.units().len(), 1);
    let started = m.start_unit(unit("c"), 9, t(9)).unwrap();
    assert_eq!(started.child, Some(9));
    let mut running = unit("d");
    running.start(1, t(1)).unwrap();
    assert_eq!(m.start_unit(running, 2, t(2)).err(), Some(()));
}

#[test]
fn pool_master_stops() {
    let master = PoolMaster {};
    let mut units = PoolMaster::load_units(vec![
        ("a.service".to_string(), Ok(unit("a"))),
        ("b.service".to_string(), Ok(unit("b"))),
    ]);
    PoolMaster::start_all_units(&mut units, &vec![Some(5), Some(6)], t(1));
    assert!(matches!(master.stop_unit(&mut units, "a.service"), Ok(5)));
    assert!(matches!(master.stop_unit(&mut units, "a.service"), Err(UnitError::AlreadyStopped)));
    assert!(matches!(master.stop_unit(&mut units, "z"), Err(UnitError::DoesNotExist)));
    assert_eq!(master.stop_all_units(&mut units), vec![6]);
}

#[test]
fn owning_master_loads_updates_and_stops() {
    let mut m = Master::new();
    let err = ConfigError::Io(std::io::Error::new(std::io::ErrorKind::Other, "bad"));
    let read: Vec<(String, UnitResult<Unit>)> = vec![
        ("a.service".to_string(), Ok(unit("a"))),
        ("notes".to_string(), Ok(unit("n"))),
        ("bad".to_string(), Err(UnitError::ConfigError(err))),
    ];
    m.load_units(read);
    assert_eq!(m.units().len(), 2);
    assert_eq!(m.units().name_at(1), "notes");
    assert!(matches!(m.stop_unit("a.service"), Err(UnitError::AlreadyStopped)));
    assert_eq!(m.stop_all_units(), Vec::<u32>::new());
}

#[test]
fn owning_master_update_lists_nothing_for_units_not_running() {
    let mut m = Master::new();
    let mut u = unit("a");
    u.start(3, t(1)).unwrap();
    m.add_unit("a.service".to_string(), u);
    assert_eq!(m.update(&vec![PollOutcome::Exited]), Vec::<usize>::new());
}
