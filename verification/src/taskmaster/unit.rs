//! A unit holds what is needed to run a single command and keep track of it.

use vstd::prelude::*;
use crate::taskmaster::config::{Config, ConfigError, ConfigResult};
use crate::taskmaster::env::{
    EnvVars, build_env, command_env, config_entries, entry_pairs, env_map, env_ready, insert_all,
    pair_views,
};
use crate::text::{copy_opt_string, copy_strings, opt_view, strings_view};

verus! {

/// A point in time, as seconds and nanoseconds since the Unix epoch.
#[derive(Debug, Clone, Copy)]
pub struct Timestamp {
    pub secs: u64,
    pub nanos: u32,
}

impl Timestamp {
    /// The Unix epoch itself.
    pub fn unix_epoch() -> (r: Self)
        ensures
            r.secs == 0,
            r.nanos == 0,
    {
        Timestamp { secs: 0, nanos: 0 }
    }
}

/// Why an operation on a unit was refused.
#[derive(Debug)]
pub enum UnitError {
    AlreadyRunning,
    AlreadyStopped,
    DoesNotExist,
    ConfigError(ConfigError),
}

/// Result of an operation on a unit.
pub type UnitResult<T> = Result<T, UnitError>;

/// How to launch a unit's command: the program, its arguments, the working directory, the
/// files its standard output and error go to, and its environment.
pub struct LaunchPlan {
    pub program: String,
    pub args: Vec<String>,
    pub working_dir: Option<String>,
    pub stdout: Option<String>,
    pub stderr: Option<String>,
    pub env: EnvVars,
}

/// `plan` launches the command that `config` describes, in the environment inherited from
/// `inherited` and completed by `config`'s `env` list.
pub open spec fn plan_for(plan: LaunchPlan, config: Config, inherited: Seq<(Seq<char>, Seq<char>)>) -> bool {
    &&& plan.program@ == config.cmd@
    &&& strings_view(plan.args@) == match config.args {
        Some(a) => strings_view(a@),
        None => Seq::<Seq<char>>::empty(),
    }
    &&& opt_view(plan.working_dir) == opt_view(config.workingdir)
    &&& opt_view(plan.stdout) == opt_view(config.stdout)
    &&& opt_view(plan.stderr) == opt_view(config.stderr)
    &&& env_map(plan.env@) == command_env(inherited, config_entries(config))
}

/// Information about the unit.
pub struct Unit {
    /// The time at which the process was last started.
    pub started_at: Timestamp,
    /// Process id of the running child process.
    pub child: Option<u32>,
    /// Configuration populated from the TOML configuration file.
    config: Config,
    /// Path of the unit's configuration file.
    path: String,
}

/// `r` is what [`Unit::launch_plan`] gives for `unit` with inherited variables `inherited`:
/// a refusal when the unit has a child, else the plan of its configuration.
pub open spec fn launch_outcome(
    unit: Unit,
    inherited: Seq<(Seq<char>, Seq<char>)>,
    r: UnitResult<LaunchPlan>,
) -> bool {
    match r {
        Ok(plan) => unit.child_pid() is None && plan_for(plan, unit.configuration(), inherited),
        Err(e) => unit.child_pid() is Some && e is AlreadyRunning,
    }
}

/// What polling a unit's child process reported.
#[derive(Debug, Clone, Copy, PartialEq, Eq)]
pub enum PollOutcome {
    /// The child has exited.
    Exited,
    /// The child is still running.
    StillRunning,
    /// Polling failed.
    Failed,
}

/// `after` is `before` started with child `pid` at time `now`: it records the child and the
/// time and keeps its configuration.
pub open spec fn unit_started(before: Unit, after: Unit, pid: u32, now: Timestamp) -> bool {
    &&& after.child_pid() == Some(pid)
    &&& after.started_time() == now
    &&& after.configuration() == before.configuration()
    &&& after.config_path() == before.config_path()
}

/// Whether `unit` counts as alive: every unit does.
pub open spec fn unit_alive(unit: Unit) -> bool {
    true
}

/// Whether `unit` is started when all units are: unless its configuration sets `autostart`
/// to `false` (the daemon is disabled).
pub open spec fn starts_by_default(unit: Unit) -> bool {
    unit.configuration().autostart != Some(false)
}

/// `after` and `r` are what [`Unit::start`] makes of `before` with child `pid` at time `now`:
/// a refusal that changes nothing when a child is already there, else the unit records the
/// child and the time.
pub open spec fn start_outcome(before: Unit, after: Unit, pid: u32, now: Timestamp, r: UnitResult<()>) -> bool {
    match before.child_pid() {
        Some(_) => r matches Err(UnitError::AlreadyRunning) && after == before,
        None => r is Ok && unit_started(before, after, pid, now),
    }
}

impl Unit {
    /// Process id of the unit's child process, if it has one.
    pub closed spec fn child_pid(self) -> Option<u32> {
        self.child
    }

    /// The time at which the unit was last started.
    pub closed spec fn started_time(self) -> Timestamp {
        self.started_at
    }

    /// The unit's configuration.
    pub closed spec fn configuration(self) -> Config {
        self.config
    }

    /// The path of the unit's configuration file.
    pub closed spec fn config_path(self) -> Seq<char> {
        self.path@
    }

    /// Creates a unit from the configuration read from the file at `path`.
    pub fn new(path: String, config: ConfigResult<Config>) -> (r: UnitResult<Unit>)
        ensures
            match config {
                Ok(c) => r matches Ok(u) && u.configuration() == c && u.config_path() == path@
                    && u.child_pid() is None && u.started_time().secs == 0
                    && u.started_time().nanos == 0,
                Err(e) => r matches Err(UnitError::ConfigError(e2)) && e2 == e,
            },
    {
        match config {
            Ok(config) => Ok(Unit { started_at: Timestamp::unix_epoch(), config, path, child: None }),
            Err(e) => Err(UnitError::ConfigError(e)),
        }
    }

    /// The unit's configuration.
    pub fn config(&self) -> (r: &Config)
        ensures
            *r == self.configuration(),
    {
        &self.config
    }

    /// The path of the unit's configuration file.
    pub fn path(&self) -> (r: &String)
        ensures
            r@ == self.config_path(),
    {
        &self.path
    }

    /// Creates the environment for the unit: the inherited variables, overridden by the
    /// configured `env` entries; a unit without an `env` list gets the inherited variables.
    pub fn build_env(config: &Config, inherited: &Vec<(String, String)>) -> (r: EnvVars)
        requires
            env_ready(*config),
        ensures
            env_map(r@) == command_env(pair_views(inherited@), config_entries(*config)),
    {
        build_env(config, inherited)
    }

    /// What starting the unit launches: refused with `AlreadyRunning` when the unit has a
    /// child, else the command of its configuration, in the environment inherited from
    /// `inherited` and completed by its `env` list.
    pub fn launch_plan(&self, inherited: &Vec<(String, String)>) -> (r: UnitResult<LaunchPlan>)
        requires
            self.child_pid() is None ==> env_ready(self.configuration()),
        ensures
            launch_outcome(*self, pair_views(inherited@), r),
    {
        if self.child.is_some() {
            return Err(UnitError::AlreadyRunning);
        }
        let program = self.config.cmd.clone();
        let working_dir = copy_opt_string(&self.config.workingdir);
        let stdout = copy_opt_string(&self.config.stdout);
        let stderr = copy_opt_string(&self.config.stderr);
        let env = Unit::build_env(&self.config, inherited);
        let args = match &self.config.args {
            Some(arguments) => copy_strings(arguments),
            None => {
                let v: Vec<String> = Vec::new();
                assert(strings_view(v@) =~= Seq::<Seq<char>>::empty());
                v
            },
        };
        Ok(LaunchPlan { program, args, working_dir, stdout, stderr, env })
    }

    /// Starts the unit with the child process `pid`, launched at time `now` from the unit's
    /// launch plan: refused with `AlreadyRunning` when the unit already has a child.
    pub fn start(&mut self, pid: u32, now: Timestamp) -> (r: UnitResult<()>)
        ensures
            start_outcome(*old(self), *final(self), pid, now, r),
    {
        if self.child.is_some() {
            return Err(UnitError::AlreadyRunning);
        }
        self.started_at = now;
        self.child = Some(pid);
        Ok(())
    }

    /// Stops the unit: gives the process id to kill, if the unit has a child; the unit keeps
    /// its child.
    pub fn stop(&mut self) -> (r: Option<u32>)
        ensures
            r == old(self).child_pid(),
            *final(self) == *old(self),
    {
        self.child
    }

    /// Whether the unit is alive; every unit counts as alive.
    pub fn is_alive(&self) -> (r: bool)
        ensures
            r == unit_alive(*self),
            r,
    {
        true
    }

    /// Whether the unit is started when all units are: unless its configuration sets
    /// `autostart` to `false`.
    pub fn starts_by_default(&self) -> (r: bool)
        ensures
            r == starts_by_default(*self),
    {
        match self.config.autostart {
            Some(false) => false,
            _ => true,
        }
    }
}

/// Starting succeeds exactly when the launch plan is granted: both are refused exactly when
/// the unit already has a child.
pub proof fn lemma_plan_and_start_agree(
    unit: Unit,
    after: Unit,
    inherited: Seq<(Seq<char>, Seq<char>)>,
    plan: UnitResult<LaunchPlan>,
    pid: u32,
    now: Timestamp,
    r: UnitResult<()>,
)
    requires
        launch_outcome(unit, inherited, plan),
        start_outcome(unit, after, pid, now, r),
    ensures
        plan is Ok <==> r is Ok,
        r is Err ==> after == unit,
{
}

/// A started unit refuses a second start and is left as it was.
pub proof fn lemma_start_twice(
    unit: Unit,
    mid: Unit,
    after: Unit,
    pid1: u32,
    pid2: u32,
    t1: Timestamp,
    t2: Timestamp,
    r1: UnitResult<()>,
    r2: UnitResult<()>,
)
    requires
        start_outcome(unit, mid, pid1, t1, r1),
        start_outcome(mid, after, pid2, t2, r2),
    ensures
        r2 matches Err(UnitError::AlreadyRunning),
        after == mid,
        mid.child_pid() is Some,
{
}

} // verus!

verus! {

/// A granted launch plan runs the configured command: its program, arguments, working
/// directory, standard output and error files are those of the unit's configuration, and its
/// environment is the inherited variables overridden, in order, by the unit's `env` entries.
/// It is granted exactly when the unit has no child.
pub proof fn lemma_launch_plan_follows_config(
    unit: Unit,
    inherited: Seq<(Seq<char>, Seq<char>)>,
    r: UnitResult<LaunchPlan>,
)
    requires
        launch_outcome(unit, inherited, r),
    ensures
        r is Ok <==> unit.child_pid() is None,
        r is Err ==> r matches Err(UnitError::AlreadyRunning),
        r matches Ok(plan) ==> {
            let c = unit.configuration();
            &&& plan.program@ == c.cmd@
            &&& plan.args@.len() == (match c.args {
                Some(a) => a@.len(),
                None => 0,
            })
            &&& forall|i: int|
                0 <= i < plan.args@.len() ==> (#[trigger] plan.args@[i])@ == c.args->0@[i]@
            &&& (plan.working_dir is Some <==> c.workingdir is Some)
            &&& plan.working_dir is Some ==> plan.working_dir->0@ == c.workingdir->0@
            &&& (plan.stdout is Some <==> c.stdout is Some)
            &&& plan.stdout is Some ==> plan.stdout->0@ == c.stdout->0@
            &&& (plan.stderr is Some <==> c.stderr is Some)
            &&& plan.stderr is Some ==> plan.stderr->0@ == c.stderr->0@
            &&& env_map(plan.env@) == insert_all(
                insert_all(Map::empty(), inherited),
                entry_pairs(config_entries(c)),
            )
        },
{
    if let Ok(plan) = r {
        let c = unit.configuration();
        assert(strings_view(plan.args@).len() == plan.args@.len());
        match c.args {
            Some(a) => {
                assert(strings_view(a@).len() == a@.len());
                assert forall|i: int| 0 <= i < plan.args@.len() implies (#[trigger] plan.args@[i])@
                    == a@[i]@ by {
                    assert(strings_view(plan.args@)[i] == plan.args@[i]@);
                    assert(strings_view(a@)[i] == a@[i]@);
                }
            },
            None => {},
        }
    }
}

} // verus!
