//! Controls every unit: the supervisor's operations over a pool of units that the caller
//! holds.

use vstd::prelude::*;
use crate::pool::position_of;
use crate::text::has_suffix;
use crate::taskmaster::env::{env_ready, pair_views};
use crate::taskmaster::unit::{LaunchPlan, PollOutcome, Timestamp, Unit, UnitError, UnitResult, launch_outcome, start_outcome, unit_alive};
use crate::taskmaster::{
    all_stopped, any_unit_alive, launch_plans_of, pids_to_stop, stop_by_name_outcome,
    stop_named_unit, stop_units_in, selected_units, start_all_plan, start_all_ready, load_units_into, loaded_into, start_all_entry,
    start_all_units_in, start_by_name_outcome, start_named_unit, named_launch_plan,
    units_to_restart, units_to_restart_in,
};

pub use crate::taskmaster::{UnitInfo, UnitPool};

verus! {

/// Controls every unit.
pub struct Master {}

impl Master {
    /// The pool of the units read from the unit folder, in order: `read` holds the name of
    /// each unit file read and the unit made from it, or why none could be. A unit is loaded
    /// when its name ends with `.service` and it could be created; it replaces a loaded one of
    /// the same name.
    pub fn load_units(read: Vec<(String, UnitResult<Unit>)>) -> (units: UnitPool)
        ensures
            units@ == loaded_into(Seq::empty(), selected_units(read@)),
            forall|i: int|
                0 <= i < units@.len() ==> has_suffix((#[trigger] units@[i]).0, ".service"@),
    {
        let mut units = UnitPool::new();
        load_units_into(&mut units, read);
        units
    }

    /// Cycles through the units and updates their state: `polls[i]` is what polling the
    /// child of unit `i` reported. Gives the positions of the units to restart; the units
    /// stay as they are.
    pub fn update_units(units: &mut UnitPool, polls: &Vec<PollOutcome>) -> (restart: Vec<usize>)
        requires
            polls@.len() == old(units)@.len(),
            forall|i: int|
                0 <= i < old(units)@.len() ==> (#[trigger] old(units)@[i]).1.info_unit().child_pid() is Some,
        ensures
            final(units)@ == old(units)@,
            restart@ == units_to_restart(old(units)@, polls@, old(units)@.len() as int),
    {
        units_to_restart_in(units, polls)
    }

    /// What starting all units launches, in order: nothing for a disabled unit
    /// (`autostart = false`), else its launch plan.
    pub fn launch_plans(units: &UnitPool, inherited: &Vec<(String, String)>) -> (r: Vec<Option<UnitResult<LaunchPlan>>>)
        requires
            start_all_ready(units@),
        ensures
            r@.len() == units@.len(),
            forall|i: int|
                0 <= i < units@.len() ==> start_all_plan(
                    (#[trigger] units@[i]).1.info_unit(),
                    pair_views(inherited@),
                    r@[i],
                ),
    {
        launch_plans_of(units, inherited)
    }

    /// Starts all units for which a child was launched: `spawned[i]` is the process id of the
    /// child launched for unit `i`, if any. Each unit so started is marked running; a disabled
    /// unit (`autostart = false`) is left as it was.
    pub fn start_all_units(units: &mut UnitPool, spawned: &Vec<Option<u32>>, now: Timestamp)
        requires
            spawned@.len() == old(units)@.len(),
        ensures
            final(units)@.len() == old(units)@.len(),
            forall|i: int|
                0 <= i < old(units)@.len() ==> (#[trigger] final(units)@[i]).0 == old(units)@[i].0
                    && start_all_entry(old(units)@[i].1, final(units)@[i].1, spawned@[i], now),
    {
        start_all_units_in(units, spawned, now)
    }

    /// Starts a unit with child `pid` launched at time `now`.
    pub fn start_unit(unit: &mut Unit, pid: u32, now: Timestamp) -> (r: Result<(), UnitError>)
        ensures
            start_outcome(*old(unit), *final(unit), pid, now, r),
    {
        unit.start(pid, now)
    }

    /// Starts the unit named `name` with child `pid` launched at time `now`:
    /// `DoesNotExist` when no unit has that name.
    pub fn start_unit_by_name(&self, units: &mut UnitPool, name: &str, pid: u32, now: Timestamp) -> (r: Result<(), UnitError>)
        ensures
            start_by_name_outcome(old(units)@, final(units)@, name@, pid, now, r),
    {
        if !units.contains_key(name) {
            proof {
                crate::pool::lemma_position_of(units@, name@);
            }
            return Err(UnitError::DoesNotExist);
        }
        match start_named_unit(units, name, pid, now) {
            Ok(_) => Ok(()),
            err => err,
        }
    }

    /// What starting the unit named `name` launches: `DoesNotExist` when no unit has that
    /// name, else that unit's launch plan.
    pub fn plan_unit_by_name(&self, units: &UnitPool, name: &str, inherited: &Vec<(String, String)>) -> (r: UnitResult<LaunchPlan>)
        requires
            position_of(units@, name@) matches Some(i) ==> (units@[i].1.info_unit().child_pid() is None
                ==> env_ready(units@[i].1.info_unit().configuration())),
        ensures
            match position_of(units@, name@) {
                None => r matches Err(UnitError::DoesNotExist),
                Some(i) => launch_outcome(units@[i].1.info_unit(), pair_views(inherited@), r),
            },
    {
        named_launch_plan(units, name, inherited)
    }

    /// Handles a unit whose child has exited while it was marked running: its child is polled
    /// once more (`poll` is what that poll reported), and nothing else is done to the unit.
    pub fn restart_unit(unit: &mut UnitInfo, poll: PollOutcome)
        requires
            old(unit).info_unit().child_pid() is Some,
        ensures
            *final(unit) == *old(unit),
    {
    }

    /// Stops all running units: gives the process ids of the children of the units marked
    /// running, to be killed, and marks those units no longer running.
    pub fn stop_all_units(&self, units: &mut UnitPool) -> (pids: Vec<u32>)
        ensures
            all_stopped(old(units)@, final(units)@),
            pids@ == pids_to_stop(old(units)@, old(units)@.len() as int),
    {
        stop_units_in(units)
    }

    /// Stops the running unit named `name`: gives the process id of its child, to be killed,
    /// and marks it no longer running; `DoesNotExist` when no unit has that name,
    /// `AlreadyStopped` when it is not running.
    pub fn stop_unit(&self, units: &mut UnitPool, name: &str) -> (r: UnitResult<u32>)
        ensures
            stop_by_name_outcome(old(units)@, final(units)@, name@, r),
    {
        stop_named_unit(units, name)
    }

    /// Whether any unit is alive: there is at least one unit.
    pub fn units_alive(units: &UnitPool) -> (r: bool)
        ensures
            r == exists|i: int| 0 <= i < units@.len() && unit_alive((#[trigger] units@[i]).1.info_unit()),
            r == (units@.len() > 0),
    {
        any_unit_alive(units)
    }
}

} // verus!
