//! The supervisor: loads units, starts them, watches them.

pub mod config;
pub mod env;
pub mod unit;

use vstd::prelude::*;
use crate::pool::{
    Pool, distinct_names, inserted, lemma_inserted_distinct, lemma_inserted_map, lemma_position_of,
    lookup_map, position_of,
};
use crate::taskmaster::env::{env_ready, pair_views};
use crate::taskmaster::unit::{
    LaunchPlan, PollOutcome, Timestamp, Unit, UnitError, UnitResult, launch_outcome,
    start_outcome, starts_by_default, unit_alive, unit_started,
};
use crate::text::{ends_with, has_suffix};

verus! {

/// A unit under supervision, with its bookkeeping.
pub struct UnitInfo {
    pub unit: Unit,
    /// Current number of restarts.
    restarts: u32,
    is_running: bool,
}

/// The units under supervision, by name.
pub type UnitPool = Pool<UnitInfo>;

impl UnitInfo {
    /// The supervised unit.
    pub closed spec fn info_unit(self) -> Unit {
        self.unit
    }

    /// Number of restarts so far.
    pub closed spec fn restart_count(self) -> u32 {
        self.restarts
    }

    /// Whether the unit was started by the supervisor.
    pub closed spec fn running(self) -> bool {
        self.is_running
    }

    /// The bookkeeping of a unit that has just been loaded.
    pub closed spec fn fresh(unit: Unit) -> UnitInfo {
        UnitInfo { unit, restarts: 0, is_running: false }
    }

    /// The bookkeeping of this unit once it is stopped: no longer marked running.
    pub closed spec fn stopped(self) -> UnitInfo {
        UnitInfo { is_running: false, ..self }
    }

    /// What a stopped unit's bookkeeping holds.
    pub proof fn lemma_stopped(self)
        ensures
            self.stopped().info_unit() == self.info_unit(),
            self.stopped().restart_count() == self.restart_count(),
            !self.stopped().running(),
    {
    }

    /// What a freshly loaded unit's bookkeeping holds.
    pub proof fn lemma_fresh(unit: Unit)
        ensures
            UnitInfo::fresh(unit).info_unit() == unit,
            UnitInfo::fresh(unit).restart_count() == 0,
            !UnitInfo::fresh(unit).running(),
    {
    }

    /// Bookkeeping for a unit that has just been loaded: no restarts, not running.
    pub fn new(unit: Unit) -> (r: UnitInfo)
        ensures
            r == UnitInfo::fresh(unit),
            r.info_unit() == unit,
            r.restart_count() == 0,
            !r.running(),
    {
        UnitInfo { unit, restarts: 0, is_running: false }
    }

    /// Number of restarts so far.
    pub fn restarts(&self) -> (r: u32)
        ensures
            r == self.restart_count(),
    {
        self.restarts
    }

    /// Whether the unit was started by the supervisor.
    pub fn is_running(&self) -> (r: bool)
        ensures
            r == self.running(),
    {
        self.is_running
    }
}

/// `after` is the bookkeeping of `before` once the supervisor started it with child `pid` at
/// time `now`: the unit is started, marked running, its restart count kept.
pub open spec fn info_started(before: UnitInfo, after: UnitInfo, pid: u32, now: Timestamp) -> bool {
    &&& unit_started(before.info_unit(), after.info_unit(), pid, now)
    &&& after.running()
    &&& after.restart_count() == before.restart_count()
}

/// What starting all units does to one entry: where a child `pid` was launched for an idle
/// unit that starts by default, the unit is started and marked running; every other entry,
/// a disabled unit's among them, stays as it was.
pub open spec fn start_all_entry(
    before: UnitInfo,
    after: UnitInfo,
    spawned: Option<u32>,
    now: Timestamp,
) -> bool {
    if !starts_by_default(before.info_unit()) {
        after == before
    } else {
        match spawned {
            Some(pid) => if before.info_unit().child_pid() is None {
                info_started(before, after, pid, now)
            } else {
                after == before
            },
            None => after == before,
        }
    }
}

/// `p` is what starting all units launches for `unit`: nothing for a disabled unit, else its
/// launch plan (see [`Unit::launch_plan`]).
pub open spec fn start_all_plan(
    unit: Unit,
    inherited: Seq<(Seq<char>, Seq<char>)>,
    p: Option<UnitResult<LaunchPlan>>,
) -> bool {
    if starts_by_default(unit) {
        p matches Some(r) && launch_outcome(unit, inherited, r)
    } else {
        p is None
    }
}

/// The units that starting all units launches can all have their environment built: each
/// idle unit that starts by default has a usable `env` list.
pub open spec fn start_all_ready(s: Seq<(Seq<char>, UnitInfo)>) -> bool {
    forall|i: int|
        0 <= i < s.len() ==> ((#[trigger] s[i]).1.info_unit().child_pid() is None
            && starts_by_default(s[i].1.info_unit())) ==> env_ready(s[i].1.info_unit().configuration())
}

/// The pool after loading the units of `loaded`, in order, each as freshly loaded.
pub open spec fn loaded_into(s: Seq<(Seq<char>, UnitInfo)>, loaded: Seq<(String, Unit)>) -> Seq<
    (Seq<char>, UnitInfo),
>
    decreases loaded.len(),
{
    if loaded.len() == 0 {
        s
    } else {
        inserted(
            loaded_into(s, loaded.drop_last()),
            loaded.last().0@,
            UnitInfo::fresh(loaded.last().1),
        )
    }
}

/// Positions, in increasing order and among the first `n`, of the units whose child has
/// exited while the supervisor had them running: those to restart.
pub open spec fn units_to_restart(s: Seq<(Seq<char>, UnitInfo)>, polls: Seq<PollOutcome>, n: int) -> Seq<
    usize,
>
    decreases n,
{
    if n <= 0 {
        Seq::empty()
    } else {
        let earlier = units_to_restart(s, polls, n - 1);
        if polls[n - 1] is Exited && s[n - 1].1.running() {
            earlier.push((n - 1) as usize)
        } else {
            earlier
        }
    }
}

/// `after` and `r` are what starting the unit named `name` in `before` with child `pid` at
/// time `now` gives: `DoesNotExist` with nothing changed when no unit has that name, else
/// that unit alone goes through [`Unit::start`], its bookkeeping kept.
pub open spec fn start_by_name_outcome(
    before: Seq<(Seq<char>, UnitInfo)>,
    after: Seq<(Seq<char>, UnitInfo)>,
    name: Seq<char>,
    pid: u32,
    now: Timestamp,
    r: UnitResult<()>,
) -> bool {
    match position_of(before, name) {
        None => r matches Err(UnitError::DoesNotExist) && after == before,
        Some(i) => {
            &&& after.len() == before.len()
            &&& forall|j: int| 0 <= j < before.len() && j != i ==> after[j] == before[j]
            &&& after[i].0 == before[i].0
            &&& start_outcome(before[i].1.info_unit(), after[i].1.info_unit(), pid, now, r)
            &&& after[i].1.running() == before[i].1.running()
            &&& after[i].1.restart_count() == before[i].1.restart_count()
        },
    }
}

/// Whether `name` is the file name of a unit: it ends with `.service`.
pub fn is_unit_file_name(name: &str) -> (r: bool)
    ensures
        r == has_suffix(name@, ".service"@),
{
    ends_with(name, ".service")
}

/// Whether a folder entry is read as a unit: a regular file whose name ends with `.service`.
pub fn is_unit_file(name: &str, is_regular_file: bool) -> (r: bool)
    ensures
        r == (is_regular_file && has_suffix(name@, ".service"@)),
{
    is_regular_file && is_unit_file_name(name)
}

/// The units of `read` that are loaded, in order: those whose file name ends with
/// `.service` and whose unit could be created from its file.
pub open spec fn selected_units(read: Seq<(String, UnitResult<Unit>)>) -> Seq<(String, Unit)>
    decreases read.len(),
{
    if read.len() == 0 {
        Seq::empty()
    } else {
        let earlier = selected_units(read.drop_last());
        let name = read.last().0;
        match read.last().1 {
            Ok(unit) => if has_suffix(name@, ".service"@) {
                earlier.push((name, unit))
            } else {
                earlier
            },
            Err(_) => earlier,
        }
    }
}

/// Every selected unit has a `.service` file name.
pub proof fn lemma_selected_units_are_services(read: Seq<(String, UnitResult<Unit>)>)
    ensures
        forall|k: int|
            0 <= k < selected_units(read).len() ==> has_suffix(
                (#[trigger] selected_units(read)[k]).0@,
                ".service"@,
            ),
        selected_units(read).len() <= read.len(),
    decreases read.len(),
{
    if read.len() > 0 {
        lemma_selected_units_are_services(read.drop_last());
        let earlier = selected_units(read.drop_last());
        assert forall|k: int| 0 <= k < selected_units(read).len() implies has_suffix(
            (#[trigger] selected_units(read)[k]).0@,
            ".service"@,
        ) by {
            if k < earlier.len() {
                assert(selected_units(read)[k] == earlier[k]);
            }
        }
    }
}

/// Loading keeps the units already there under their names, at their places, and appends
/// at most one unit per loaded one; when every loaded name ends with `.service`, so does
/// every name appended.
pub proof fn lemma_loaded_into_keeps_and_appends(s: Seq<(Seq<char>, UnitInfo)>, loaded: Seq<(String, Unit)>)
    ensures
        s.len() <= loaded_into(s, loaded).len() <= s.len() + loaded.len(),
        forall|j: int| 0 <= j < s.len() ==> (#[trigger] loaded_into(s, loaded)[j]).0 == s[j].0,
        (forall|k: int| 0 <= k < loaded.len() ==> has_suffix((#[trigger] loaded[k]).0@, ".service"@))
            ==> forall|i: int|
            s.len() <= i < loaded_into(s, loaded).len() ==> has_suffix(
                (#[trigger] loaded_into(s, loaded)[i]).0,
                ".service"@,
            ),
    decreases loaded.len(),
{
    if loaded.len() > 0 {
        let d = loaded.drop_last();
        lemma_loaded_into_keeps_and_appends(s, d);
        let prev = loaded_into(s, d);
        let name = loaded.last().0@;
        let t = loaded_into(s, loaded);
        lemma_position_of(prev, name);
        assert forall|j: int| 0 <= j < prev.len() implies #[trigger] t[j].0 == prev[j].0 by {}
        if forall|k: int| 0 <= k < loaded.len() ==> has_suffix((#[trigger] loaded[k]).0@, ".service"@) {
            assert forall|k: int| 0 <= k < d.len() implies has_suffix((#[trigger] d[k]).0@, ".service"@) by {
                assert(d[k] == loaded[k]);
            }
            assert(has_suffix(loaded[loaded.len() - 1].0@, ".service"@));
            assert forall|i: int| s.len() <= i < t.len() implies has_suffix(
                (#[trigger] t[i]).0,
                ".service"@,
            ) by {
                if i < prev.len() {
                    assert(t[i].0 == prev[i].0);
                }
            }
        }
    }
}

/// Loads the units of `read` into `units`, in order: `read` holds the name of each unit
/// file read and the unit made from it, or why none could be. A unit is loaded when its name
/// ends with `.service` and it could be created; it replaces a loaded one of the same name.
/// Returns how many were loaded.
pub fn load_units_into(units: &mut UnitPool, read: Vec<(String, UnitResult<Unit>)>) -> (count: usize)
    ensures
        final(units)@ == loaded_into(old(units)@, selected_units(read@)),
        count == selected_units(read@).len(),
        count <= read@.len(),
        old(units)@.len() <= final(units)@.len() <= old(units)@.len() + count,
        forall|j: int| 0 <= j < old(units)@.len() ==> (#[trigger] final(units)@[j]).0 == old(units)@[j].0,
        forall|i: int|
            old(units)@.len() <= i < final(units)@.len() ==> has_suffix(
                (#[trigger] final(units)@[i]).0,
                ".service"@,
            ),
{
    let ghost all = read@;
    let mut rest = read;
    let mut count: usize = 0;
    let mut k: usize = 0;
    let n = rest.len();
    proof {
        assert(all.take(0) =~= Seq::<(String, UnitResult<Unit>)>::empty());
    }
    while k < n
        invariant
            n == all.len(),
            k <= n,
            rest@ == all.skip(k as int),
            units@ == loaded_into(old(units)@, selected_units(all.take(k as int))),
            count == selected_units(all.take(k as int)).len(),
            count <= k,
        decreases n - k,
    {
        let (name, result) = rest.remove(0);
        proof {
            assert(all.take(k + 1).drop_last() =~= all.take(k as int));
            assert(all.take(k + 1).last() == all[k as int]);
        }
        let ghost sel_prev = selected_units(all.take(k as int));
        let ghost sel = selected_units(all.take(k + 1));
        if is_unit_file_name(name.as_str()) {
            match result {
                Ok(unit) => {
                    proof {
                        assert(sel == sel_prev.push((name, unit)));
                        assert(sel.drop_last() =~= sel_prev);
                    }
                    units.insert(name, UnitInfo::new(unit));
                    count = count + 1;
                },
                Err(_) => {
                    assert(sel == sel_prev);
                },
            }
        } else {
            assert(sel == sel_prev);
        }
        k = k + 1;
        assert(rest@ =~= all.skip(k as int));
    }
    assert(all.take(n as int) =~= all);
    proof {
        lemma_selected_units_are_services(all);
        lemma_loaded_into_keeps_and_appends(old(units)@, selected_units(all));
    }
    count
}

/// Gives what starting all units of `units` launches, in order: nothing for a disabled unit,
/// else its launch plan (see [`Unit::launch_plan`]).
pub fn launch_plans_of(units: &UnitPool, inherited: &Vec<(String, String)>) -> (r: Vec<
    Option<UnitResult<LaunchPlan>>,
>)
    requires
        start_all_ready(units@),
    ensures
        r@.len() == units@.len(),
        forall|i: int|
            0 <= i < units@.len() ==> start_all_plan(
                (#[trigger] units@[i]).1.info_unit(),
                pair_views(inherited@),
                r@[i],
            ),
{
    let n = units.len();
    let mut r: Vec<Option<UnitResult<LaunchPlan>>> = Vec::new();
    let mut i: usize = 0;
    while i < n
        invariant
            n == units@.len(),
            i <= n,
            r@.len() == i,
            start_all_ready(units@),
            forall|j: int|
                0 <= j < i ==> start_all_plan(
                    (#[trigger] units@[j]).1.info_unit(),
                    pair_views(inherited@),
                    r@[j],
                ),
        decreases n - i,
    {
        let info = units.value_at(i);
        assert(units@[i as int].1 == *info);
        if info.unit.starts_by_default() {
            r.push(Some(info.unit.launch_plan(inherited)));
        } else {
            r.push(None);
        }
        i = i + 1;
    }
    r
}

/// Starts the units of `units` for which a child was launched: `spawned[i]` is the process
/// id of the child launched for unit `i`, if any. A started unit is marked running; a unit
/// that already had a child refuses and stays as it was; a disabled unit stays as it was.
pub fn start_all_units_in(units: &mut UnitPool, spawned: &Vec<Option<u32>>, now: Timestamp)
    requires
        spawned@.len() == old(units)@.len(),
    ensures
        final(units)@.len() == old(units)@.len(),
        forall|i: int|
            0 <= i < old(units)@.len() ==> (#[trigger] final(units)@[i]).0 == old(units)@[i].0
                && start_all_entry(old(units)@[i].1, final(units)@[i].1, spawned@[i], now),
{
    let n = units.len();
    let mut i: usize = 0;
    while i < n
        invariant
            n == old(units)@.len(),
            spawned@.len() == n,
            i <= n,
            units@.len() == n,
            forall|j: int|
                0 <= j < i ==> (#[trigger] units@[j]).0 == old(units)@[j].0 && start_all_entry(
                    old(units)@[j].1,
                    units@[j].1,
                    spawned@[j],
                    now,
                ),
            forall|j: int| i <= j < n ==> #[trigger] units@[j] == old(units)@[j],
        decreases n - i,
    {
        if units.value_at(i).unit.starts_by_default() {
            if let Some(pid) = spawned[i] {
                let info = units.value_at_mut(i);
                match info.unit.start(pid, now) {
                    Ok(_) => {
                        info.is_running = true;
                    },
                    Err(_) => {},
                }
            }
        }
        i = i + 1;
    }
}

/// Runs every unit of `units` that has a child through `restart`'s decision: gives the
/// positions of the units whose child has exited (`polls[i]` is what polling unit `i`
/// reported) while they were marked running. The units stay as they are.
pub fn units_to_restart_in(units: &UnitPool, polls: &Vec<PollOutcome>) -> (r: Vec<usize>)
    requires
        polls@.len() == units@.len(),
    ensures
        r@ == units_to_restart(units@, polls@, units@.len() as int),
{
    let n = units.len();
    let mut r: Vec<usize> = Vec::new();
    let mut i: usize = 0;
    while i < n
        invariant
            n == units@.len(),
            polls@.len() == n,
            i <= n,
            r@ == units_to_restart(units@, polls@, i as int),
        decreases n - i,
    {
        let info = units.value_at(i);
        let exited = match polls[i] {
            PollOutcome::Exited => true,
            _ => false,
        };
        if exited && info.is_running() {
            r.push(i);
        }
        i = i + 1;
    }
    r
}

/// Whether stopping `info` kills something: the unit is marked running and has a child.
pub open spec fn stoppable(info: UnitInfo) -> bool {
    info.running() && info.info_unit().child_pid() is Some
}

/// The process ids to kill when stopping all units among the first `n` of `s`: the children
/// of the units marked running, in order.
pub open spec fn pids_to_stop(s: Seq<(Seq<char>, UnitInfo)>, n: int) -> Seq<u32>
    decreases n,
{
    if n <= 0 {
        Seq::empty()
    } else {
        let earlier = pids_to_stop(s, n - 1);
        if stoppable(s[n - 1].1) {
            earlier.push(s[n - 1].1.info_unit().child_pid()->0)
        } else {
            earlier
        }
    }
}

/// `after` is `before` once all its units are stopped: each unit marked running with a child
/// is no longer marked running; the rest stays as it was.
pub open spec fn all_stopped(before: Seq<(Seq<char>, UnitInfo)>, after: Seq<(Seq<char>, UnitInfo)>) -> bool {
    &&& after.len() == before.len()
    &&& forall|i: int|
        0 <= i < before.len() ==> (#[trigger] after[i]).0 == before[i].0 && after[i].1 == if stoppable(
            before[i].1,
        ) {
            before[i].1.stopped()
        } else {
            before[i].1
        }
}

/// Stops all running units of `units`: gives the process ids of their children, to be killed,
/// and marks those units no longer running.
pub fn stop_units_in(units: &mut UnitPool) -> (pids: Vec<u32>)
    ensures
        all_stopped(old(units)@, final(units)@),
        pids@ == pids_to_stop(old(units)@, old(units)@.len() as int),
{
    let n = units.len();
    let mut pids: Vec<u32> = Vec::new();
    let mut i: usize = 0;
    while i < n
        invariant
            n == old(units)@.len(),
            i <= n,
            units@.len() == n,
            pids@ == pids_to_stop(old(units)@, i as int),
            forall|j: int|
                0 <= j < i ==> (#[trigger] units@[j]).0 == old(units)@[j].0 && units@[j].1 == if stoppable(
                    old(units)@[j].1,
                ) {
                    old(units)@[j].1.stopped()
                } else {
                    old(units)@[j].1
                },
            forall|j: int| i <= j < n ==> #[trigger] units@[j] == old(units)@[j],
        decreases n - i,
    {
        let info = units.value_at_mut(i);
        if info.is_running {
            match info.unit.stop() {
                Some(pid) => {
                    info.is_running = false;
                    pids.push(pid);
                },
                None => {},
            }
        }
        i = i + 1;
    }
    pids
}

/// `after` and `r` are what stopping the unit named `name` in `before` gives: `DoesNotExist`
/// with nothing changed when no unit has that name, `AlreadyStopped` with nothing changed
/// when that unit is not marked running with a child, else the process id of its child, to
/// be killed, and the unit no longer marked running.
pub open spec fn stop_by_name_outcome(
    before: Seq<(Seq<char>, UnitInfo)>,
    after: Seq<(Seq<char>, UnitInfo)>,
    name: Seq<char>,
    r: UnitResult<u32>,
) -> bool {
    match position_of(before, name) {
        None => r matches Err(UnitError::DoesNotExist) && after == before,
        Some(i) => if stoppable(before[i].1) {
            &&& r == Ok::<u32, UnitError>(before[i].1.info_unit().child_pid()->0)
            &&& after == before.update(i, (before[i].0, before[i].1.stopped()))
        } else {
            r matches Err(UnitError::AlreadyStopped) && after == before
        },
    }
}

/// Stops the unit named `name` of `units`.
pub fn stop_named_unit(units: &mut UnitPool, name: &str) -> (r: UnitResult<u32>)
    ensures
        stop_by_name_outcome(old(units)@, final(units)@, name@, r),
{
    proof {
        lemma_position_of(units@, name@);
    }
    match units.index_of(name) {
        None => Err(UnitError::DoesNotExist),
        Some(i) => {
            let ghost before = units@;
            let info = units.value_at_mut(i);
            let r = if info.is_running {
                match info.unit.stop() {
                    Some(pid) => {
                        info.is_running = false;
                        Ok(pid)
                    },
                    None => Err(UnitError::AlreadyStopped),
                }
            } else {
                Err(UnitError::AlreadyStopped)
            };
            proof {
                if stoppable(before[i as int].1) {
                    assert(units@ =~= before.update(
                        i as int,
                        (before[i as int].0, before[i as int].1.stopped()),
                    ));
                } else {
                    assert(units@ =~= before);
                }
            }
            r
        },
    }
}

/// Whether any unit of `units` is alive.
pub fn any_unit_alive(units: &UnitPool) -> (r: bool)
    ensures
        r == exists|i: int| 0 <= i < units@.len() && unit_alive((#[trigger] units@[i]).1.info_unit()),
        r == (units@.len() > 0),
{
    let n = units.len();
    let mut i: usize = 0;
    while i < n
        invariant
            n == units@.len(),
            i <= n,
            forall|j: int| 0 <= j < i ==> !unit_alive((#[trigger] units@[j]).1.info_unit()),
        decreases n - i,
    {
        if units.value_at(i).unit.is_alive() {
            return true;
        }
        i = i + 1;
    }
    if n > 0 {
        assert(!unit_alive(units@[0].1.info_unit()));
    }
    false
}

/// Starts the unit named `name` of `units` with child `pid` launched at time `now`.
pub fn start_named_unit(units: &mut UnitPool, name: &str, pid: u32, now: Timestamp) -> (r: UnitResult<()>)
    ensures
        start_by_name_outcome(old(units)@, final(units)@, name@, pid, now, r),
{
    proof {
        lemma_position_of(units@, name@);
    }
    match units.index_of(name) {
        None => Err(UnitError::DoesNotExist),
        Some(i) => {
            let info = units.value_at_mut(i);
            info.unit.start(pid, now)
        },
    }
}

/// What starting the unit named `name` of `units` launches: `DoesNotExist` when no unit has
/// that name, else that unit's launch plan.
pub fn named_launch_plan(units: &UnitPool, name: &str, inherited: &Vec<(String, String)>) -> (r: UnitResult<LaunchPlan>)
    requires
        position_of(units@, name@) matches Some(i) ==> (units@[i].1.info_unit().child_pid() is None
            ==> env_ready(units@[i].1.info_unit().configuration())),
    ensures
        match position_of(units@, name@) {
            None => r matches Err(UnitError::DoesNotExist),
            Some(i) => launch_outcome(units@[i].1.info_unit(), pair_views(inherited@), r),
        },
{
    proof {
        lemma_position_of(units@, name@);
    }
    match units.index_of(name) {
        None => Err(UnitError::DoesNotExist),
        Some(i) => units.value_at(i).unit.launch_plan(inherited),
    }
}

} // verus!

verus! {

/// The supervisor: the units it controls, by name.
pub struct Taskmaster {
    units: UnitPool,
}

impl View for Taskmaster {
    type V = Seq<(Seq<char>, UnitInfo)>;

    /// The supervised units, by name, in loading order.
    closed spec fn view(&self) -> Seq<(Seq<char>, UnitInfo)> {
        self.units@
    }
}

impl Taskmaster {
    /// A supervisor with no units.
    pub fn new() -> (r: Taskmaster)
        ensures
            r@.len() == 0,
    {
        Taskmaster { units: UnitPool::new() }
    }

    /// The supervised units.
    pub fn units(&self) -> (r: &UnitPool)
        ensures
            r@ == self@,
    {
        &self.units
    }

    /// The supervised units, to be changed in place.
    pub fn units_mut(&mut self) -> (r: &mut UnitPool)
        ensures
            r@ == old(self)@,
            final(self)@ == final(r)@,
    {
        &mut self.units
    }

    /// Loads the units read from the unit folder, in order: `read` holds the name of each
    /// unit file read and the unit made from it, or why none could be. A unit is loaded when
    /// its name ends with `.service` and it could be created; it replaces a loaded one of the
    /// same name. Returns the number of units loaded.
    pub fn load_units(&mut self, read: Vec<(String, UnitResult<Unit>)>) -> (count: usize)
        ensures
            final(self)@ == loaded_into(old(self)@, selected_units(read@)),
            count == selected_units(read@).len(),
            count <= read@.len(),
            old(self)@.len() <= final(self)@.len() <= old(self)@.len() + count,
            forall|j: int| 0 <= j < old(self)@.len() ==> (#[trigger] final(self)@[j]).0 == old(self)@[j].0,
            forall|i: int|
                old(self)@.len() <= i < final(self)@.len() ==> has_suffix(
                    (#[trigger] final(self)@[i]).0,
                    ".service"@,
                ),
    {
        load_units_into(&mut self.units, read)
    }

    /// What starting all units launches: for each unit, in order, nothing for a disabled unit
    /// (`autostart = false`), else its launch plan (see [`Unit::launch_plan`]).
    pub fn launch_plans(&self, inherited: &Vec<(String, String)>) -> (r: Vec<Option<UnitResult<LaunchPlan>>>)
        requires
            start_all_ready(self@),
        ensures
            r@.len() == self@.len(),
            forall|i: int|
                0 <= i < self@.len() ==> start_all_plan(
                    (#[trigger] self@[i]).1.info_unit(),
                    pair_views(inherited@),
                    r@[i],
                ),
    {
        launch_plans_of(&self.units, inherited)
    }

    /// Cycles through the units and updates their state: `polls[i]` is what polling the
    /// child of unit `i` reported. Gives the positions of the units to restart, those whose
    /// child exited while they were marked running; the units stay as they are.
    pub fn update_units(&mut self, polls: &Vec<PollOutcome>) -> (restart: Vec<usize>)
        requires
            polls@.len() == old(self)@.len(),
            forall|i: int|
                0 <= i < old(self)@.len() ==> (#[trigger] old(self)@[i]).1.info_unit().child_pid() is Some,
        ensures
            final(self)@ == old(self)@,
            restart@ == units_to_restart(old(self)@, polls@, old(self)@.len() as int),
    {
        units_to_restart_in(&self.units, polls)
    }

    /// Starts all units for which a child was launched: `spawned[i]` is the process id of the
    /// child launched for unit `i` from its launch plan, if any. Each unit so started is
    /// marked running; a disabled unit (`autostart = false`) is left as it was.
    pub fn start_all_units(&mut self, spawned: &Vec<Option<u32>>, now: Timestamp)
        requires
            spawned@.len() == old(self)@.len(),
        ensures
            final(self)@.len() == old(self)@.len(),
            forall|i: int|
                0 <= i < old(self)@.len() ==> (#[trigger] final(self)@[i]).0 == old(self)@[i].0
                    && start_all_entry(old(self)@[i].1, final(self)@[i].1, spawned@[i], now),
    {
        start_all_units_in(&mut self.units, spawned, now)
    }

    /// Starts a unit with child `pid` launched at time `now`.
    pub fn start_unit(unit: &mut Unit, pid: u32, now: Timestamp) -> (r: UnitResult<()>)
        ensures
            start_outcome(*old(unit), *final(unit), pid, now, r),
    {
        unit.start(pid, now)
    }

    /// Starts the unit named `name` with child `pid` launched at time `now`:
    /// `DoesNotExist` when no unit has that name.
    pub fn start_unit_by_name(units: &mut UnitPool, name: &str, pid: u32, now: Timestamp) -> (r: UnitResult<()>)
        ensures
            start_by_name_outcome(old(units)@, final(units)@, name@, pid, now, r),
    {
        if !units.contains_key(name) {
            proof {
                lemma_position_of(units@, name@);
            }
            return Err(UnitError::DoesNotExist);
        }
        start_named_unit(units, name, pid, now)
    }

    /// What starting the unit named `name` launches: `DoesNotExist` when no unit has that
    /// name, else that unit's launch plan.
    pub fn plan_unit_by_name(units: &UnitPool, name: &str, inherited: &Vec<(String, String)>) -> (r: UnitResult<LaunchPlan>)
        requires
            position_of(units@, name@) matches Some(i) ==> (units@[i].1.info_unit().child_pid() is None
                ==> env_ready(units@[i].1.info_unit().configuration())),
        ensures
            match position_of(units@, name@) {
                None => r matches Err(UnitError::DoesNotExist),
                Some(i) => launch_outcome(units@[i].1.info_unit(), pair_views(inherited@), r),
            },
    {
        named_launch_plan(units, name, inherited)
    }

    /// Handles a unit whose child has exited while it was marked running: its child is polled
    /// once more (`poll` is what that poll reported), and nothing else is done to the unit.
    pub fn restart_unit(unit: &mut UnitInfo, poll: PollOutcome)
        requires
            old(unit).info_unit().child_pid() is Some,
        ensures
            *final(unit) == *old(unit),
    {
    }

    /// Stops all running units: gives the process ids of the children of the units marked
    /// running, to be killed, and marks those units no longer running.
    pub fn stop_all_units(&mut self) -> (pids: Vec<u32>)
        ensures
            all_stopped(old(self)@, final(self)@),
            pids@ == pids_to_stop(old(self)@, old(self)@.len() as int),
    {
        stop_units_in(&mut self.units)
    }

    /// Stops the running unit named `name`: gives the process id of its child, to be killed,
    /// and marks it no longer running; `DoesNotExist` when no unit has that name,
    /// `AlreadyStopped` when it is not running.
    pub fn stop_unit(&mut self, name: &str) -> (r: UnitResult<u32>)
        ensures
            stop_by_name_outcome(old(self)@, final(self)@, name@, r),
    {
        stop_named_unit(&mut self.units, name)
    }

    /// Whether any unit is alive: there is at least one unit.
    pub fn units_alive(&self) -> (r: bool)
        ensures
            r == exists|i: int| 0 <= i < self@.len() && unit_alive((#[trigger] self@[i]).1.info_unit()),
            r == (self@.len() > 0),
    {
        any_unit_alive(&self.units)
    }
}

} // verus!

verus! {

/// Loading units keeps the unit names distinct.
pub proof fn lemma_loaded_names_distinct(s: Seq<(Seq<char>, UnitInfo)>, loaded: Seq<(String, Unit)>)
    requires
        distinct_names(s),
    ensures
        distinct_names(loaded_into(s, loaded)),
    decreases loaded.len(),
{
    if loaded.len() > 0 {
        lemma_loaded_names_distinct(s, loaded.drop_last());
        lemma_inserted_distinct(
            loaded_into(s, loaded.drop_last()),
            loaded.last().0@,
            UnitInfo::fresh(loaded.last().1),
        );
    }
}

/// The units to restart are exactly the units whose child exited while they were marked
/// running, each listed once, in increasing order.
pub proof fn lemma_units_to_restart(s: Seq<(Seq<char>, UnitInfo)>, polls: Seq<PollOutcome>, n: int)
    requires
        0 <= n <= s.len(),
        n <= polls.len(),
        n <= usize::MAX,
    ensures
        forall|k: int|
            0 <= k < units_to_restart(s, polls, n).len() ==> {
                let i = #[trigger] units_to_restart(s, polls, n)[k];
                &&& i < n
                &&& polls[i as int] is Exited
                &&& s[i as int].1.running()
            },
        forall|k1: int, k2: int|
            0 <= k1 < k2 < units_to_restart(s, polls, n).len() ==> #[trigger] units_to_restart(
                s,
                polls,
                n,
            )[k1] < #[trigger] units_to_restart(s, polls, n)[k2],
        forall|i: int|
            0 <= i < n && polls[i] is Exited && #[trigger] s[i].1.running() ==> units_to_restart(
                s,
                polls,
                n,
            ).contains(i as usize),
    decreases n,
{
    if n > 0 {
        lemma_units_to_restart(s, polls, n - 1);
        let earlier = units_to_restart(s, polls, n - 1);
        let r = units_to_restart(s, polls, n);
        let pushed = polls[n - 1] is Exited && s[n - 1].1.running();
        if pushed {
            assert(r == earlier.push((n - 1) as usize));
        } else {
            assert(r == earlier);
        }
        assert forall|k: int| 0 <= k < r.len() implies {
            let i = #[trigger] r[k];
            &&& i < n
            &&& polls[i as int] is Exited
            &&& s[i as int].1.running()
        } by {
            if k < earlier.len() {
                assert(r[k] == earlier[k]);
            }
        }
        assert forall|k1: int, k2: int| 0 <= k1 < k2 < r.len() implies #[trigger] r[k1] < #[trigger] r[k2] by {
            assert(r[k1] == earlier[k1]);
            if k2 < earlier.len() {
                assert(r[k2] == earlier[k2]);
            }
        }
        assert forall|i: int| 0 <= i < n && polls[i] is Exited && #[trigger] s[i].1.running() implies r.contains(
            i as usize,
        ) by {
            if i < n - 1 {
                assert(earlier.contains(i as usize));
                let k = choose|k: int| 0 <= k < earlier.len() && #[trigger] earlier[k] == i as usize;
                assert(r[k] == earlier[k]);
            } else {
                assert(r[r.len() - 1] == i as usize);
            }
        }
    }
}

/// One entry of [`lemma_start_all_units_every_unit_has_child`].
proof fn lemma_start_all_entry(
    before: UnitInfo,
    after: UnitInfo,
    inherited: Seq<(Seq<char>, Seq<char>)>,
    plan: Option<UnitResult<LaunchPlan>>,
    spawned: Option<u32>,
    now: Timestamp,
)
    requires
        start_all_plan(before.info_unit(), inherited, plan),
        spawned is Some <==> plan matches Some(Ok(_)),
        start_all_entry(before, after, spawned, now),
    ensures
        starts_by_default(before.info_unit()) ==> after.info_unit().child_pid() is Some,
        !starts_by_default(before.info_unit()) ==> after == before,
        before.info_unit().child_pid() is Some ==> after == before,
        before.info_unit().child_pid() is None && starts_by_default(before.info_unit())
            ==> after.running(),
{
}

/// Starting all units, with a child launched for each unit whose launch plan was granted,
/// leaves every unit that starts by default with a child: an idle one gets the child
/// launched for it and is marked running, one that already had a child is left as it was.
/// A disabled unit (`autostart = false`) is left as it was.
pub proof fn lemma_start_all_units_every_unit_has_child(
    before: Seq<(Seq<char>, UnitInfo)>,
    after: Seq<(Seq<char>, UnitInfo)>,
    inherited: Seq<(Seq<char>, Seq<char>)>,
    plans: Seq<Option<UnitResult<LaunchPlan>>>,
    spawned: Seq<Option<u32>>,
    now: Timestamp,
)
    requires
        plans.len() == before.len(),
        spawned.len() == before.len(),
        after.len() == before.len(),
        forall|i: int| 0 <= i < before.len() ==> (#[trigger] after[i]).0 == before[i].0,
        forall|i: int|
            0 <= i < before.len() ==> start_all_plan(
                (#[trigger] before[i]).1.info_unit(),
                inherited,
                plans[i],
            ),
        forall|i: int|
            0 <= i < before.len() ==> (#[trigger] spawned[i] is Some <==> plans[i] matches Some(Ok(_))),
        forall|i: int|
            0 <= i < before.len() ==> start_all_entry(before[i].1, (#[trigger] after[i]).1, spawned[i], now),
    ensures
        forall|i: int|
            0 <= i < after.len() && starts_by_default((#[trigger] before[i]).1.info_unit())
                ==> after[i].1.info_unit().child_pid() is Some,
        forall|i: int|
            0 <= i < before.len() && !starts_by_default((#[trigger] before[i]).1.info_unit())
                ==> after[i] == before[i],
        forall|i: int|
            0 <= i < before.len() && (#[trigger] before[i]).1.info_unit().child_pid() is Some ==> after[i]
                == before[i],
        forall|i: int|
            0 <= i < before.len() && (#[trigger] before[i]).1.info_unit().child_pid() is None
                && starts_by_default(before[i].1.info_unit()) ==> after[i].1.running(),
{
    assert forall|i: int| 0 <= i < before.len() implies {
        &&& starts_by_default(before[i].1.info_unit()) ==> after[i].1.info_unit().child_pid() is Some
        &&& !starts_by_default(before[i].1.info_unit()) ==> after[i] == before[i]
        &&& before[i].1.info_unit().child_pid() is Some ==> after[i] == before[i]
        &&& before[i].1.info_unit().child_pid() is None && starts_by_default(before[i].1.info_unit())
            ==> after[i].1.running()
    } by {
        assert(start_all_plan(before[i].1.info_unit(), inherited, plans[i]));
        assert(spawned[i] is Some <==> plans[i] matches Some(Ok(_)));
        assert(start_all_entry(before[i].1, after[i].1, spawned[i], now));
        lemma_start_all_entry(before[i].1, after[i].1, inherited, plans[i], spawned[i], now);
    }
}

} // verus!

verus! {

/// After all units are stopped, no unit with a child is marked running, so an update asks to
/// restart none of them.
pub proof fn lemma_stopped_units_not_restarted(
    before: Seq<(Seq<char>, UnitInfo)>,
    after: Seq<(Seq<char>, UnitInfo)>,
    polls: Seq<PollOutcome>,
    n: int,
)
    requires
        all_stopped(before, after),
        0 <= n <= after.len(),
        forall|i: int| 0 <= i < after.len() ==> (#[trigger] after[i]).1.info_unit().child_pid() is Some,
    ensures
        forall|i: int| 0 <= i < after.len() ==> !(#[trigger] after[i]).1.running(),
        units_to_restart(after, polls, n).len() == 0,
    decreases n,
{
    assert forall|i: int| 0 <= i < after.len() implies !(#[trigger] after[i]).1.running() by {
        before[i].1.lemma_stopped();
        assert(after[i].1.info_unit().child_pid() is Some);
    }
    if n > 0 {
        lemma_stopped_units_not_restarted(before, after, polls, n - 1);
        assert(!after[n - 1].1.running());
    }
}

} // verus!

verus! {

/// Selecting is per entry: the units selected from two runs of files read one after the
/// other are those selected from each, in order.
pub proof fn lemma_selected_units_concat(
    a: Seq<(String, UnitResult<Unit>)>,
    b: Seq<(String, UnitResult<Unit>)>,
)
    ensures
        selected_units(a + b) == selected_units(a) + selected_units(b),
    decreases b.len(),
{
    if b.len() == 0 {
        assert(a + b =~= a);
        assert(selected_units(a) + selected_units(b) =~= selected_units(a));
    } else {
        lemma_selected_units_concat(a, b.drop_last());
        assert((a + b).drop_last() =~= a + b.drop_last());
        assert((a + b).last() == b.last());
        let x = selected_units(a);
        let y = selected_units(b.drop_last());
        match b.last().1 {
            Ok(unit) => {
                if has_suffix(b.last().0@, ".service"@) {
                    assert((x + y).push((b.last().0, unit)) =~= x + y.push((b.last().0, unit)));
                }
            },
            Err(_) => {},
        }
    }
}

/// A single file read gives its unit when its name ends with `.service` and the unit could
/// be created, and nothing otherwise.
pub proof fn lemma_selected_units_single(name: String, r: UnitResult<Unit>)
    ensures
        selected_units(seq![(name, r)]) == match r {
            Ok(unit) => if has_suffix(name@, ".service"@) {
                seq![(name, unit)]
            } else {
                Seq::empty()
            },
            Err(_) => Seq::<(String, Unit)>::empty(),
        },
{
    let one = seq![(name, r)];
    assert(one.drop_last() =~= Seq::<(String, UnitResult<Unit>)>::empty());
    assert(selected_units(one.drop_last()) == Seq::<(String, Unit)>::empty());
    assert(one.last() == (name, r));
    match r {
        Ok(unit) => {
            assert(Seq::<(String, Unit)>::empty().push((name, unit)) =~= seq![(name, unit)]);
        },
        Err(_) => {},
    }
}

/// A file whose unit could not be created is skipped, and loading goes on with the files
/// after it.
pub proof fn lemma_failed_unit_skipped(
    a: Seq<(String, UnitResult<Unit>)>,
    name: String,
    e: UnitError,
    b: Seq<(String, UnitResult<Unit>)>,
)
    ensures
        selected_units(a + seq![(name, Err::<Unit, UnitError>(e))] + b) == selected_units(a)
            + selected_units(b),
{
    lemma_selected_units_concat(a + seq![(name, Err::<Unit, UnitError>(e))], b);
    lemma_selected_units_concat(a, seq![(name, Err::<Unit, UnitError>(e))]);
    lemma_selected_units_single(name, Err(e));
    assert(selected_units(a) + Seq::<(String, Unit)>::empty() =~= selected_units(a));
}

/// Every `.service` unit that could be created is among the selected ones, whatever files
/// came before or after it.
pub proof fn lemma_created_service_unit_selected(read: Seq<(String, UnitResult<Unit>)>, k: int)
    requires
        0 <= k < read.len(),
        read[k].1 is Ok,
        has_suffix(read[k].0@, ".service"@),
    ensures
        selected_units(read).contains((read[k].0, read[k].1->Ok_0)),
{
    let a = read.take(k);
    let b = read.skip(k + 1);
    assert(read =~= a + seq![read[k]] + b);
    lemma_selected_units_concat(a + seq![read[k]], b);
    lemma_selected_units_concat(a, seq![read[k]]);
    lemma_selected_units_single(read[k].0, read[k].1);
    let sa = selected_units(a);
    assert(selected_units(read)[sa.len() as int] == (read[k].0, read[k].1->Ok_0));
}

/// The map view of the pool after loading: each loaded unit, freshly loaded, is set under its
/// name, in order, over the units already there.
pub open spec fn load_map(m: Map<Seq<char>, UnitInfo>, loaded: Seq<(String, Unit)>) -> Map<
    Seq<char>,
    UnitInfo,
>
    decreases loaded.len(),
{
    if loaded.len() == 0 {
        m
    } else {
        load_map(m, loaded.drop_last()).insert(loaded.last().0@, UnitInfo::fresh(loaded.last().1))
    }
}

/// Loading sets each loaded name to its unit, freshly loaded, replacing a unit already there
/// under that name; other names keep their units.
pub proof fn lemma_loaded_into_map(s: Seq<(Seq<char>, UnitInfo)>, loaded: Seq<(String, Unit)>)
    ensures
        lookup_map(loaded_into(s, loaded)) == load_map(lookup_map(s), loaded),
    decreases loaded.len(),
{
    if loaded.len() > 0 {
        lemma_loaded_into_map(s, loaded.drop_last());
        lemma_inserted_map(
            loaded_into(s, loaded.drop_last()),
            loaded.last().0@,
            UnitInfo::fresh(loaded.last().1),
        );
    }
}

/// The unit loaded last under a name is the one the pool holds under it, whatever the pool
/// held before.
pub proof fn lemma_last_loaded_unit_held(
    s: Seq<(Seq<char>, UnitInfo)>,
    loaded: Seq<(String, Unit)>,
    name: String,
    unit: Unit,
)
    ensures
        lookup_map(loaded_into(s, loaded.push((name, unit)))).contains_key(name@),
        lookup_map(loaded_into(s, loaded.push((name, unit))))[name@] == UnitInfo::fresh(unit),
        lookup_map(loaded_into(s, loaded.push((name, unit))))[name@].info_unit() == unit,
{
    let l = loaded.push((name, unit));
    assert(l.drop_last() =~= loaded);
    lemma_loaded_into_map(s, l);
    UnitInfo::lemma_fresh(unit);
}

/// A name that no loaded unit has keeps the unit it had, or stays absent.
pub proof fn lemma_unloaded_name_kept(
    s: Seq<(Seq<char>, UnitInfo)>,
    loaded: Seq<(String, Unit)>,
    name: Seq<char>,
)
    requires
        forall|k: int| 0 <= k < loaded.len() ==> (#[trigger] loaded[k]).0@ != name,
    ensures
        lookup_map(loaded_into(s, loaded)).contains_key(name) == lookup_map(s).contains_key(name),
        lookup_map(s).contains_key(name) ==> lookup_map(loaded_into(s, loaded))[name] == lookup_map(
            s,
        )[name],
    decreases loaded.len(),
{
    lemma_loaded_into_map(s, loaded);
    lemma_load_map_unloaded(lookup_map(s), loaded, name);
}

proof fn lemma_load_map_unloaded(m: Map<Seq<char>, UnitInfo>, loaded: Seq<(String, Unit)>, name: Seq<char>)
    requires
        forall|k: int| 0 <= k < loaded.len() ==> (#[trigger] loaded[k]).0@ != name,
    ensures
        load_map(m, loaded).contains_key(name) == m.contains_key(name),
        m.contains_key(name) ==> load_map(m, loaded)[name] == m[name],
    decreases loaded.len(),
{
    if loaded.len() > 0 {
        assert(loaded[loaded.len() - 1].0@ != name);
        assert forall|k: int| 0 <= k < loaded.drop_last().len() implies (
        #[trigger] loaded.drop_last()[k]).0@ != name by {
            assert(loaded.drop_last()[k] == loaded[k]);
        }
        lemma_load_map_unloaded(m, loaded.drop_last(), name);
    }
}

/// Starting a unit by name starts the unit of that name at the given time: on success there
/// is a unit of that name, it now has the child `pid`, its start time is `now`, and it keeps
/// its configuration, file, restart count and running mark; every other unit is unchanged.
/// It fails with `DoesNotExist` exactly when no unit has that name, and with
/// `AlreadyRunning`, changing nothing, when that unit already had a child.
pub proof fn lemma_start_by_name_starts_that_unit(
    before: Seq<(Seq<char>, UnitInfo)>,
    after: Seq<(Seq<char>, UnitInfo)>,
    name: Seq<char>,
    pid: u32,
    now: Timestamp,
    r: UnitResult<()>,
)
    requires
        start_by_name_outcome(before, after, name, pid, now, r),
    ensures
        r matches Err(UnitError::DoesNotExist) <==> forall|j: int|
            0 <= j < before.len() ==> #[trigger] before[j].0 != name,
        r matches Err(UnitError::DoesNotExist) ==> after == before,
        r matches Err(UnitError::AlreadyRunning) ==> after == before,
        r is Ok ==> exists|i: int|
            {
                &&& 0 <= i < before.len()
                &&& #[trigger] before[i].0 == name
                &&& before[i].1.info_unit().child_pid() is None
                &&& after.len() == before.len()
                &&& after[i].0 == name
                &&& after[i].1.info_unit().child_pid() == Some(pid)
                &&& after[i].1.info_unit().started_time() == now
                &&& after[i].1.info_unit().configuration() == before[i].1.info_unit().configuration()
                &&& after[i].1.info_unit().config_path() == before[i].1.info_unit().config_path()
                &&& after[i].1.running() == before[i].1.running()
                &&& after[i].1.restart_count() == before[i].1.restart_count()
                &&& forall|j: int| 0 <= j < before.len() && j != i ==> after[j] == before[j]
            },
{
    lemma_position_of(before, name);
    if let Some(i) = position_of(before, name) {
        if r is Ok {
            assert(before[i].0 == name);
        }
    }
}

} // verus!

verus! {

/// Loading two runs of units one after the other is loading them together.
pub proof fn lemma_loaded_into_concat(
    s: Seq<(Seq<char>, UnitInfo)>,
    a: Seq<(String, Unit)>,
    b: Seq<(String, Unit)>,
)
    ensures
        loaded_into(s, a + b) == loaded_into(loaded_into(s, a), b),
    decreases b.len(),
{
    if b.len() == 0 {
        assert(a + b =~= a);
    } else {
        lemma_loaded_into_concat(s, a, b.drop_last());
        assert((a + b).drop_last() =~= a + b.drop_last());
        assert((a + b).last() == b.last());
    }
}

} // verus!
