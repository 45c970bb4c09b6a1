//! Controls every unit: a supervisor that owns its units.

use vstd::prelude::*;
use crate::pool::{Pool, inserted, lookup_map};
use crate::taskmaster::unit::{PollOutcome, Timestamp, Unit, UnitError, UnitResult, start_outcome};
use crate::taskmaster::{
    lemma_last_loaded_unit_held, lemma_loaded_into_concat, lemma_unloaded_name_kept, all_stopped, loaded_into, pids_to_stop, stop_by_name_outcome, stop_named_unit, stop_units_in,
    units_to_restart, units_to_restart_in,
};

pub use crate::taskmaster::UnitInfo;

verus! {

/// The units of a [`Master`], by name.
pub type UnitPool = Pool<UnitInfo>;

/// The units of `read` that could be created from their files, in order, with their names.
pub open spec fn created_units(read: Seq<(String, UnitResult<Unit>)>) -> Seq<(String, Unit)>
    decreases read.len(),
{
    if read.len() == 0 {
        Seq::empty()
    } else {
        let earlier = created_units(read.drop_last());
        match read.last().1 {
            Ok(unit) => earlier.push((read.last().0, unit)),
            Err(_) => earlier,
        }
    }
}

/// Controls every unit.
pub struct Master {
    units: UnitPool,
}

impl View for Master {
    type V = Seq<(Seq<char>, UnitInfo)>;

    /// The controlled units, by name, in loading order.
    closed spec fn view(&self) -> Seq<(Seq<char>, UnitInfo)> {
        self.units@
    }
}

impl Master {
    /// A master with no units.
    pub fn new() -> (r: Master)
        ensures
            r@.len() == 0,
    {
        Master { units: UnitPool::new() }
    }

    /// The controlled units.
    pub fn units(&self) -> (r: &UnitPool)
        ensures
            r@ == self@,
    {
        &self.units
    }

    /// Adds a unit read from the unit folder, under the name of its file; it replaces a unit
    /// of the same name.
    pub fn add_unit(&mut self, name: String, unit: Unit)
        ensures
            final(self)@ == inserted(old(self)@, name@, UnitInfo::fresh(unit)),
    {
        self.units.insert(name, UnitInfo::new(unit));
    }

    /// Loads the units read from the unit folder, in order: `read` holds the name of each file
    /// read and the unit made from it, or why none could be. Every unit that could be created
    /// is loaded; it replaces a unit of the same name.
    pub fn load_units(&mut self, read: Vec<(String, UnitResult<Unit>)>)
        ensures
            final(self)@ == loaded_into(old(self)@, created_units(read@)),
    {
        let ghost all = read@;
        let mut rest = read;
        let mut k: usize = 0;
        let n = rest.len();
        proof {
            assert(all.take(0) =~= Seq::<(String, UnitResult<Unit>)>::empty());
        }
        while k < n
            invariant
                n == all.len(),
                k <= n,
                rest@ == all.skip(k as int),
                self@ == loaded_into(old(self)@, created_units(all.take(k as int))),
            decreases n - k,
        {
            let (name, result) = rest.remove(0);
            proof {
                assert(all.take(k + 1).drop_last() =~= all.take(k as int));
                assert(all.take(k + 1).last() == all[k as int]);
            }
            let ghost made_prev = created_units(all.take(k as int));
            let ghost made = created_units(all.take(k + 1));
            match result {
                Ok(unit) => {
                    proof {
                        assert(made == made_prev.push((name, unit)));
                        assert(made.drop_last() =~= made_prev);
                    }
                    self.add_unit(name, unit);
                },
                Err(_) => {
                    assert(made == made_prev);
                },
            }
            k = k + 1;
            assert(rest@ =~= all.skip(k as int));
        }
        assert(all.take(n as int) =~= all);
    }

    /// Cycles through the units and updates their state: `polls[i]` is what polling the child
    /// of unit `i` reported. Gives the positions of the units to restart, those whose child
    /// exited while they were marked running; the units stay as they are.
    pub fn update(&self, polls: &Vec<PollOutcome>) -> (restart: Vec<usize>)
        requires
            polls@.len() == self@.len(),
            forall|i: int|
                0 <= i < self@.len() ==> (#[trigger] self@[i]).1.info_unit().child_pid() is Some,
        ensures
            restart@ == units_to_restart(self@, polls@, self@.len() as int),
    {
        units_to_restart_in(&self.units, polls)
    }

    /// Stops all running units: gives the process ids of the children of the units marked
    /// running, to be killed, and marks those units no longer running.
    pub fn stop_all_units(&mut self) -> (pids: Vec<u32>)
        ensures
            all_stopped(old(self)@, final(self)@),
            pids@ == pids_to_stop(old(self)@, old(self)@.len() as int),
    {
        stop_units_in(&mut self.units)
    }

    /// Stops the running unit named `name`: gives the process id of its child, to be killed,
    /// and marks it no longer running; `DoesNotExist` when no unit has that name,
    /// `AlreadyStopped` when it is not running.
    pub fn stop_unit(&mut self, name: &str) -> (r: UnitResult<u32>)
        ensures
            stop_by_name_outcome(old(self)@, final(self)@, name@, r),
    {
        stop_named_unit(&mut self.units, name)
    }

    /// Starts a unit with child `pid` launched at time `now`, handing it back: refused
    /// (`Err(())`) when the unit already has a child.
    pub fn start_unit(&self, unit: Unit, pid: u32, now: Timestamp) -> (r: Result<Unit, ()>)
        ensures
            match r {
                Ok(u) => start_outcome(unit, u, pid, now, Ok(())),
                Err(_) => unit.child_pid() is Some,
            },
    {
        let mut unit = unit;
        match unit.start(pid, now) {
            Ok(_) => Ok(unit),
            Err(_) => Err(()),
        }
    }

    /// Handles a restart request for the unit named `name`: nothing is done, the units stay
    /// as they are.
    pub fn restart_unit(&mut self, name: &str)
        ensures
            final(self)@ == old(self)@,
    {
    }
}

} // verus!

verus! {

/// Loading is per entry: the units created from two runs of files read one after the other
/// are those created from each, in order.
pub proof fn lemma_created_units_concat(
    a: Seq<(String, UnitResult<Unit>)>,
    b: Seq<(String, UnitResult<Unit>)>,
)
    ensures
        created_units(a + b) == created_units(a) + created_units(b),
    decreases b.len(),
{
    if b.len() == 0 {
        assert(a + b =~= a);
        assert(created_units(a) + created_units(b) =~= created_units(a));
    } else {
        lemma_created_units_concat(a, b.drop_last());
        assert((a + b).drop_last() =~= a + b.drop_last());
        assert((a + b).last() == b.last());
        let x = created_units(a);
        let y = created_units(b.drop_last());
        match b.last().1 {
            Ok(unit) => {
                assert((x + y).push((b.last().0, unit)) =~= x + y.push((b.last().0, unit)));
            },
            Err(_) => {},
        }
    }
}

/// A single file read gives its unit when the unit could be created, and nothing otherwise.
pub proof fn lemma_created_units_single(name: String, r: UnitResult<Unit>)
    ensures
        created_units(seq![(name, r)]) == match r {
            Ok(unit) => seq![(name, unit)],
            Err(_) => Seq::<(String, Unit)>::empty(),
        },
{
    let one = seq![(name, r)];
    assert(one.drop_last() =~= Seq::<(String, UnitResult<Unit>)>::empty());
    assert(created_units(one.drop_last()) == Seq::<(String, Unit)>::empty());
    assert(one.last() == (name, r));
    match r {
        Ok(unit) => {
            assert(Seq::<(String, Unit)>::empty().push((name, unit)) =~= seq![(name, unit)]);
        },
        Err(_) => {},
    }
}

/// A file whose unit could not be created is skipped, and loading goes on with the files
/// after it.
pub proof fn lemma_failed_file_skipped(
    a: Seq<(String, UnitResult<Unit>)>,
    name: String,
    e: UnitError,
    b: Seq<(String, UnitResult<Unit>)>,
)
    ensures
        created_units(a + seq![(name, Err::<Unit, UnitError>(e))] + b) == created_units(a)
            + created_units(b),
{
    lemma_created_units_concat(a + seq![(name, Err::<Unit, UnitError>(e))], b);
    lemma_created_units_concat(a, seq![(name, Err::<Unit, UnitError>(e))]);
    lemma_created_units_single(name, Err(e));
    assert(created_units(a) + Seq::<(String, Unit)>::empty() =~= created_units(a));
}

/// Every unit that could be created is loaded, whatever files came before or after it: the
/// master holds, under the name of the last such file of each name, its unit.
pub proof fn lemma_created_unit_loaded(
    s: Seq<(Seq<char>, UnitInfo)>,
    read: Seq<(String, UnitResult<Unit>)>,
    k: int,
)
    requires
        0 <= k < read.len(),
        read[k].1 is Ok,
        forall|j: int| k < j < read.len() ==> (#[trigger] read[j]).0@ != read[k].0@,
    ensures
        lookup_map(loaded_into(s, created_units(read))).contains_key(read[k].0@),
        lookup_map(loaded_into(s, created_units(read)))[read[k].0@].info_unit() == read[k].1->Ok_0,
{
    let a = read.take(k);
    let b = read.skip(k + 1);
    assert(read =~= a + seq![read[k]] + b);
    lemma_created_units_concat(a + seq![read[k]], b);
    lemma_created_units_concat(a, seq![read[k]]);
    lemma_created_units_single(read[k].0, read[k].1);
    let before = created_units(a).push((read[k].0, read[k].1->Ok_0));
    assert(created_units(a + seq![read[k]]) =~= before);
    lemma_created_units_names(b);
    assert forall|j: int| 0 <= j < created_units(b).len() implies (#[trigger] created_units(b)[j]).0@
        != read[k].0@ by {
        let q = choose|q: int| 0 <= q < b.len() && b[q].0 == created_units(b)[j].0;
        assert(b[q] == read[k + 1 + q]);
    }
    lemma_loaded_into_concat(s, before, created_units(b));
    lemma_last_loaded_unit_held(s, created_units(a), read[k].0, read[k].1->Ok_0);
    lemma_unloaded_name_kept(loaded_into(s, before), created_units(b), read[k].0@);
    UnitInfo::lemma_fresh(read[k].1->Ok_0);
}

/// Each created unit comes with the name of a file read.
proof fn lemma_created_units_names(read: Seq<(String, UnitResult<Unit>)>)
    ensures
        forall|j: int|
            0 <= j < created_units(read).len() ==> exists|q: int|
                0 <= q < read.len() && read[q].0 == (#[trigger] created_units(read)[j]).0,
    decreases read.len(),
{
    if read.len() > 0 {
        lemma_created_units_names(read.drop_last());
        let x = created_units(read.drop_last());
        assert forall|j: int| 0 <= j < created_units(read).len() implies exists|q: int|
            0 <= q < read.len() && read[q].0 == (#[trigger] created_units(read)[j]).0 by {
            if j < x.len() {
                assert(created_units(read)[j] == x[j]);
                let q = choose|q: int| 0 <= q < read.drop_last().len() && read.drop_last()[q].0 == x[j].0;
                assert(read[q] == read.drop_last()[q]);
            } else {
                assert(read[read.len() - 1].0 == created_units(read)[j].0);
            }
        }
    }
}

} // verus!
