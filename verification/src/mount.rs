//! The list of kernel filesystems to mount.

use vstd::prelude::*;
use vstd::string::StringExecFns;
use crate::text::str_eq;

verus! {

/// A filesystem to mount: what, where, of which type, with which flags.
pub struct MountInfo {
    source: &'static str,
    target: &'static str,
    file_system_type: &'static str,
    mount_flags: u64,
    _data: &'static str,
}

impl MountInfo {
    /// The device or pseudo-filesystem to mount.
    pub closed spec fn source_view(&self) -> Seq<char> {
        self.source@
    }

    /// Where it is mounted.
    pub closed spec fn target_view(&self) -> Seq<char> {
        self.target@
    }

    /// The filesystem type.
    pub closed spec fn fs_type_view(&self) -> Seq<char> {
        self.file_system_type@
    }

    /// The mount flags.
    pub closed spec fn flags(&self) -> u64 {
        self.mount_flags
    }

    /// The filesystem-specific data.
    pub closed spec fn data_view(&self) -> Seq<char> {
        self._data@
    }

    /// A mount entry: `source` mounted on `target` as a `file_system_type` filesystem with
    /// `mount_flags`, given `_data`.
    pub fn new(
        source: &'static str,
        target: &'static str,
        file_system_type: &'static str,
        mount_flags: u64,
        _data: &'static str,
    ) -> (r: MountInfo)
        ensures
            r.source_view() == source@,
            r.target_view() == target@,
            r.fs_type_view() == file_system_type@,
            r.flags() == mount_flags,
            r.data_view() == _data@,
    {
        MountInfo { source, target, file_system_type, mount_flags, _data }
    }

    /// The device or pseudo-filesystem to mount.
    pub fn source(&self) -> (r: &'static str)
        ensures
            r@ == self.source_view(),
    {
        self.source
    }

    /// Where it is mounted.
    pub fn target(&self) -> (r: &'static str)
        ensures
            r@ == self.target_view(),
    {
        self.target
    }

    /// The filesystem type.
    pub fn file_system_type(&self) -> (r: &'static str)
        ensures
            r@ == self.fs_type_view(),
    {
        self.file_system_type
    }

    /// The mount flags.
    pub fn mount_flags(&self) -> (r: u64)
        ensures
            r == self.flags(),
    {
        self.mount_flags
    }

    /// The filesystem-specific data.
    pub fn data(&self) -> (r: &'static str)
        ensures
            r@ == self.data_view(),
    {
        self._data
    }
}

/// Two mount entries are the same when they mount the same source.
impl PartialEq for MountInfo {
    fn eq(&self, other: &Self) -> (r: bool) {
        str_eq(self.source, other.source)
    }
}

impl vstd::std_specs::cmp::PartialEqSpecImpl for MountInfo {
    open spec fn obeys_eq_spec() -> bool {
        true
    }

    open spec fn eq_spec(&self, other: &Self) -> bool {
        self.source_view() == other.source_view()
    }
}

impl Eq for MountInfo {}

/// The kernel filesystems to mount, in order, no two with the same source.
pub struct KernelFilesystem {
    fs_vect: Vec<MountInfo>,
}

/// The message of the refusal to add `source` a second time.
pub open spec fn duplicate_message(source: Seq<char>) -> Seq<char> {
    source + " already in mount list"@
}

impl View for KernelFilesystem {
    type V = Seq<MountInfo>;

    /// The entries, in order.
    closed spec fn view(&self) -> Seq<MountInfo> {
        self.fs_vect@
    }
}

/// Some entry of `entries` mounts `source`.
pub open spec fn has_source(entries: Seq<MountInfo>, source: Seq<char>) -> bool {
    exists|i: int| 0 <= i < entries.len() && #[trigger] entries[i].source_view() == source
}

impl KernelFilesystem {
    /// An empty list.
    pub fn new() -> (r: KernelFilesystem)
        ensures
            r@.len() == 0,
    {
        KernelFilesystem { fs_vect: Vec::new() }
    }

    /// Number of entries.
    pub fn len(&self) -> (r: usize)
        ensures
            r == self@.len(),
    {
        self.fs_vect.len()
    }

    /// Entry `i`.
    pub fn get(&self, i: usize) -> (r: &MountInfo)
        requires
            i < self@.len(),
        ensures
            *r == self@[i as int],
    {
        &self.fs_vect[i]
    }

    /// Whether an entry mounts the source of `mi`.
    fn contains(&self, mi: &MountInfo) -> (r: bool)
        ensures
            r == has_source(self@, mi.source_view()),
    {
        let n = self.fs_vect.len();
        let mut i: usize = 0;
        while i < n
            invariant
                n == self@.len(),
                i <= n,
                forall|j: int| 0 <= j < i ==> #[trigger] self@[j].source_view() != mi.source_view(),
            decreases n - i,
        {
            if self.fs_vect[i].eq(mi) {
                assert(self@[i as int].source_view() == mi.source_view());
                return true;
            }
            i = i + 1;
        }
        false
    }

    /// Appends `mi`, unless an entry already mounts its source: then the list is unchanged and
    /// the error names that source.
    pub fn add(&mut self, mi: MountInfo) -> (r: Result<(), String>)
        ensures
            match r {
                Ok(()) => !has_source(old(self)@, mi.source_view()) && final(self)@ == old(self)@.push(mi),
                Err(msg) => has_source(old(self)@, mi.source_view()) && final(self)@ == old(self)@
                    && msg@ == duplicate_message(mi.source_view()),
            },
    {
        if !self.contains(&mi) {
            self.fs_vect.push(mi);
            return Ok(());
        } else {
            return Err(String::from_str(mi.source).concat(" already in mount list"));
        }
    }

    /// Removes the last entry, if any.
    pub fn pop(&mut self)
        ensures
            old(self)@.len() > 0 ==> final(self)@ == old(self)@.drop_last(),
            old(self)@.len() == 0 ==> final(self)@ == old(self)@,
    {
        self.fs_vect.pop();
    }
}

/// A successful `add` followed by `pop` gives back the list as it was.
pub proof fn lemma_add_then_pop(entries: Seq<MountInfo>, mi: MountInfo)
    ensures
        entries.push(mi).drop_last() == entries,
{
    assert(entries.push(mi).drop_last() =~= entries);
}

/// An entry list built by `add` never holds two entries with the same source.
pub open spec fn sources_distinct(entries: Seq<MountInfo>) -> bool {
    forall|i: int, j: int|
        0 <= i < j < entries.len() ==> #[trigger] entries[i].source_view()
            != #[trigger] entries[j].source_view()
}

/// Adding keeps the sources distinct: it appends only a source that is absent.
pub proof fn lemma_add_keeps_sources_distinct(entries: Seq<MountInfo>, mi: MountInfo)
    requires
        sources_distinct(entries),
        !has_source(entries, mi.source_view()),
    ensures
        sources_distinct(entries.push(mi)),
{
    let e = entries.push(mi);
    assert forall|i: int, j: int| 0 <= i < j < e.len() implies #[trigger] e[i].source_view()
        != #[trigger] e[j].source_view() by {
        if j == entries.len() {
            assert(e[i] == entries[i]);
        } else {
            assert(e[i] == entries[i] && e[j] == entries[j]);
        }
    }
}

} // verus!
