//! The record of what an environment directory holds.

use crate::artifact::Version;
use vstd::prelude::*;

verus! {

/// One installed artifact: what it is, where it lies and when it got there.
#[derive(Debug)]
pub struct ManifestEntry {
    pub name: String,
    pub version: Option<Version>,
    pub path: String,
    pub installed_at: u64,
}

pub struct EntryView {
    pub name: Seq<char>,
    pub version: Option<Version>,
    pub path: Seq<char>,
    pub installed_at: u64,
}

impl View for ManifestEntry {
    type V = EntryView;

    open spec fn view(&self) -> EntryView {
        EntryView {
            name: self.name@,
            version: self.version,
            path: self.path@,
            installed_at: self.installed_at,
        }
    }
}

/// `entries[i]` is the record of `name` at `version`.
pub open spec fn is_record(
    entries: Seq<EntryView>,
    i: int,
    name: Seq<char>,
    version: Option<Version>,
) -> bool {
    entries[i].name == name && entries[i].version == version
}

/// `entries` records `name` at `version` as installed.
pub open spec fn records(entries: Seq<EntryView>, name: Seq<char>, version: Option<Version>) -> bool {
    exists|i: int| 0 <= i < entries.len() && #[trigger] is_record(entries, i, name, version)
}

/// `entries[i]` is a record of `name` at a version other than `version`.
pub open spec fn is_other_record(
    entries: Seq<EntryView>,
    i: int,
    name: Seq<char>,
    version: Option<Version>,
) -> bool {
    entries[i].name == name && entries[i].version != version
}

/// `entries` records `name` as installed at a version other than `version`.
pub open spec fn records_other(
    entries: Seq<EntryView>,
    name: Seq<char>,
    version: Option<Version>,
) -> bool {
    exists|i: int| 0 <= i < entries.len() && #[trigger] is_other_record(entries, i, name, version)
}

/// No artifact is recorded twice at one version.
pub open spec fn recorded_once(entries: Seq<EntryView>) -> bool {
    forall|i: int, j: int|
        0 <= i < j < entries.len() ==> !(#[trigger] entries[i].name == (#[trigger] entries[j]).name
            && entries[i].version == entries[j].version)
}

/// Later records carry no earlier time.
pub open spec fn in_time_order(entries: Seq<EntryView>) -> bool {
    forall|i: int, j: int|
        0 <= i < j < entries.len() ==> (#[trigger] entries[i]).installed_at <= (
        #[trigger] entries[j]).installed_at
}

/// The time of the last record, 0 where there is none.
pub open spec fn latest(entries: Seq<EntryView>) -> u64 {
    if entries.len() == 0 {
        0
    } else {
        entries.last().installed_at
    }
}

/// The time that a record made at `now` carries: `now`, unless the last
/// record is later.
pub open spec fn stamp(entries: Seq<EntryView>, now: u64) -> u64 {
    if now < latest(entries) {
        latest(entries)
    } else {
        now
    }
}

/// `entries` after `name` at `version` was installed at `path`: a record is
/// added at the end unless there is one already.
pub open spec fn recorded(
    entries: Seq<EntryView>,
    name: Seq<char>,
    version: Option<Version>,
    path: Seq<char>,
    now: u64,
) -> Seq<EntryView> {
    if records(entries, name, version) {
        entries
    } else {
        entries.push(EntryView { name, version, path, installed_at: stamp(entries, now) })
    }
}

/// Whether two optional versions are the same.
pub fn same_version(a: Option<Version>, b: Option<Version>) -> (r: bool)
    ensures
        r == (a == b),
{
    match a {
        None => b.is_none(),
        Some(x) => match b {
            None => false,
            Some(y) => x.major == y.major && x.minor == y.minor && x.patch == y.patch,
        },
    }
}

/// The records of a list, each by its view.
pub open spec fn entry_views(entries: Seq<ManifestEntry>) -> Seq<EntryView> {
    Seq::new(entries.len(), |i: int| entries[i]@)
}

/// Whether a record before `at` has the key of the record at `at`.
fn repeats(entries: &Vec<ManifestEntry>, at: usize) -> (r: bool)
    requires
        at < entries@.len(),
    ensures
        r == exists|j: int|
            0 <= j < at && #[trigger] is_record(
                entry_views(entries@),
                j,
                entries@[at as int]@.name,
                entries@[at as int]@.version,
            ),
{
    let mut j: usize = 0;
    while j < at
        invariant
            j <= at,
            at < entries@.len(),
            forall|k: int|
                0 <= k < j ==> !#[trigger] is_record(
                    entry_views(entries@),
                    k,
                    entries@[at as int]@.name,
                    entries@[at as int]@.version,
                ),
        decreases at - j,
    {
        if entries[j].name == entries[at].name && same_version(
            entries[j].version,
            entries[at].version,
        ) {
            assert(is_record(
                entry_views(entries@),
                j as int,
                entries@[at as int]@.name,
                entries@[at as int]@.version,
            ));
            return true;
        }
        j += 1;
    }
    false
}

/// The installed artifacts of one environment directory, in the order in
/// which they were installed.
pub struct Manifest {
    entries: Vec<ManifestEntry>,
}

impl View for Manifest {
    type V = Seq<EntryView>;

    closed spec fn view(&self) -> Seq<EntryView> {
        Seq::new(self.entries@.len(), |i: int| self.entries@[i]@)
    }
}

impl Manifest {
    /// Each artifact is recorded once at a version, and the records are in
    /// the order of their times.
    pub open spec fn wf(&self) -> bool {
        recorded_once(self@) && in_time_order(self@)
    }

    /// The manifest of a fresh directory.
    pub fn new() -> (r: Manifest)
        ensures
            r@ == Seq::<EntryView>::empty(),
            r.wf(),
    {
        let r = Manifest { entries: Vec::new() };
        assert(r@ =~= Seq::<EntryView>::empty());
        r
    }

    /// The manifest that holds `entries`, as read back from a directory,
    /// where they are what a manifest can hold: no artifact twice at one
    /// version, and no record earlier than the one before it. Otherwise
    /// `None`.
    pub fn load(entries: Vec<ManifestEntry>) -> (r: Option<Manifest>)
        ensures
            r is Some <==> recorded_once(entry_views(entries@)) && in_time_order(
                entry_views(entries@),
            ),
            r is Some ==> r->0@ == entry_views(entries@) && r->0.wf(),
    {
        let ghost views = entry_views(entries@);
        let mut i: usize = 0;
        while i < entries.len()
            invariant
                i <= entries@.len(),
                views == entry_views(entries@),
                forall|a: int, b: int|
                    0 <= a < b < i ==> !(#[trigger] views[a].name == (#[trigger] views[b]).name
                        && views[a].version == views[b].version),
                forall|a: int, b: int|
                    0 <= a < b < i ==> (#[trigger] views[a]).installed_at <= (
                    #[trigger] views[b]).installed_at,
            decreases entries@.len() - i,
        {
            if repeats(&entries, i) {
                proof {
                    let j = choose|j: int|
                        0 <= j < i && #[trigger] is_record(
                            views,
                            j,
                            entries@[i as int]@.name,
                            entries@[i as int]@.version,
                        );
                    assert(views[j].name == views[i as int].name);
                    assert(views[j].version == views[i as int].version);
                }
                return None;
            }
            if i > 0 && entries[i].installed_at < entries[i - 1].installed_at {
                assert(views[i - 1].installed_at > views[i as int].installed_at);
                return None;
            }
            proof {
                assert forall|a: int| 0 <= a < i implies !(#[trigger] views[a].name == views[i as int].name
                    && views[a].version == views[i as int].version) by {
                    assert(!is_record(
                        views,
                        a,
                        entries@[i as int]@.name,
                        entries@[i as int]@.version,
                    ));
                }
                assert forall|a: int| 0 <= a < i implies (#[trigger] views[a]).installed_at
                    <= views[i as int].installed_at by {
                    if a < i - 1 {
                        assert(views[a].installed_at <= views[i - 1].installed_at);
                    }
                }
            }
            i += 1;
        }
        let r = Manifest { entries };
        assert(r@ =~= views);
        Some(r)
    }

    /// The number of records.
    pub fn len(&self) -> (n: usize)
        ensures
            n == self@.len(),
    {
        self.entries.len()
    }

    /// The record at `index`.
    pub fn get(&self, index: usize) -> (r: &ManifestEntry)
        requires
            index < self@.len(),
        ensures
            r@ == self@[index as int],
    {
        &self.entries[index]
    }

    /// Whether `name` at `version` is recorded as installed.
    pub fn is_installed(&self, name: &String, version: Option<Version>) -> (r: bool)
        ensures
            r == records(self@, name@, version),
    {
        let mut i: usize = 0;
        while i < self.entries.len()
            invariant
                i <= self.entries.len(),
                forall|k: int| 0 <= k < i ==> !#[trigger] is_record(self@, k, name@, version),
            decreases self.entries.len() - i,
        {
            if self.entries[i].name == *name && same_version(self.entries[i].version, version) {
                assert(is_record(self@, i as int, name@, version));
                return true;
            }
            i += 1;
        }
        false
    }

    /// Whether `name` is recorded as installed at a version other than
    /// `version`.
    pub fn has_other_version(&self, name: &String, version: Option<Version>) -> (r: bool)
        ensures
            r == records_other(self@, name@, version),
    {
        let mut i: usize = 0;
        while i < self.entries.len()
            invariant
                i <= self.entries.len(),
                forall|k: int| 0 <= k < i ==> !#[trigger] is_other_record(self@, k, name@, version),
            decreases self.entries.len() - i,
        {
            if self.entries[i].name == *name && !same_version(self.entries[i].version, version) {
                assert(is_other_record(self@, i as int, name@, version));
                return true;
            }
            i += 1;
        }
        false
    }

    /// The time of the last record, 0 where there is none.
    pub fn latest(&self) -> (t: u64)
        ensures
            t == latest(self@),
    {
        let n = self.entries.len();
        if n == 0 {
            0
        } else {
            self.entries[n - 1].installed_at
        }
    }

    /// Records `name` at `version` as installed at `path`, and returns
    /// `true`; where it is recorded already, nothing changes and `false` is
    /// returned. The record carries the time `now`, or that of the last
    /// record where that is later, so every earlier record is at most as
    /// late as the new one.
    pub fn record(&mut self, name: String, version: Option<Version>, path: String, now: u64) -> (added:
        bool)
        requires
            old(self).wf(),
        ensures
            final(self).wf(),
            added == !records(old(self)@, name@, version),
            final(self)@ == recorded(old(self)@, name@, version, path@, now),
    {
        if self.is_installed(&name, version) {
            return false;
        }
        let last = self.latest();
        let installed_at = if now < last {
            last
        } else {
            now
        };
        let ghost before = self@;
        let entry = ManifestEntry { name, version, path, installed_at };
        self.entries.push(entry);
        proof {
            assert(self@ =~= before.push(entry@));
            assert forall|i: int, j: int| 0 <= i < j < self@.len() implies !(
            #[trigger] self@[i].name == (#[trigger] self@[j]).name && self@[i].version
                == self@[j].version) by {
                if j == before.len() {
                    assert(!is_record(before, i, name@, version));
                }
            }
            assert forall|i: int, j: int| 0 <= i < j < self@.len() implies (
            #[trigger] self@[i]).installed_at <= (#[trigger] self@[j]).installed_at by {
                if j == before.len() && i < before.len() - 1 {
                    assert(before[i].installed_at <= before[before.len() - 1].installed_at);
                }
            }
        }
        true
    }
}

/// A record stays when another is made.
pub proof fn lemma_recorded_keeps(
    entries: Seq<EntryView>,
    name: Seq<char>,
    version: Option<Version>,
    path: Seq<char>,
    now: u64,
    other: Seq<char>,
    other_version: Option<Version>,
)
    requires
        records(entries, other, other_version),
    ensures
        records(recorded(entries, name, version, path, now), other, other_version),
{
    let i = choose|i: int| 0 <= i < entries.len() && #[trigger] is_record(entries, i, other, other_version);
    assert(is_record(recorded(entries, name, version, path, now), i, other, other_version));
}

/// What was installed is recorded.
pub proof fn lemma_recorded_records(
    entries: Seq<EntryView>,
    name: Seq<char>,
    version: Option<Version>,
    path: Seq<char>,
    now: u64,
)
    ensures
        records(recorded(entries, name, version, path, now), name, version),
{
    if !records(entries, name, version) {
        assert(is_record(
            recorded(entries, name, version, path, now),
            entries.len() as int,
            name,
            version,
        ));
    }
}

} // verus!
