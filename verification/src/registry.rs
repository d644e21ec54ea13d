//! The catalogue that maps artifact names to their descriptions.

use crate::artifact::{Artifact, ArtifactView};
use vstd::prelude::*;

verus! {

/// Whether an entry of `entries` carries `name`.
pub open spec fn holds_name(entries: Seq<ArtifactView>, name: Seq<char>) -> bool {
    exists|i: int| 0 <= i < entries.len() && (#[trigger] entries[i]).name == name
}

/// No two entries of `entries` carry the same name.
pub open spec fn distinct_names(entries: Seq<ArtifactView>) -> bool {
    forall|i: int, j: int|
        0 <= i < j < entries.len() ==> (#[trigger] entries[i]).name != (#[trigger] entries[j]).name
}

/// A catalogue of artifacts by name, built for one run. Each entry is what
/// the product's constructor yields when no version is asked for.
pub struct Registry {
    entries: Vec<Artifact>,
}

impl View for Registry {
    type V = Seq<ArtifactView>;

    closed spec fn view(&self) -> Seq<ArtifactView> {
        Seq::new(self.entries@.len(), |i: int| self.entries@[i]@)
    }
}

impl Registry {
    /// Every name occurs once.
    pub open spec fn wf(&self) -> bool {
        distinct_names(self@)
    }

    /// The empty catalogue.
    pub fn new() -> (r: Registry)
        ensures
            r@ == Seq::<ArtifactView>::empty(),
            r.wf(),
    {
        let r = Registry { entries: Vec::new() };
        assert(r@ =~= Seq::<ArtifactView>::empty());
        r
    }

    /// The number of entries.
    pub fn len(&self) -> (n: usize)
        ensures
            n == self@.len(),
    {
        self.entries.len()
    }

    /// The entry at `index`.
    pub fn get(&self, index: usize) -> (r: &Artifact)
        requires
            index < self@.len(),
        ensures
            r@ == self@[index as int],
    {
        &self.entries[index]
    }

    /// The place of the entry called `name`, if there is one.
    pub fn find(&self, name: &String) -> (r: Option<usize>)
        ensures
            match r {
                Some(i) => i < self@.len() && self@[i as int].name == name@,
                None => !holds_name(self@, name@),
            },
    {
        let mut i: usize = 0;
        while i < self.entries.len()
            invariant
                i <= self.entries.len(),
                forall|k: int| 0 <= k < i ==> (#[trigger] self@[k]).name != name@,
            decreases self.entries.len() - i,
        {
            if self.entries[i].name == *name {
                return Some(i);
            }
            i += 1;
        }
        None
    }

    /// Adds `artifact` at the end and returns `true`, unless an entry of its
    /// name is there already: then nothing changes and `false` is returned.
    pub fn register(&mut self, artifact: Artifact) -> (added: bool)
        requires
            old(self).wf(),
        ensures
            final(self).wf(),
            added == !holds_name(old(self)@, artifact@.name),
            added ==> final(self)@ == old(self)@.push(artifact@),
            !added ==> final(self)@ == old(self)@,
    {
        match self.find(&artifact.name) {
            Some(_) => false,
            None => {
                let ghost before = self@;
                self.entries.push(artifact);
                assert(self@ =~= before.push(artifact@));
                true
            },
        }
    }
}

} // verus!
