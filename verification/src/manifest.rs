//! The manifest: the current artifact binding of every planned package,
//! resolved from the store.  "Current" is the most recently created
//! binding of the package's identifier.

use vstd::prelude::*;

use crate::package::{Package, PackageId};
use crate::plan::Plan;
use crate::store::{bindings_for, ArtifactId, Store, StorePackage};

verus! {

/// The resolved bindings, in plan-node order; packages without a stored
/// binding are absent.
pub struct Manifest {
    pub entries: Vec<(PackageId, ArtifactId)>,
}

/// The manifest rows of a node sequence: for every package with at least
/// one binding, its identifier value and the most recent artifact's bytes.
pub open spec fn spec_manifest_rows(nodes: Seq<Package>, packages: Seq<StorePackage>) -> Seq<
    ((Seq<char>, Seq<Seq<char>>), Seq<u8>),
>
    decreases nodes.len(),
{
    if nodes.len() == 0 {
        Seq::empty()
    } else {
        let rest = spec_manifest_rows(nodes.drop_last(), packages);
        let bound = bindings_for(packages, nodes.last().id@);
        if bound.len() > 0 {
            rest.push((nodes.last().id@, bound[0].artifact.bytes@))
        } else {
            rest
        }
    }
}

/// The refreshed rows of an existing manifest: every identifier resolved
/// anew, keeping only those that still have a binding.
pub open spec fn spec_refreshed_rows(
    entries: Seq<(PackageId, ArtifactId)>,
    packages: Seq<StorePackage>,
) -> Seq<((Seq<char>, Seq<Seq<char>>), Seq<u8>)>
    decreases entries.len(),
{
    if entries.len() == 0 {
        Seq::empty()
    } else {
        let rest = spec_refreshed_rows(entries.drop_last(), packages);
        let bound = bindings_for(packages, entries.last().0@);
        if bound.len() > 0 {
            rest.push((entries.last().0@, bound[0].artifact.bytes@))
        } else {
            rest
        }
    }
}

/// The rows a manifest value denotes.
pub open spec fn manifest_rows(m: Manifest) -> Seq<((Seq<char>, Seq<Seq<char>>), Seq<u8>)> {
    Seq::new(m.entries@.len(), |i: int| (m.entries@[i].0@, m.entries@[i].1.bytes@))
}

impl Manifest {
    /// Resolve the current binding of every package of `plan`.
    pub fn create(plan: &Plan, store: &Store) -> (r: Manifest)
        requires
            store.wf(),
        ensures
            manifest_rows(r) == spec_manifest_rows(plan.spec_nodes(), store.packages@),
    {
        let mut entries: Vec<(PackageId, ArtifactId)> = Vec::new();
        let mut i: usize = 0;
        while i < plan.len()
            invariant
                store.wf(),
                i <= plan.spec_len(),
                Seq::new(entries@.len(), |m: int| (entries@[m].0@, entries@[m].1.bytes@))
                    == spec_manifest_rows(plan.spec_nodes().take(i as int), store.packages@),
            decreases plan.spec_len() - i,
        {
            let id = plan.node(i).id.duplicate();
            let bound = store.packages_of(&id);
            let ghost before = entries@;
            if bound.len() > 0 {
                let artifact = bound[0].artifact.duplicate();
                entries.push((id, artifact));
            }
            proof {
                assert(plan.spec_nodes().take(i as int + 1).drop_last() =~= plan.spec_nodes().take(
                    i as int,
                ));
                assert(plan.spec_nodes().take(i as int + 1).last() == plan.spec_nodes()[i as int]);
                assert(Seq::new(entries@.len(), |m: int| (entries@[m].0@, entries@[m].1.bytes@))
                    =~= spec_manifest_rows(plan.spec_nodes().take(i as int + 1), store.packages@));
            }
            i = i + 1;
        }
        proof {
            assert(plan.spec_nodes().take(plan.spec_nodes().len() as int) =~= plan.spec_nodes());
        }
        Manifest { entries }
    }

    /// Resolve every identifier of this manifest anew against the store.
    pub fn update(&self, store: &Store) -> (r: Manifest)
        requires
            store.wf(),
        ensures
            manifest_rows(r) == spec_refreshed_rows(self.entries@, store.packages@),
    {
        let mut entries: Vec<(PackageId, ArtifactId)> = Vec::new();
        let mut i: usize = 0;
        while i < self.entries.len()
            invariant
                store.wf(),
                i <= self.entries@.len(),
                Seq::new(entries@.len(), |m: int| (entries@[m].0@, entries@[m].1.bytes@))
                    == spec_refreshed_rows(self.entries@.take(i as int), store.packages@),
            decreases self.entries@.len() - i,
        {
            let id = self.entries[i].0.duplicate();
            let bound = store.packages_of(&id);
            if bound.len() > 0 {
                let artifact = bound[0].artifact.duplicate();
                entries.push((id, artifact));
            }
            proof {
                assert(self.entries@.take(i as int + 1).drop_last() =~= self.entries@.take(
                    i as int,
                ));
                assert(self.entries@.take(i as int + 1).last() == self.entries@[i as int]);
                assert(Seq::new(entries@.len(), |m: int| (entries@[m].0@, entries@[m].1.bytes@))
                    =~= spec_refreshed_rows(self.entries@.take(i as int + 1), store.packages@));
            }
            i = i + 1;
        }
        proof {
            assert(self.entries@.take(self.entries@.len() as int) =~= self.entries@);
        }
        Manifest { entries }
    }

    /// The artifact bound to `id`, if the manifest holds one.
    pub fn lookup(&self, id: &PackageId) -> (r: Option<&ArtifactId>)
        ensures
            match r {
                Some(a) => exists|i: int|
                    0 <= i < self.entries@.len() && (#[trigger] self.entries@[i]).0@ == id@
                        && self.entries@[i].1.bytes@ == a.bytes@,
                None => forall|i: int|
                    0 <= i < self.entries@.len() ==> (#[trigger] self.entries@[i]).0@ != id@,
            },
    {
        let mut i: usize = 0;
        while i < self.entries.len()
            invariant
                i <= self.entries@.len(),
                forall|j: int| 0 <= j < i ==> (#[trigger] self.entries@[j]).0@ != id@,
            decreases self.entries@.len() - i,
        {
            if self.entries[i].0.eq_to(id) {
                return Some(&self.entries[i].1);
            }
            i = i + 1;
        }
        None
    }
}

} // verus!
