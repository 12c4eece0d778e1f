//! The planner: registers package definitions under hierarchical
//! identifiers, builds the dependency plan, and rejects duplicate
//! identifiers as well as edges that would close a cycle.

use vstd::prelude::*;

use crate::graph::{closed_under, reach};
use crate::package::{clone_string, clone_strings, Dependency, Metadata, Package, PackageId};
use crate::plan::{Plan, PlanError};

verus! {

/// Why a planning operation was rejected.
#[derive(Debug)]
pub enum Error {
    /// A dependency handle does not name an existing node.
    NotFound { node: usize },
    /// A package with the same identifier was already registered.
    Conflict { package: PackageId },
    /// Inserting a dependency edge would close a cycle.
    Cycle { from: PackageId, to: PackageId },
}

/// A parsed package definition, as handed over by the script host.
pub struct PackageDef {
    pub name: String,
    pub metadata: Metadata,
    pub config: String,
    pub build: u64,
    pub apply: u64,
    pub dependencies: Vec<Dependency>,
}

/// Package dependency graph generator.
///
/// The planner accumulates `package` and `configure` registrations into a
/// [`Plan`], assigning each package the namespace stack current at the time
/// of its registration.
pub struct Planner {
    pub plan: Plan,
    pub namespace: Vec<String>,
}

impl Planner {
    /// Invariant: the plan is a well-formed DAG and no identifier repeats.
    pub open spec fn wf(self) -> bool {
        &&& self.plan.wf()
        &&& self.plan.ids_unique()
    }

    /// Some registered package already carries the identifier value `idv`.
    pub open spec fn has_id(self, idv: (Seq<char>, Seq<Seq<char>>)) -> bool {
        exists|i: int|
            0 <= i < self.plan.spec_nodes().len() && (#[trigger] self.plan.spec_nodes()[i].id)@
                == idv
    }

    /// A fresh planner with an empty plan and an empty namespace stack.
    pub fn new() -> (r: Planner)
        ensures
            r.wf(),
            r.plan.spec_len() == 0,
            r.namespace@.len() == 0,
    {
        Planner { plan: Plan::new(), namespace: Vec::new() }
    }

    /// The plan accumulated so far.
    pub fn plan(&self) -> (r: &Plan)
        ensures
            r == &self.plan,
    {
        &self.plan
    }

    /// Enter a namespace scope: push `token` on the namespace stack.
    pub fn push_namespace(&mut self, token: String)
        requires
            old(self).wf(),
        ensures
            final(self).wf(),
            final(self).plan == old(self).plan,
            final(self).namespace@ == old(self).namespace@.push(token),
    {
        self.namespace.push(token);
    }

    /// Leave the innermost namespace scope.
    pub fn pop_namespace(&mut self)
        requires
            old(self).wf(),
        ensures
            final(self).wf(),
            final(self).plan == old(self).plan,
            old(self).namespace@.len() > 0 ==> final(self).namespace@ == old(
                self,
            ).namespace@.drop_last(),
            old(self).namespace@.len() == 0 ==> final(self).namespace@ == old(self).namespace@,
    {
        if self.namespace.len() > 0 {
            let _leaving = self.namespace.pop();
        }
    }

    /// Whether `id`'s value is already registered.
    fn contains_id(&self, id: &PackageId) -> (r: bool)
        ensures
            r == self.has_id(id@),
    {
        let mut i: usize = 0;
        while i < self.plan.len()
            invariant
                i <= self.plan.spec_len(),
                forall|j: int|
                    0 <= j < i ==> (#[trigger] self.plan.spec_nodes()[j].id)@ != id@,
            decreases self.plan.spec_len() - i,
        {
            if self.plan.node(i).id.eq_to(id) {
                return true;
            }
            i = i + 1;
        }
        false
    }

    /// Register `pkg` as a new node with one outgoing edge per dependency.
    ///
    /// Requires that the identifier is fresh; fails with `NotFound` for a
    /// dependency handle past the new node, and with `Cycle` for a
    /// self-dependency (the only cycle a fresh node can close).
    fn insert_node(&mut self, pkg: Package, deps: &Vec<Dependency>) -> (r: Result<usize, Error>)
        requires
            old(self).wf(),
            !old(self).has_id(pkg.id@),
        ensures
            final(self).wf(),
            final(self).namespace == old(self).namespace,
            final(self).plan.spec_nodes() == old(self).plan.spec_nodes().push(pkg),
            forall|a: int, b: int, t: crate::package::LinkTime|
                a != old(self).plan.spec_len() ==> final(self).plan.labeled_edge(a, b, t) == old(
                    self,
                ).plan.labeled_edge(a, b, t),
            match r {
                Ok(idx) => {
                    &&& idx == old(self).plan.spec_len()
                    &&& forall|k: int|
                        0 <= k < deps@.len() ==> (#[trigger] deps@[k]).node < idx
                    &&& forall|b: int, t: crate::package::LinkTime|
                        final(self).plan.labeled_edge(idx as int, b, t) == exists|k: int|
                            0 <= k < deps@.len() && (#[trigger] deps@[k]).node == b && deps@[k].time == t
                },
                Err(Error::NotFound { node }) => {
                    &&& node > old(self).plan.spec_len()
                    &&& exists|k: int| 0 <= k < deps@.len() && (#[trigger] deps@[k]).node == node
                },
                Err(Error::Cycle { from, to }) => {
                    &&& from@ == pkg.id@
                    &&& to@ == pkg.id@
                    &&& exists|k: int|
                        0 <= k < deps@.len() && (#[trigger] deps@[k]).node == old(
                            self,
                        ).plan.spec_len()
                },
                Err(Error::Conflict { .. }) => false,
            },
    {
        let ghost old_len = self.plan.spec_len() as int;
        let ghost pkg_spec = pkg;
        let idx = self.plan.add_node(pkg);
        proof {
            assert(self.plan.ids_unique()) by {
                assert forall|i: int, j: int|
                    0 <= i < self.plan.spec_nodes().len() && 0 <= j
                        < self.plan.spec_nodes().len() && i != j implies (
                #[trigger] self.plan.spec_nodes()[i].id)@ != (
                #[trigger] self.plan.spec_nodes()[j].id)@ by {
                    if i == old_len {
                        if self.plan.spec_nodes()[i].id@ == self.plan.spec_nodes()[j].id@ {
                            assert(old(self).plan.spec_nodes()[j].id@ == pkg.id@);
                            assert(old(self).has_id(pkg.id@));
                        }
                    } else if j == old_len {
                        if self.plan.spec_nodes()[i].id@ == self.plan.spec_nodes()[j].id@ {
                            assert(old(self).plan.spec_nodes()[i].id@ == pkg.id@);
                            assert(old(self).has_id(pkg.id@));
                        }
                    }
                }
            }
        }
        let mut j: usize = 0;
        while j < deps.len()
            invariant
                self.plan.wf(),
                self.plan.ids_unique(),
                idx == old_len,
                old_len == old(self).plan.spec_len(),
                pkg_spec == pkg,
                j <= deps@.len(),
                self.namespace == old(self).namespace,
                self.plan.spec_nodes() == old(self).plan.spec_nodes().push(pkg_spec),
                forall|a: int, b: int, t: crate::package::LinkTime|
                    a != old_len ==> self.plan.labeled_edge(a, b, t) == old(
                        self,
                    ).plan.labeled_edge(a, b, t),
                forall|b: int, t: crate::package::LinkTime|
                    self.plan.labeled_edge(old_len, b, t) == exists|k: int|
                        0 <= k < j && (#[trigger] deps@[k]).node == b && deps@[k].time == t,
                forall|k: int| 0 <= k < j ==> (#[trigger] deps@[k]).node < old_len,
                forall|a: int, b: int|
                    #[trigger] self.plan.edge(a, b) && b == old_len ==> a == old_len,
            decreases deps@.len() - j,
        {
            let d = deps[j];
            let ghost pre_loop = *self;
            match self.plan.try_add_edge(idx, d.node, d.time) {
                Ok(()) => {
                    proof {
                        assert forall|a: int, b: int|
                            #[trigger] self.plan.edge(a, b) && b == old_len implies a == old_len by {
                            if a != old_len {
                                assert(pre_loop.plan.edge(a, b));
                            }
                        }
                        assert forall|k: int| 0 <= k < j + 1 implies (#[trigger] deps@[k]).node
                            < old_len by {
                            if k == j {
                                // A handle equal to the new node would have
                                // closed a self-cycle; a larger one would
                                // not have been found.
                                assert(d.node < self.plan.spec_len());
                                if d.node == old_len {
                                    crate::graph::lemma_reach_refl(
                                        pre_loop.plan.edge_rel(),
                                        old_len,
                                    );
                                    assert(reach(
                                        pre_loop.plan.edge_rel(),
                                        d.node as int,
                                        idx as int,
                                    ));
                                }
                            }
                        }
                    }
                },
                Err(PlanError::NotFound { node }) => {
                    proof {
                        assert(deps@[j as int].node == node);
                    }
                    return Err(Error::NotFound { node });
                },
                Err(PlanError::Cycle { from: _, to: cto }) => {
                    // The only node that can reach the fresh node is the
                    // fresh node itself, so this is a self-dependency.
                    proof {
                        let rel = pre_loop.plan.edge_rel();
                        if cto != idx {
                            let s = Set::new(|x: int| x != old_len);
                            assert(closed_under(rel, s)) by {
                                assert forall|x: int, y: int|
                                    s.contains(x) && #[trigger] rel(x, y) implies s.contains(
                                    y,
                                ) by {
                                    assert(pre_loop.plan.edge(x, y));
                                    if y == old_len {
                                        assert(x == old_len);
                                    }
                                }
                            }
                            assert(s.contains(cto as int));
                            assert(!s.contains(idx as int));
                            assert(!reach(rel, cto as int, idx as int));
                        }
                        assert(deps@[j as int].node == old_len);
                    }
                    let own_id = self.plan.node(idx).id.duplicate();
                    let own_id2 = self.plan.node(idx).id.duplicate();
                    return Err(Error::Cycle { from: own_id, to: own_id2 });
                },
            }
            j = j + 1;
        }
        Ok(idx)
    }

    /// Register a package definition under the current namespace.
    ///
    /// Fails with `Conflict` when the resulting identifier was already
    /// registered (the plan is then unchanged), with `NotFound` for an
    /// unknown dependency handle, and with `Cycle` for a self-dependency.
    pub fn package(&mut self, def: PackageDef) -> (r: Result<usize, Error>)
        requires
            old(self).wf(),
        ensures
            final(self).wf(),
            final(self).namespace == old(self).namespace,
            match r {
                Ok(idx) => {
                    &&& idx == old(self).plan.spec_len()
                    &&& final(self).plan.spec_len() == old(self).plan.spec_len() + 1
                    &&& !old(self).has_id(
                        (def.name@, old(self).namespace.deep_view()),
                    )
                    &&& final(self).plan.spec_nodes()[idx as int].id@ == (
                        def.name@,
                        old(self).namespace.deep_view(),
                    )
                    &&& final(self).plan.spec_nodes()[idx as int].config@ == def.config@
                    &&& final(self).plan.spec_nodes()[idx as int].build == def.build
                    &&& final(self).plan.spec_nodes()[idx as int].apply == def.apply
                    &&& forall|i: int|
                        0 <= i < idx ==> final(self).plan.spec_nodes()[i] == old(
                            self,
                        ).plan.spec_nodes()[i]
                    &&& forall|a: int, b: int, t: crate::package::LinkTime|
                        a != idx ==> final(self).plan.labeled_edge(a, b, t) == old(
                            self,
                        ).plan.labeled_edge(a, b, t)
                    &&& forall|b: int, t: crate::package::LinkTime|
                        final(self).plan.labeled_edge(idx as int, b, t) == exists|k: int|
                            0 <= k < def.dependencies@.len() && (
                            #[trigger] def.dependencies@[k]).node == b && def.dependencies@[k].time == t
                },
                Err(Error::Conflict { package }) => {
                    &&& package@ == (def.name@, old(self).namespace.deep_view())
                    &&& old(self).has_id(package@)
                    &&& final(self).plan == old(self).plan
                },
                Err(Error::NotFound { node }) => {
                    &&& !old(self).has_id((def.name@, old(self).namespace.deep_view()))
                    &&& node > old(self).plan.spec_len()
                    &&& exists|k: int|
                        0 <= k < def.dependencies@.len() && (
                        #[trigger] def.dependencies@[k]).node == node
                },
                Err(Error::Cycle { from, to }) => {
                    &&& !old(self).has_id((def.name@, old(self).namespace.deep_view()))
                    &&& from@ == (def.name@, old(self).namespace.deep_view())
                    &&& to@ == from@
                    &&& exists|k: int|
                        0 <= k < def.dependencies@.len() && (
                        #[trigger] def.dependencies@[k]).node == old(self).plan.spec_len()
                },
            },
    {
        let id = PackageId { name: def.name, namespace: clone_strings(&self.namespace) };
        if self.contains_id(&id) {
            return Err(Error::Conflict { package: id });
        }
        let pkg = Package {
            id,
            metadata: def.metadata,
            config: def.config,
            build: def.build,
            apply: def.apply,
        };
        self.insert_node(pkg, &def.dependencies)
    }

    /// Clone the package at `source`, rename it to `destination`, replace
    /// its configuration with the re-applied value, and register the clone
    /// as a new node with its own dependencies.
    pub fn configure(
        &mut self,
        source: usize,
        destination: String,
        config: String,
        build: u64,
        dependencies: Vec<Dependency>,
    ) -> (r: Result<usize, Error>)
        requires
            old(self).wf(),
        ensures
            final(self).wf(),
            final(self).namespace == old(self).namespace,
            match r {
                Ok(idx) => {
                    &&& source < old(self).plan.spec_len()
                    &&& idx == old(self).plan.spec_len()
                    &&& final(self).plan.spec_len() == old(self).plan.spec_len() + 1
                    &&& final(self).plan.spec_nodes()[idx as int].id@ == (
                        destination@,
                        old(self).plan.spec_nodes()[source as int].id@.1,
                    )
                    &&& final(self).plan.spec_nodes()[idx as int].config@ == config@
                    &&& final(self).plan.spec_nodes()[idx as int].build == build
                    &&& !old(self).has_id(final(self).plan.spec_nodes()[idx as int].id@)
                    &&& forall|i: int|
                        0 <= i < idx ==> final(self).plan.spec_nodes()[i] == old(
                            self,
                        ).plan.spec_nodes()[i]
                    &&& forall|a: int, b: int, t: crate::package::LinkTime|
                        a != idx ==> final(self).plan.labeled_edge(a, b, t) == old(
                            self,
                        ).plan.labeled_edge(a, b, t)
                    &&& forall|b: int, t: crate::package::LinkTime|
                        final(self).plan.labeled_edge(idx as int, b, t) == exists|k: int|
                            0 <= k < dependencies@.len() && (
                            #[trigger] dependencies@[k]).node == b && dependencies@[k].time
                                == t
                },
                Err(Error::NotFound { node }) => (node == source && source >= old(
                    self,
                ).plan.spec_len() && final(self).plan == old(self).plan) || (source < old(
                    self,
                ).plan.spec_len() && !old(self).has_id(
                    (destination@, old(self).plan.spec_nodes()[source as int].id@.1),
                ) && node > old(self).plan.spec_len() && exists|k: int|
                    0 <= k < dependencies@.len() && (#[trigger] dependencies@[k]).node == node),
                Err(Error::Conflict { package }) => {
                    &&& source < old(self).plan.spec_len()
                    &&& old(self).has_id(package@)
                    &&& final(self).plan == old(self).plan
                },
                Err(Error::Cycle { .. }) => source < old(self).plan.spec_len() && !old(
                    self,
                ).has_id((destination@, old(self).plan.spec_nodes()[source as int].id@.1))
                    && exists|k: int|
                    0 <= k < dependencies@.len() && (#[trigger] dependencies@[k]).node == old(
                        self,
                    ).plan.spec_len(),
            },
    {
        if source >= self.plan.len() {
            return Err(Error::NotFound { node: source });
        }
        let base = self.plan.node(source).duplicate();
        let id = PackageId {
            name: destination,
            namespace: clone_strings(&base.id.namespace),
        };
        proof {
            assert(base.id@.1 == old(self).plan.spec_nodes()[source as int].id@.1);
        }
        if self.contains_id(&id) {
            return Err(Error::Conflict { package: id });
        }
        let pkg = Package { id, metadata: Metadata, config, build, apply: base.apply };
        self.insert_node(pkg, &dependencies)
    }
}


/// Law: every plan a planner in a consistent state holds is acyclic: no
/// edge's target reaches back to its source, so no dependency chain loops.
pub proof fn lemma_planner_plan_acyclic(p: &Planner)
    requires
        p.wf(),
    ensures
        crate::graph::acyclic(p.plan.edge_rel()),
        forall|u: int, v: int| #[trigger] p.plan.edge(u, v) ==> !reach(p.plan.edge_rel(), v, u),
{
    assert forall|u: int, v: int| #[trigger] p.plan.edge(u, v) implies !reach(
        p.plan.edge_rel(),
        v,
        u,
    ) by {
        assert(p.plan.edge_rel()(u, v));
    }
}

} // verus!
