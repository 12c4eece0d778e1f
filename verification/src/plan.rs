//! The dependency plan: a directed acyclic graph of packages whose edges
//! carry a link-time label.  Edges point from a package to the packages it
//! depends on.  Acyclicity is maintained incrementally: every candidate edge
//! is validated before insertion and rejected when it would close a cycle.

use vstd::prelude::*;

use crate::graph::{
    acyclic, closed_under, lemma_acyclic_ext, lemma_add_edge_acyclic, lemma_add_edge_cycle,
    lemma_reach_step, reach, with_edge,
};
use crate::package::{LinkTime, Package};

verus! {

/// One outgoing dependency edge of a plan node.
#[derive(Clone, Copy, Debug, PartialEq, Eq, Structural)]
pub struct PlanEdge {
    pub to: usize,
    pub time: LinkTime,
}

/// Rejection reasons for plan mutations.
#[derive(Clone, Copy, Debug, PartialEq, Eq, Structural)]
pub enum PlanError {
    /// An edge endpoint does not name an existing node.
    NotFound { node: usize },
    /// Inserting the edge would close a dependency cycle.
    Cycle { from: usize, to: usize },
}

/// A labeled directed acyclic graph over packages.
pub struct Plan {
    pub nodes: Vec<Package>,
    pub adj: Vec<Vec<PlanEdge>>,
}

/// Number of `false` entries of a boolean sequence; the potential of a
/// graph traversal that still has that many nodes to visit.
closed spec fn count_false(s: Seq<bool>) -> nat
    decreases s.len(),
{
    if s.len() == 0 {
        0
    } else {
        count_false(s.drop_last()) + if s.last() {
            0nat
        } else {
            1nat
        }
    }
}

proof fn lemma_count_false_set_true(s: Seq<bool>, i: int)
    requires
        0 <= i < s.len(),
        !s[i],
    ensures
        count_false(s.update(i, true)) + 1 == count_false(s),
    decreases s.len(),
{
    if i == s.len() - 1 {
        assert(s.update(i, true).drop_last() =~= s.drop_last());
    } else {
        assert(s.update(i, true).drop_last() =~= s.drop_last().update(i, true));
        lemma_count_false_set_true(s.drop_last(), i);
    }
}

impl Plan {
    /// Number of nodes.
    pub open spec fn spec_len(self) -> nat {
        self.nodes@.len()
    }

    /// The packages at the plan's nodes, by node index.
    pub open spec fn spec_nodes(self) -> Seq<Package> {
        self.nodes@
    }

    /// Structural well-formedness: one adjacency row per node, and every
    /// edge target names an existing node.
    pub open spec fn wf_shape(self) -> bool {
        &&& self.adj@.len() == self.nodes@.len()
        &&& forall|u: int, k: int|
            0 <= u < self.adj@.len() && 0 <= k < self.adj@[u]@.len() ==> (
            #[trigger] self.adj@[u]@[k]).to < self.nodes@.len()
    }

    /// There is an edge from `u` to `v` (with any label).
    pub open spec fn edge(self, u: int, v: int) -> bool {
        &&& 0 <= u < self.adj@.len()
        &&& exists|k: int|
            0 <= k < self.adj@[u]@.len() && (#[trigger] self.adj@[u]@[k]).to == v
    }

    /// There is an edge from `u` to `v` labeled `t`.
    pub open spec fn labeled_edge(self, u: int, v: int, t: LinkTime) -> bool {
        &&& 0 <= u < self.adj@.len()
        &&& exists|k: int|
            0 <= k < self.adj@[u]@.len() && (#[trigger] self.adj@[u]@[k]).to == v
                && self.adj@[u]@[k].time == t
    }

    /// The plan's edge relation, as a relation on node indices.
    pub open spec fn edge_rel(self) -> spec_fn(int, int) -> bool {
        |u: int, v: int| self.edge(u, v)
    }

    /// Full invariant: well-shaped and acyclic.
    pub open spec fn wf(self) -> bool {
        &&& self.wf_shape()
        &&& acyclic(self.edge_rel())
    }

    /// No two nodes carry the same package identifier.
    pub open spec fn ids_unique(self) -> bool {
        forall|i: int, j: int|
            0 <= i < self.nodes@.len() && 0 <= j < self.nodes@.len() && i != j ==> (
            #[trigger] self.nodes@[i].id)@ != (#[trigger] self.nodes@[j].id)@
    }

    /// An empty plan.
    pub fn new() -> (r: Plan)
        ensures
            r.wf(),
            r.spec_len() == 0,
    {
        Plan { nodes: Vec::new(), adj: Vec::new() }
    }

    /// Number of nodes.
    pub fn len(&self) -> (r: usize)
        ensures
            r == self.spec_len(),
    {
        self.nodes.len()
    }

    /// The package at node `i`.
    pub fn node(&self, i: usize) -> (r: &Package)
        requires
            i < self.spec_len(),
        ensures
            *r == self.spec_nodes()[i as int],
    {
        &self.nodes[i]
    }

    /// The outgoing edges of node `i`.
    pub fn edges_of(&self, i: usize) -> (r: &Vec<PlanEdge>)
        requires
            self.wf_shape(),
            i < self.spec_len(),
        ensures
            r@ == self.adj@[i as int]@,
            forall|k: int| 0 <= k < r@.len() ==> (#[trigger] r@[k]).to < self.spec_len(),
            forall|k: int|
                0 <= k < r@.len() ==> self.labeled_edge(i as int, (#[trigger] r@[k]).to as int, r@[k].time),
            forall|v: int, t: LinkTime|
                self.labeled_edge(i as int, v, t) ==> exists|k: int|
                    0 <= k < r@.len() && (#[trigger] r@[k]).to == v && r@[k].time == t,
    {
        &self.adj[i]
    }

    /// The rendered identifiers of node `i`'s direct dependencies, in
    /// edge order: the resolved dependency list a structural key covers.
    pub fn dependency_ids(&self, i: usize) -> (r: Vec<String>)
        requires
            self.wf_shape(),
            i < self.spec_len(),
        ensures
            r@.len() == self.adj@[i as int]@.len(),
            forall|k: int|
                0 <= k < r@.len() ==> (#[trigger] r@[k])@ == self.spec_nodes()[self.adj@[
                    i as int
                ]@[k].to as int].id.spec_render(),
    {
        let mut r: Vec<String> = Vec::new();
        let deg = self.adj[i].len();
        let mut k: usize = 0;
        while k < deg
            invariant
                self.wf_shape(),
                i < self.spec_len(),
                deg == self.adj@[i as int]@.len(),
                k <= deg,
                r@.len() == k,
                forall|m: int|
                    0 <= m < k ==> (#[trigger] r@[m])@ == self.spec_nodes()[self.adj@[
                        i as int
                    ]@[m].to as int].id.spec_render(),
            decreases deg - k,
        {
            let e = self.adj[i][k];
            r.push(self.nodes[e.to].id.render());
            k = k + 1;
        }
        r
    }

    /// Append a node carrying `package`; it starts with no edges.
    pub fn add_node(&mut self, package: Package) -> (idx: usize)
        requires
            old(self).wf(),
        ensures
            final(self).wf(),
            idx == old(self).spec_len(),
            final(self).spec_nodes() == old(self).spec_nodes().push(package),
            forall|a: int, b: int| final(self).edge(a, b) == old(self).edge(a, b),
            forall|a: int, b: int, t: LinkTime|
                final(self).labeled_edge(a, b, t) == old(self).labeled_edge(a, b, t),
    {
        let idx = self.nodes.len();
        self.nodes.push(package);
        self.adj.push(Vec::new());
        proof {
            assert forall|a: int, b: int| final(self).edge(a, b) == old(self).edge(a, b) by {
                if a == idx {
                    assert(final(self).adj@[a]@.len() == 0);
                }
            }
            assert forall|a: int, b: int, t: LinkTime|
                final(self).labeled_edge(a, b, t) == old(self).labeled_edge(a, b, t) by {
                if a == idx {
                    assert(final(self).adj@[a]@.len() == 0);
                }
            }
            assert(acyclic(final(self).edge_rel())) by {
                lemma_acyclic_ext(old(self).edge_rel(), final(self).edge_rel());
            }
        }
        idx
    }

    /// Which nodes are reachable from `from` over zero or more edges.
    ///
    /// A depth-first traversal; the result is exact: entry `i` is true if
    /// and only if `i` is reachable from `from`.
    pub fn reachable_from(&self, from: usize) -> (vis: Vec<bool>)
        requires
            self.wf_shape(),
            from < self.spec_len(),
        ensures
            vis@.len() == self.spec_len(),
            forall|i: int|
                0 <= i < vis@.len() ==> vis@[i] == reach(self.edge_rel(), from as int, i),
    {
        let n = self.nodes.len();
        let mut vis: Vec<bool> = Vec::new();
        let mut j: usize = 0;
        while j < n
            invariant
                vis@.len() == j,
                j <= n,
                forall|i: int| 0 <= i < j ==> !vis@[i],
            decreases n - j,
        {
            vis.push(false);
            j = j + 1;
        }
        let mut stack: Vec<usize> = Vec::new();
        vis.set(from, true);
        stack.push(from);
        proof {
            crate::graph::lemma_reach_refl(self.edge_rel(), from as int);
            assert(stack@[0] == from);
            assert(stack@.contains(from));
        }
        while stack.len() > 0
            invariant
                self.wf_shape(),
                from < n,
                n == self.spec_len(),
                vis@.len() == n,
                vis@[from as int],
                forall|t: int|
                    0 <= t < stack@.len() ==> (#[trigger] stack@[t]) < n && vis@[stack@[t] as int],
                forall|i: int|
                    0 <= i < n && vis@[i] ==> reach(self.edge_rel(), from as int, i),
                forall|x: int, y: int|
                    0 <= x < n && vis@[x] && !stack@.contains(x as usize) && #[trigger] self.edge(
                        x,
                        y,
                    ) ==> 0 <= y < n && vis@[y],
            decreases 2 * count_false(vis@) + stack@.len(),
        {
            let ghost vis_at_entry = vis@;
            let ghost stack_at_entry = stack@;
            let node = stack[stack.len() - 1];
            let _top = stack.pop();
            proof {
                assert(node == stack_at_entry.last());
                assert(stack@ == stack_at_entry.drop_last());
                assert forall|x: usize|
                    stack_at_entry.contains(x) && x != node implies stack@.contains(x) by {
                    let t = choose|t: int|
                        0 <= t < stack_at_entry.len() && stack_at_entry[t] == x;
                    assert(t < stack_at_entry.len() - 1);
                    assert(stack@[t] == x);
                }
            }
            let ghost m0 = 2 * count_false(vis@) + stack@.len();
            let deg = self.adj[node].len();
            let mut k: usize = 0;
            while k < deg
                invariant
                    self.wf_shape(),
                    from < n,
                    n == self.spec_len(),
                    node < n,
                    deg == self.adj@[node as int]@.len(),
                    k <= deg,
                    vis@.len() == n,
                    vis@[from as int],
                    vis@[node as int],
                    forall|t: int|
                        0 <= t < stack@.len() ==> (#[trigger] stack@[t]) < n
                            && vis@[stack@[t] as int],
                    forall|i: int|
                        0 <= i < n && vis@[i] ==> reach(self.edge_rel(), from as int, i),
                    forall|x: int, y: int|
                        0 <= x < n && vis@[x] && !stack@.contains(x as usize) && x != node
                            && #[trigger] self.edge(x, y) ==> 0 <= y < n && vis@[y],
                    forall|kk: int|
                        0 <= kk < k ==> vis@[(#[trigger] self.adj@[node as int]@[kk]).to as int],
                    2 * count_false(vis@) + stack@.len() <= m0,
                decreases deg - k,
            {
                let e = self.adj[node][k];
                proof {
                    assert(self.edge(node as int, e.to as int));
                    assert(e.to < n);
                }
                if !vis[e.to] {
                    proof {
                        lemma_count_false_set_true(vis@, e.to as int);
                        lemma_reach_step(
                            self.edge_rel(),
                            from as int,
                            node as int,
                            e.to as int,
                        );
                    }
                    let ghost stack_before = stack@;
                    vis.set(e.to, true);
                    stack.push(e.to);
                    proof {
                        assert(stack@[stack@.len() - 1] == e.to);
                        assert(stack@.contains(e.to));
                        assert forall|x: usize|
                            stack_before.contains(x) implies stack@.contains(x) by {
                            let t = choose|t: int|
                                0 <= t < stack_before.len() && stack_before[t] == x;
                            assert(stack@[t] == x);
                        }
                    }
                }
                k = k + 1;
            }
            proof {
                assert(2 * count_false(vis@) + stack@.len() < 2 * count_false(vis_at_entry)
                    + stack_at_entry.len());
            }
        }
        proof {
            let rel = self.edge_rel();
            let s = Set::new(|i: int| 0 <= i < n && vis@[i]);
            assert(closed_under(rel, s)) by {
                assert forall|x: int, y: int| s.contains(x) && #[trigger] rel(x, y) implies s
                    .contains(y) by {
                    assert(self.edge(x, y));
                    assert(!stack@.contains(x as usize));
                    assert(0 <= y < n && vis@[y]);
                }
            }
            assert(s.contains(from as int));
            assert forall|i: int|
                0 <= i < vis@.len() implies vis@[i] == reach(rel, from as int, i) by {
                if reach(rel, from as int, i) {
                    assert(s.contains(i));
                }
            }
        }
        vis
    }

    /// Whether `to` is reachable from `from` over zero or more edges.
    pub fn reaches(&self, from: usize, to: usize) -> (r: bool)
        requires
            self.wf_shape(),
            from < self.spec_len(),
            to < self.spec_len(),
        ensures
            r == reach(self.edge_rel(), from as int, to as int),
    {
        let vis = self.reachable_from(from);
        vis[to]
    }

    /// Try to insert an edge from `from` to `to` labeled `time`.
    ///
    /// Succeeds exactly when both endpoints exist and `from` is not
    /// reachable from `to`; the plan then stays acyclic.  On any error the
    /// plan is unchanged.
    pub fn try_add_edge(&mut self, from: usize, to: usize, time: LinkTime) -> (r: Result<
        (),
        PlanError,
    >)
        requires
            old(self).wf(),
        ensures
            final(self).wf(),
            final(self).spec_nodes() == old(self).spec_nodes(),
            match r {
                Ok(_) => {
                    &&& from < old(self).spec_len()
                    &&& to < old(self).spec_len()
                    &&& !reach(old(self).edge_rel(), to as int, from as int)
                    &&& forall|a: int, b: int|
                        final(self).edge(a, b) == (old(self).edge(a, b) || (a == from && b
                            == to))
                    &&& forall|a: int, b: int, t: LinkTime|
                        final(self).labeled_edge(a, b, t) == (old(self).labeled_edge(a, b, t)
                            || (a == from && b == to && t == time))
                },
                Err(PlanError::Cycle { from: ef, to: et }) => {
                    &&& ef == from
                    &&& et == to
                    &&& from < old(self).spec_len()
                    &&& to < old(self).spec_len()
                    &&& reach(old(self).edge_rel(), to as int, from as int)
                    &&& !acyclic(with_edge(old(self).edge_rel(), from as int, to as int))
                    &&& *final(self) == *old(self)
                },
                Err(PlanError::NotFound { node }) => {
                    &&& (from >= old(self).spec_len() || to >= old(self).spec_len())
                    &&& (node == from || node == to)
                    &&& node >= old(self).spec_len()
                    &&& *final(self) == *old(self)
                },
            },
    {
        let n = self.nodes.len();
        if from >= n {
            return Err(PlanError::NotFound { node: from });
        }
        if to >= n {
            return Err(PlanError::NotFound { node: to });
        }
        if self.reaches(to, from) {
            proof {
                lemma_add_edge_cycle(self.edge_rel(), from as int, to as int);
            }
            return Err(PlanError::Cycle { from, to });
        }
        let ghost pre = *self;
        let mut row = self.adj.remove(from);
        row.push(PlanEdge { to, time });
        self.adj.insert(from, row);
        proof {
            assert(self.adj@ =~= pre.adj@.update(
                from as int,
                self.adj@[from as int],
            ));
            assert(self.adj@[from as int]@ =~= pre.adj@[from as int]@.push(
                PlanEdge { to, time },
            ));
            let new_edge = PlanEdge { to, time };
            let old_row = pre.adj@[from as int]@;
            assert forall|a: int, b: int|
                final(self).edge(a, b) == (pre.edge(a, b) || (a == from && b == to)) by {
                if a == from {
                    if pre.edge(a, b) {
                        let kk = choose|kk: int|
                            0 <= kk < old_row.len() && (#[trigger] old_row[kk]).to == b;
                        assert(self.adj@[a]@[kk].to == b);
                    }
                    if b == to {
                        assert(self.adj@[a]@[old_row.len() as int].to == b);
                    }
                    if final(self).edge(a, b) {
                        let kk = choose|kk: int|
                            0 <= kk < self.adj@[a]@.len() && (#[trigger] self.adj@[a]@[kk]).to
                                == b;
                        if kk < old_row.len() {
                            assert(old_row[kk].to == b);
                        }
                    }
                }
            }
            assert forall|a: int, b: int, t: LinkTime|
                final(self).labeled_edge(a, b, t) == (pre.labeled_edge(a, b, t) || (a == from
                    && b == to && t == time)) by {
                if a == from {
                    if pre.labeled_edge(a, b, t) {
                        let kk = choose|kk: int|
                            0 <= kk < old_row.len() && (#[trigger] old_row[kk]).to == b
                                && old_row[kk].time == t;
                        assert(self.adj@[a]@[kk].to == b && self.adj@[a]@[kk].time == t);
                    }
                    if b == to && t == time {
                        assert(self.adj@[a]@[old_row.len() as int] == new_edge);
                    }
                    if final(self).labeled_edge(a, b, t) {
                        let kk = choose|kk: int|
                            0 <= kk < self.adj@[a]@.len() && (#[trigger] self.adj@[a]@[kk]).to
                                == b && self.adj@[a]@[kk].time == t;
                        if kk < old_row.len() {
                            assert(old_row[kk].to == b && old_row[kk].time == t);
                        }
                    }
                }
            }
            assert(acyclic(final(self).edge_rel())) by {
                lemma_add_edge_acyclic(pre.edge_rel(), from as int, to as int);
                lemma_acyclic_ext(
                    with_edge(pre.edge_rel(), from as int, to as int),
                    final(self).edge_rel(),
                );
            }
        }
        Ok(())
    }
}

} // verus!
