//! The builder: a dependency-driven scheduler that walks a plan's reachable
//! subgraph in reverse-topological order, keeps at most a bounded number of
//! builds in flight, and assembles per-build closures of runtime and
//! buildtime inputs.
//!
//! The builder is a state machine: the caller repeatedly claims ready nodes
//! with [`Builder::next_task`], performs the outside work for each claimed
//! node, and reports the outcome with [`Builder::finish_success`] or
//! [`Builder::finish_failure`].

use vstd::prelude::*;

use crate::graph::reach;
use crate::package::LinkTime;
use crate::plan::{Plan, PlanEdge};

verus! {

/// Scheduling state of one plan node.
#[derive(Debug)]
pub enum BuildState {
    /// Not claimed yet; `remaining` counts the outgoing edges whose target
    /// is not built yet.
    Unbuilt { remaining: usize },
    /// Claimed by a build task.
    Building,
    /// Built; `runtime` holds the node's transitive runtime closure,
    /// including the node itself.
    Built { runtime: Vec<usize> },
}

/// The `remaining` count of an `Unbuilt` state (zero otherwise).
pub open spec fn unbuilt_remaining(st: BuildState) -> nat {
    match st {
        BuildState::Unbuilt { remaining } => remaining as nat,
        _ => 0,
    }
}

/// Construction parameters of a [`Builder`].
#[derive(Debug)]
pub struct BuilderOptions {
    /// Bound on the number of builds in flight at any moment.
    pub concurrent: usize,
    /// Root directory under which per-build environments are created.
    pub root: String,
}

/// The set of node indices an index sequence denotes.
pub open spec fn as_set(s: Seq<usize>) -> Set<int>
    decreases s.len(),
{
    if s.len() == 0 {
        Set::empty()
    } else {
        as_set(s.drop_last()).insert(s.last() as int)
    }
}

/// Membership in `as_set` is membership in the sequence.
pub broadcast proof fn lemma_as_set_contains(s: Seq<usize>, x: int)
    ensures
        #[trigger] as_set(s).contains(x) <==> exists|i: int| 0 <= i < s.len() && s[i] == x,
    decreases s.len(),
{
    if s.len() > 0 {
        lemma_as_set_contains(s.drop_last(), x);
        if as_set(s).contains(x) {
            if s.last() == x {
                assert(s[s.len() - 1] == x);
            } else {
                let i = choose|i: int| 0 <= i < s.drop_last().len() && s.drop_last()[i] == x;
                assert(s[i] == x);
            }
        }
        if exists|i: int| 0 <= i < s.len() && s[i] == x {
            let i = choose|i: int| 0 <= i < s.len() && s[i] == x;
            if i < s.len() - 1 {
                assert(s.drop_last()[i] == x);
            }
        }
    }
}

/// `as_set` is finite and no larger than the sequence.
pub proof fn lemma_as_set_finite(s: Seq<usize>)
    ensures
        as_set(s).finite(),
        as_set(s).len() <= s.len(),
    decreases s.len(),
{
    if s.len() > 0 {
        lemma_as_set_finite(s.drop_last());
    }
}

/// Number of `Building` entries.
pub closed spec fn count_building(st: Seq<BuildState>) -> nat
    decreases st.len(),
{
    if st.len() == 0 {
        0
    } else {
        count_building(st.drop_last()) + if st.last() is Building {
            1nat
        } else {
            0nat
        }
    }
}

proof fn lemma_count_building_update(st: Seq<BuildState>, i: int, v: BuildState)
    requires
        0 <= i < st.len(),
    ensures
        count_building(st.update(i, v)) + (if st[i] is Building {
            1nat
        } else {
            0nat
        }) == count_building(st) + (if v is Building {
            1nat
        } else {
            0nat
        }),
    decreases st.len(),
{
    if i == st.len() - 1 {
        assert(st.update(i, v).drop_last() =~= st.drop_last());
    } else {
        assert(st.update(i, v).drop_last() =~= st.drop_last().update(i, v));
        lemma_count_building_update(st.drop_last(), i, v);
    }
}

/// Number of edge slots of `row` pointing at `t`.
pub closed spec fn count_to(row: Seq<PlanEdge>, t: int) -> nat
    decreases row.len(),
{
    if row.len() == 0 {
        0
    } else {
        count_to(row.drop_last(), t) + if row.last().to == t {
            1nat
        } else {
            0nat
        }
    }
}

/// Number of edge slots of `row` whose target is not built in `st`.
pub closed spec fn row_unbuilt(row: Seq<PlanEdge>, st: Seq<BuildState>) -> nat
    decreases row.len(),
{
    if row.len() == 0 {
        0
    } else {
        row_unbuilt(row.drop_last(), st) + if 0 <= row.last().to < st.len() && st[row.last().to as int] is Built {
            0nat
        } else {
            1nat
        }
    }
}

proof fn lemma_row_unbuilt_all(row: Seq<PlanEdge>, st: Seq<BuildState>)
    requires
        forall|k: int|
            0 <= k < row.len() ==> (#[trigger] row[k]).to < st.len() && !(st[row[k].to as int]
                is Built),
    ensures
        row_unbuilt(row, st) == row.len(),
    decreases row.len(),
{
    if row.len() > 0 {
        assert(row[row.len() - 1].to < st.len());
        lemma_row_unbuilt_all(row.drop_last(), st);
    }
}

proof fn lemma_row_unbuilt_zero(row: Seq<PlanEdge>, st: Seq<BuildState>, k: int)
    requires
        row_unbuilt(row, st) == 0,
        0 <= k < row.len(),
        row[k].to < st.len(),
    ensures
        st[row[k].to as int] is Built,
    decreases row.len(),
{
    if k < row.len() - 1 {
        lemma_row_unbuilt_zero(row.drop_last(), st, k);
    }
}

proof fn lemma_row_unbuilt_flip(row: Seq<PlanEdge>, st: Seq<BuildState>, nn: int, v: BuildState)
    requires
        0 <= nn < st.len(),
        !(st[nn] is Built),
        v is Built,
        forall|k: int| 0 <= k < row.len() ==> (#[trigger] row[k]).to < st.len(),
    ensures
        row_unbuilt(row, st.update(nn, v)) + count_to(row, nn) == row_unbuilt(row, st),
    decreases row.len(),
{
    if row.len() > 0 {
        lemma_row_unbuilt_flip(row.drop_last(), st, nn, v);
    }
}

/// Package build runner over a plan's reachable subgraph.
pub struct Builder {
    pub plan: Plan,
    pub target: usize,
    pub state: Vec<BuildState>,
    pub in_subset: Vec<bool>,
    pub queue: Vec<usize>,
    pub building: usize,
    pub concurrent: usize,
    pub root: String,
}

impl Builder {
    /// Number of plan nodes.
    pub open spec fn n(self) -> int {
        self.plan.spec_len() as int
    }

    /// Node `i` is in the target's reachable subgraph.
    pub open spec fn in_scope(self, i: int) -> bool {
        0 <= i < self.n() && self.in_subset@[i]
    }

    /// Node `i` is built.
    pub open spec fn built(self, i: int) -> bool {
        0 <= i < self.n() && self.state@[i] is Built
    }

    /// Node `i` is claimed by a build task.
    pub open spec fn claimed(self, i: int) -> bool {
        0 <= i < self.n() && self.state@[i] is Building
    }

    /// The stored runtime closure of node `i` (meaningful when built).
    pub open spec fn runtime_seq(self, i: int) -> Seq<usize> {
        match self.state@[i] {
            BuildState::Built { runtime } => runtime@,
            _ => Seq::empty(),
        }
    }

    /// The stored runtime closure of node `i`, as a set.
    pub open spec fn runtime_set(self, i: int) -> Set<int> {
        as_set(self.runtime_seq(i))
    }

    /// The closure a link-time class contributes to node `u`'s build: for
    /// each outgoing edge of `u` labeled `t`, the child and the child's
    /// runtime closure.
    pub open spec fn direct_closure(self, u: int, t: LinkTime) -> Set<int> {
        Set::new(
            |x: int|
                exists|k: int|
                    0 <= k < self.plan.adj@[u]@.len() && (#[trigger] self.plan.adj@[u]@[k]).time
                        == t && (self.plan.adj@[u]@[k].to == x || self.runtime_set(
                        self.plan.adj@[u]@[k].to as int,
                    ).contains(x)),
        )
    }

    /// Structural part of the invariant: shapes, the subgraph, the permit
    /// count, and built nodes' children.
    pub open spec fn inv_core(self) -> bool {
        &&& self.plan.wf()
        &&& self.state@.len() == self.n()
        &&& self.in_subset@.len() == self.n()
        &&& self.target < self.n()
        &&& self.in_subset@[self.target as int]
        // The subgraph is exactly what the target reaches.
        &&& forall|i: int|
            0 <= i < self.n() ==> self.in_subset@[i] == reach(
                self.plan.edge_rel(),
                self.target as int,
                i,
            )
        // Nodes outside the subgraph are never touched.
        &&& forall|i: int|
            0 <= i < self.n() && !self.in_subset@[i] ==> self.state@[i] is Unbuilt
        // At most `concurrent` claimed nodes.
        &&& self.building == count_building(self.state@)
        &&& self.building <= self.concurrent
        // Claimed or built nodes have every child built.
        &&& forall|u: int, v: int|
            (self.built(u) || self.claimed(u)) && #[trigger] self.plan.edge(u, v) ==> self.built(
                v,
            )
    }

    /// The `remaining` count of every waiting subgraph node is exact.
    pub open spec fn remaining_exact(self) -> bool {
        forall|u: int|
            0 <= u < self.n() && self.in_subset@[u] && (#[trigger] self.state@[u]) is Unbuilt
                ==> unbuilt_remaining(self.state@[u]) == row_unbuilt(
                self.plan.adj@[u]@,
                self.state@,
            )
    }

    /// The ready queue holds distinct waiting subgraph nodes with no
    /// unbuilt children left.
    pub open spec fn inv_queue(self) -> bool {
        &&& forall|qi: int|
            0 <= qi < self.queue@.len() ==> (#[trigger] self.queue@[qi]) < self.n()
                && self.in_subset@[self.queue@[qi] as int]
                && self.state@[self.queue@[qi] as int] is Unbuilt
                && unbuilt_remaining(self.state@[self.queue@[qi] as int]) == 0
        &&& forall|qi: int, qj: int|
            0 <= qi < self.queue@.len() && 0 <= qj < self.queue@.len() && qi != qj ==> (
            #[trigger] self.queue@[qi]) != (#[trigger] self.queue@[qj])
    }

    /// Built nodes: the stored runtime closure contains the node, covers
    /// each runtime child's closure, and holds nothing else.
    pub open spec fn inv_runtime(self) -> bool {
        &&& forall|u: int| #[trigger]
            self.built(u) ==> self.runtime_set(u).contains(u)
        &&& forall|u: int, k: int|
            self.built(u) && 0 <= k < self.plan.adj@[u]@.len() && (
            #[trigger] self.plan.adj@[u]@[k]).time == LinkTime::Runtime ==> self.runtime_set(
                u,
            ).contains(self.plan.adj@[u]@[k].to as int) && self.runtime_set(
                self.plan.adj@[u]@[k].to as int,
            ).subset_of(self.runtime_set(u))
        &&& forall|u: int, x: int|
            self.built(u) && #[trigger] self.runtime_set(u).contains(x) ==> x == u || exists|
                k: int,
            |
                0 <= k < self.plan.adj@[u]@.len() && (#[trigger] self.plan.adj@[u]@[k]).time
                    == LinkTime::Runtime && (self.plan.adj@[u]@[k].to == x || self.runtime_set(
                    self.plan.adj@[u]@[k].to as int,
                ).contains(x))
        // Runtime closures hold built subgraph nodes.
        &&& forall|u: int, x: int|
            self.built(u) && #[trigger] self.runtime_set(u).contains(x) ==> self.built(x)
                && self.in_subset@[x]
    }

    /// The scheduler invariant.
    pub open spec fn inv(self) -> bool {
        &&& self.inv_core()
        &&& self.remaining_exact()
        &&& self.inv_queue()
        &&& self.inv_runtime()
    }

    /// Start a build of `target`: compute the reachable subgraph, seed the
    /// per-node dependency counts, and queue the leaves.
    pub fn new(plan: Plan, target: usize, options: BuilderOptions) -> (r: Builder)
        requires
            plan.wf(),
            target < plan.spec_len(),
        ensures
            r.inv(),
            r.plan == plan,
            r.target == target,
            r.concurrent == options.concurrent,
            r.building == 0,
            forall|i: int| 0 <= i < r.n() ==> !r.built(i) && !r.claimed(i),
            // Every leaf of the subgraph is ready from the start.
            forall|i: int|
                0 <= i < r.n() && r.in_subset@[i] && r.plan.adj@[i]@.len() == 0
                    ==> r.queue@.contains(i as usize),
    {
        let in_subset = plan.reachable_from(target);
        let n = plan.len();
        let mut state: Vec<BuildState> = Vec::new();
        let mut i: usize = 0;
        while i < n
            invariant
                i <= n,
                n == plan.spec_len(),
                plan.wf(),
                state@.len() == i,
                forall|j: int|
                    0 <= j < i ==> (#[trigger] state@[j]) is Unbuilt && unbuilt_remaining(
                        state@[j],
                    ) == plan.adj@[j]@.len(),
            decreases n - i,
        {
            let deg = plan.edges_of(i).len();
            state.push(BuildState::Unbuilt { remaining: deg });
            i = i + 1;
        }
        let mut queue: Vec<usize> = Vec::new();
        let mut q: usize = 0;
        while q < n
            invariant
                q <= n,
                n == plan.spec_len(),
                plan.wf(),
                state@.len() == n,
                in_subset@.len() == n,
                forall|j: int|
                    0 <= j < n ==> (#[trigger] state@[j]) is Unbuilt && unbuilt_remaining(
                        state@[j],
                    ) == plan.adj@[j]@.len(),
                forall|qi: int|
                    0 <= qi < queue@.len() ==> (#[trigger] queue@[qi]) < q
                        && in_subset@[queue@[qi] as int]
                        && plan.adj@[queue@[qi] as int]@.len() == 0,
                forall|qi: int, qj: int|
                    0 <= qi < queue@.len() && 0 <= qj < queue@.len() && qi != qj ==> (
                    #[trigger] queue@[qi]) != (#[trigger] queue@[qj]),
                forall|j: int|
                    0 <= j < q && in_subset@[j] && plan.adj@[j]@.len() == 0 ==> queue@.contains(
                        j as usize,
                    ),
            decreases n - q,
        {
            let ghost queue_before = queue@;
            if in_subset[q] && plan.edges_of(q).len() == 0 {
                queue.push(q);
                proof {
                    assert(queue@[queue@.len() - 1] == q);
                    assert(queue@.contains(q));
                    assert forall|x: usize| queue_before.contains(x) implies queue@.contains(
                        x,
                    ) by {
                        let t = choose|t: int|
                            0 <= t < queue_before.len() && queue_before[t] == x;
                        assert(queue@[t] == x);
                    }
                }
            }
            q = q + 1;
        }
        let r = Builder {
            plan,
            target,
            state,
            in_subset,
            queue,
            building: 0,
            concurrent: options.concurrent,
            root: options.root,
        };
        proof {
            assert(count_building(r.state@) == 0) by {
                lemma_count_building_all_unbuilt(r.state@);
            }
            crate::graph::lemma_reach_refl(r.plan.edge_rel(), target as int);
            assert forall|u: int|
                0 <= u < r.n() && r.in_subset@[u] && (#[trigger] r.state@[u]) is Unbuilt
                    implies unbuilt_remaining(r.state@[u]) == row_unbuilt(
                r.plan.adj@[u]@,
                r.state@,
            ) by {
                assert forall|k: int|
                    0 <= k < r.plan.adj@[u]@.len() implies (#[trigger] r.plan.adj@[u]@[k]).to
                        < r.state@.len() && !(r.state@[r.plan.adj@[u]@[k].to as int] is Built) by {}
                lemma_row_unbuilt_all(r.plan.adj@[u]@, r.state@);
            }
        }
        r
    }

    /// Claim a ready node if the permit budget allows one more build.
    ///
    /// Returns the claimed node, whose children are then all built; returns
    /// nothing when the queue is empty or `concurrent` builds are already
    /// in flight.
    pub fn next_task(&mut self) -> (r: Option<usize>)
        requires
            old(self).inv(),
        ensures
            final(self).inv(),
            final(self).plan == old(self).plan,
            final(self).target == old(self).target,
            final(self).concurrent == old(self).concurrent,
            final(self).in_subset == old(self).in_subset,
            match r {
                Some(nn) => {
                    &&& old(self).building < old(self).concurrent
                    &&& nn < old(self).n()
                    &&& old(self).in_scope(nn as int)
                    &&& old(self).state@[nn as int] is Unbuilt
                    &&& final(self).state@ == old(self).state@.update(
                        nn as int,
                        BuildState::Building,
                    )
                    &&& final(self).building == old(self).building + 1
                    &&& forall|v: int| final(self).plan.edge(nn as int, v) ==> final(self).built(v)
                },
                None => {
                    &&& *final(self) == *old(self)
                    &&& (old(self).building >= old(self).concurrent || old(self).queue@.len() == 0)
                },
            },
    {
        if self.building >= self.concurrent {
            return None;
        }
        if self.queue.len() == 0 {
            return None;
        }
        let nn = self.queue[self.queue.len() - 1];
        let ghost queue_pre = self.queue@;
        let _claimed = self.queue.pop();
        proof {
            assert(nn == queue_pre.last());
        }
        let ghost st_pre = self.state@;
        self.state.set(nn, BuildState::Building);
        self.building = self.building + 1;
        proof {
            lemma_count_building_update(st_pre, nn as int, BuildState::Building);
            // Children of the claimed node are built: its remaining count
            // was zero.
            assert(st_pre[nn as int] is Unbuilt && unbuilt_remaining(st_pre[nn as int]) == 0);
            assert(row_unbuilt(self.plan.adj@[nn as int]@, st_pre) == 0);
            assert forall|v: int| #[trigger] self.plan.edge(nn as int, v) implies self.built(v) by {
                let k = choose|k: int|
                    0 <= k < self.plan.adj@[nn as int]@.len() && (
                    #[trigger] self.plan.adj@[nn as int]@[k]).to == v;
                lemma_row_unbuilt_zero(self.plan.adj@[nn as int]@, st_pre, k);
            }
            assert(self.inv()) by {
                self.lemma_inv_after_claim(*old(self), nn);
            }
        }
        Some(nn)
    }

    /// Helper for the claim transition: the invariant survives marking a
    /// ready queue head as `Building`.
    proof fn lemma_inv_after_claim(self, pre: Builder, nn: usize)
        requires
            pre.inv(),
            pre.queue@.len() > 0,
            pre.building < pre.concurrent,
            nn == pre.queue@.last(),
            self.plan == pre.plan,
            self.target == pre.target,
            self.in_subset == pre.in_subset,
            self.concurrent == pre.concurrent,
            self.state@ == pre.state@.update(nn as int, BuildState::Building),
            self.queue@ == pre.queue@.drop_last(),
            self.building == pre.building + 1,
            self.building == count_building(self.state@),
            forall|v: int| #[trigger] self.plan.edge(nn as int, v) ==> self.built(v),
        ensures
            self.inv(),
    {
        let ni = nn as int;
        assert(pre.in_subset@[ni]);
        assert forall|u: int|
            0 <= u < self.n() && self.in_subset@[u] && (#[trigger] self.state@[u]) is Unbuilt
                implies unbuilt_remaining(self.state@[u]) == row_unbuilt(
            self.plan.adj@[u]@,
            self.state@,
        ) by {
            assert(u != ni);
            assert(pre.state@[u] == self.state@[u]);
            lemma_row_unbuilt_same(self.plan.adj@[u]@, pre.state@, self.state@);
        }
        assert forall|qi: int|
            0 <= qi < self.queue@.len() implies (#[trigger] self.queue@[qi]) < self.n()
            && self.in_subset@[self.queue@[qi] as int]
            && self.state@[self.queue@[qi] as int] is Unbuilt
            && unbuilt_remaining(self.state@[self.queue@[qi] as int]) == 0 by {
            assert(self.queue@[qi] == pre.queue@[qi]);
            assert(pre.queue@[qi] != nn);
        }
        assert forall|u: int, v: int|
            (self.built(u) || self.claimed(u)) && #[trigger] self.plan.edge(u, v) implies
            self.built(v) by {
            if u != ni {
                assert(pre.built(u) || pre.claimed(u));
                assert(pre.built(v));
            }
        }
        assert forall|u: int| #[trigger] self.built(u) implies self.runtime_set(u).contains(u) by {
            assert(pre.built(u));
            assert(self.runtime_seq(u) == pre.runtime_seq(u));
        }
        assert forall|u: int, k: int|
            self.built(u) && 0 <= k < self.plan.adj@[u]@.len() && (
            #[trigger] self.plan.adj@[u]@[k]).time == LinkTime::Runtime implies self.runtime_set(
            u,
        ).contains(self.plan.adj@[u]@[k].to as int) && self.runtime_set(
            self.plan.adj@[u]@[k].to as int,
        ).subset_of(self.runtime_set(u)) by {
            assert(pre.built(u));
            assert(self.runtime_seq(u) == pre.runtime_seq(u));
            let c = self.plan.adj@[u]@[k].to as int;
            assert(pre.built(c));
            assert(c != ni);
            assert(self.runtime_seq(c) == pre.runtime_seq(c));
        }
        assert forall|u: int, x: int|
            self.built(u) && #[trigger] self.runtime_set(u).contains(x) implies (x == u || exists|
                k: int,
            |
                0 <= k < self.plan.adj@[u]@.len() && (#[trigger] self.plan.adj@[u]@[k]).time
                    == LinkTime::Runtime && (self.plan.adj@[u]@[k].to == x || self.runtime_set(
                    self.plan.adj@[u]@[k].to as int,
                ).contains(x))) && self.built(x) && self.in_subset@[x] by {
            assert(pre.built(u));
            assert(self.runtime_seq(u) == pre.runtime_seq(u));
            assert(pre.runtime_set(u).contains(x));
            assert(pre.built(x));
            assert(x != ni);
            if x != u {
                let k = choose|k: int|
                    0 <= k < pre.plan.adj@[u]@.len() && (#[trigger] pre.plan.adj@[u]@[k]).time
                        == LinkTime::Runtime && (pre.plan.adj@[u]@[k].to == x || pre.runtime_set(
                        pre.plan.adj@[u]@[k].to as int,
                    ).contains(x));
                let c = pre.plan.adj@[u]@[k].to as int;
                assert(pre.built(c));
                assert(c != ni);
                assert(self.runtime_seq(c) == pre.runtime_seq(c));
            }
        }
    }
}

impl Builder {
    /// `x` is contributed to `u`'s `t`-closure by one of the first `m`
    /// edges.
    pub open spec fn upto_member(self, u: int, t: LinkTime, m: int, x: int) -> bool {
        exists|k: int|
            0 <= k < m && k < self.plan.adj@[u]@.len() && (#[trigger] self.plan.adj@[u]@[k]).time
                == t && (self.plan.adj@[u]@[k].to == x || self.runtime_set(
                self.plan.adj@[u]@[k].to as int,
            ).contains(x))
    }

    /// Assemble the closures handed to a claimed node's build: for every
    /// outgoing edge, the child and the child's runtime closure, split by
    /// the edge's link time.  The build receives the union of both parts as
    /// its dependency set; only the runtime part is propagated to parents.
    pub fn dependency_closure(&self, nn: usize) -> (r: (Vec<usize>, Vec<usize>))
        requires
            self.inv(),
            self.claimed(nn as int),
        ensures
            as_set(r.0@) == self.direct_closure(nn as int, LinkTime::Runtime),
            as_set(r.1@) == self.direct_closure(nn as int, LinkTime::Buildtime),
            forall|i: int| 0 <= i < r.0@.len() ==> self.built((#[trigger] r.0@[i]) as int),
            forall|i: int| 0 <= i < r.1@.len() ==> self.built((#[trigger] r.1@[i]) as int),
    {
        let ghost ni = nn as int;
        let mut rt: Vec<usize> = Vec::new();
        let mut bt: Vec<usize> = Vec::new();
        let deg = self.plan.edges_of(nn).len();
        let mut k: usize = 0;
        while k < deg
            invariant
                self.inv(),
                self.claimed(ni),
                ni == nn as int,
                deg == self.plan.adj@[ni]@.len(),
                k <= deg,
                forall|x: int|
                    #[trigger] as_set(rt@).contains(x) <==> self.upto_member(
                        ni,
                        LinkTime::Runtime,
                        k as int,
                        x,
                    ),
                forall|x: int|
                    #[trigger] as_set(bt@).contains(x) <==> self.upto_member(
                        ni,
                        LinkTime::Buildtime,
                        k as int,
                        x,
                    ),
                forall|i: int| 0 <= i < rt@.len() ==> self.built((#[trigger] rt@[i]) as int),
                forall|i: int| 0 <= i < bt@.len() ==> self.built((#[trigger] bt@[i]) as int),
            decreases deg - k,
        {
            let e = self.plan.edges_of(nn)[k];
            proof {
                assert(self.plan.edge(ni, e.to as int));
                assert(self.built(e.to as int));
            }
            let child_rt: &Vec<usize> = match &self.state[e.to] {
                BuildState::Built { runtime } => runtime,
                _ => vstd::pervasive::unreached(),
            };
            proof {
                assert(child_rt@ == self.runtime_seq(e.to as int));
            }
            if e.time == LinkTime::Runtime {
                push_closure_part(self, Ghost(ni), LinkTime::Runtime, k, e, child_rt, &mut rt);
            } else {
                proof {
                    assert(e.time == LinkTime::Buildtime);
                }
                push_closure_part(self, Ghost(ni), LinkTime::Buildtime, k, e, child_rt, &mut bt);
            }
            proof {
                let ghost kk = k as int;
                assert forall|x: int, t: LinkTime|
                    self.upto_member(ni, t, kk + 1, x) == (self.upto_member(ni, t, kk, x) || (
                    self.plan.adj@[ni]@[kk].time == t && (self.plan.adj@[ni]@[kk].to == x
                        || self.runtime_set(self.plan.adj@[ni]@[kk].to as int).contains(x)))) by {
                    if self.upto_member(ni, t, kk + 1, x) {
                        let w = choose|w: int|
                            0 <= w < kk + 1 && w < self.plan.adj@[ni]@.len() && (
                            #[trigger] self.plan.adj@[ni]@[w]).time == t && (
                            self.plan.adj@[ni]@[w].to == x || self.runtime_set(
                                self.plan.adj@[ni]@[w].to as int,
                            ).contains(x));
                        if w < kk {
                            assert(self.upto_member(ni, t, kk, x));
                        }
                    }
                }
            }
            k = k + 1;
        }
        proof {
            assert(as_set(rt@) =~= self.direct_closure(ni, LinkTime::Runtime));
            assert(as_set(bt@) =~= self.direct_closure(ni, LinkTime::Buildtime));
        }
        (rt, bt)
    }
}

/// Append `e.to` and the child's runtime closure to `acc`, extending the
/// accumulated part of the closure by edge `k`'s contribution.
fn push_closure_part(
    b: &Builder,
    ni: Ghost<int>,
    t: LinkTime,
    k: usize,
    e: PlanEdge,
    child_rt: &Vec<usize>,
    acc: &mut Vec<usize>,
)
    requires
        b.inv(),
        0 <= ni@ < b.n(),
        (k as int) < b.plan.adj@[ni@]@.len(),
        e == b.plan.adj@[ni@]@[k as int],
        e.time == t,
        b.built(e.to as int),
        child_rt@ == b.runtime_seq(e.to as int),
        forall|x: int|
            #[trigger] as_set(old(acc)@).contains(x) <==> b.upto_member(ni@, t, k as int, x),
        forall|i: int| 0 <= i < old(acc)@.len() ==> b.built((#[trigger] old(acc)@[i]) as int),
    ensures
        forall|x: int|
            #[trigger] as_set(final(acc)@).contains(x) <==> (b.upto_member(ni@, t, k as int, x)
                || e.to == x || b.runtime_set(e.to as int).contains(x)),
        forall|i: int| 0 <= i < final(acc)@.len() ==> b.built((#[trigger] final(acc)@[i]) as int),
{
    let ghost acc0 = acc@;
    acc.push(e.to);
    proof {
        assert forall|x: int|
            #[trigger] as_set(acc@).contains(x) <==> (b.upto_member(ni@, t, k as int, x) || e.to
                == x || as_set(child_rt@.take(0)).contains(x)) by {
            lemma_as_set_contains(acc@, x);
            lemma_as_set_contains(acc0, x);
            lemma_as_set_contains(child_rt@.take(0), x);
            if as_set(acc@).contains(x) {
                let i = choose|i: int| 0 <= i < acc@.len() && acc@[i] == x;
                if i < acc0.len() {
                    assert(acc0[i] == x);
                }
            }
            if as_set(acc0).contains(x) {
                let i = choose|i: int| 0 <= i < acc0.len() && acc0[i] == x;
                assert(acc@[i] == x);
            }
            if e.to == x {
                assert(acc@[acc@.len() - 1] == x);
            }
        }
    }
    let m = child_rt.len();
    let mut j: usize = 0;
    while j < m
        invariant
            b.inv(),
            0 <= ni@ < b.n(),
            m == child_rt@.len(),
            j <= m,
            b.built(e.to as int),
            child_rt@ == b.runtime_seq(e.to as int),
            forall|x: int|
                #[trigger] as_set(acc@).contains(x) <==> (b.upto_member(ni@, t, k as int, x)
                    || e.to == x || as_set(child_rt@.take(j as int)).contains(x)),
            forall|i: int| 0 <= i < acc@.len() ==> b.built((#[trigger] acc@[i]) as int),
        decreases m - j,
    {
        let x = child_rt[j];
        proof {
            assert(b.runtime_set(e.to as int).contains(x as int)) by {
                lemma_as_set_contains(child_rt@, x as int);
                assert(child_rt@[j as int] == x);
            }
            assert(b.built(x as int));
        }
        let ghost accj = acc@;
        acc.push(x);
        proof {
            assert forall|y: int|
                #[trigger] as_set(acc@).contains(y) <==> (b.upto_member(ni@, t, k as int, y)
                    || e.to == y || as_set(child_rt@.take(j as int + 1)).contains(y)) by {
                lemma_as_set_contains(acc@, y);
                lemma_as_set_contains(accj, y);
                lemma_as_set_contains(child_rt@.take(j as int), y);
                lemma_as_set_contains(child_rt@.take(j as int + 1), y);
                if as_set(acc@).contains(y) {
                    let i = choose|i: int| 0 <= i < acc@.len() && acc@[i] == y;
                    if i < accj.len() {
                        assert(accj[i] == y);
                    } else {
                        assert(child_rt@.take(j as int + 1)[j as int] == x);
                    }
                }
                if as_set(accj).contains(y) {
                    let i = choose|i: int| 0 <= i < accj.len() && accj[i] == y;
                    assert(acc@[i] == y);
                }
                if as_set(child_rt@.take(j as int + 1)).contains(y) {
                    let tk = child_rt@.take(j as int + 1);
                    let i = choose|i: int| 0 <= i < tk.len() && tk[i] == y;
                    if i < j as int {
                        assert(child_rt@.take(j as int)[i] == y);
                    } else {
                        assert(tk[j as int] == x);
                        assert(y == x);
                        assert(acc@[acc@.len() - 1] == x);
                    }
                }
            }
        }
        j = j + 1;
    }
    proof {
        assert(child_rt@.take(m as int) =~= child_rt@);
        assert forall|x: int|
            #[trigger] as_set(acc@).contains(x) <==> (b.upto_member(ni@, t, k as int, x) || e.to
                == x || b.runtime_set(e.to as int).contains(x)) by {
            assert(as_set(child_rt@.take(m as int)) == as_set(child_rt@));
        }
    }
}

/// Count the edge slots of `row` that point at `t`.
fn count_edges_to(row: &Vec<PlanEdge>, t: usize) -> (c: usize)
    ensures
        c == count_to(row@, t as int),
{
    let mut c: usize = 0;
    let mut i: usize = 0;
    while i < row.len()
        invariant
            i <= row@.len(),
            c == count_to(row@.take(i as int), t as int),
            c <= i,
        decreases row@.len() - i,
    {
        proof {
            assert(row@.take(i as int + 1).drop_last() =~= row@.take(i as int));
            assert(row@.take(i as int + 1).last() == row@[i as int]);
        }
        if row[i].to == t {
            c = c + 1;
        }
        i = i + 1;
    }
    proof {
        assert(row@.take(row@.len() as int) =~= row@);
    }
    c
}

proof fn lemma_count_building_pos(st: Seq<BuildState>, i: int)
    requires
        0 <= i < st.len(),
        st[i] is Building,
    ensures
        count_building(st) >= 1,
    decreases st.len(),
{
    if i < st.len() - 1 {
        lemma_count_building_pos(st.drop_last(), i);
    }
}

impl Builder {
    /// The invariant pieces that survive marking a claimed node as `Built`,
    /// with the waiting counts shifted by the edges into that node.
    proof fn lemma_after_mark_built(self, pre: Builder, nn: usize, rt0: Seq<usize>)
        requires
            pre.inv(),
            pre.claimed(nn as int),
            self.plan == pre.plan,
            self.target == pre.target,
            self.in_subset == pre.in_subset,
            self.concurrent == pre.concurrent,
            self.queue == pre.queue,
            self.state@ == pre.state@.update(
                nn as int,
                BuildState::Built { runtime: self.state@[nn as int]->Built_runtime },
            ),
            self.state@[nn as int] is Built,
            self.runtime_seq(nn as int) == rt0.push(nn),
            as_set(rt0) == pre.direct_closure(nn as int, LinkTime::Runtime),
            self.building == pre.building - 1,
        ensures
            self.inv_core(),
            self.inv_queue(),
            self.inv_runtime(),
            self.runtime_set(nn as int) == pre.direct_closure(nn as int, LinkTime::Runtime).insert(
                nn as int,
            ),
            forall|w: int|
                0 <= w < self.n() && self.in_subset@[w] && (#[trigger] self.state@[w]) is Unbuilt
                    ==> unbuilt_remaining(self.state@[w]) == row_unbuilt(
                    self.plan.adj@[w]@,
                    self.state@,
                ) + count_to(self.plan.adj@[w]@, nn as int),
    {
        let ni = nn as int;
        assert(pre.in_subset@[ni]);
        // Permit count.
        lemma_count_building_update(pre.state@, ni, self.state@[ni]);
        // The new runtime closure as a set.
        assert(self.runtime_set(ni) =~= as_set(rt0).insert(ni)) by {
            assert(self.runtime_seq(ni).drop_last() =~= rt0);
        }
        // Children of built or claimed nodes stay built.
        assert forall|u: int, v: int|
            (self.built(u) || self.claimed(u)) && #[trigger] self.plan.edge(u, v) implies
            self.built(v) by {
            if u != ni {
                assert(pre.built(u) || pre.claimed(u));
                assert(pre.built(v));
            } else {
                assert(pre.claimed(ni));
                assert(pre.built(v));
            }
        }
        // Queue members are untouched waiting nodes.
        assert forall|qi: int|
            0 <= qi < self.queue@.len() implies (#[trigger] self.queue@[qi]) < self.n()
            && self.in_subset@[self.queue@[qi] as int]
            && self.state@[self.queue@[qi] as int] is Unbuilt
            && unbuilt_remaining(self.state@[self.queue@[qi] as int]) == 0 by {
            assert(pre.queue@[qi] == self.queue@[qi]);
            assert(pre.state@[pre.queue@[qi] as int] is Unbuilt);
            assert(self.queue@[qi] != nn);
        }
        // Runtime closure invariants.
        assert forall|u: int| #[trigger] self.built(u) implies self.runtime_set(u).contains(u) by {
            if u == ni {
                assert(self.runtime_set(ni).contains(ni));
            } else {
                assert(pre.built(u));
                assert(self.runtime_seq(u) == pre.runtime_seq(u));
            }
        }
        assert forall|u: int, k: int|
            self.built(u) && 0 <= k < self.plan.adj@[u]@.len() && (
            #[trigger] self.plan.adj@[u]@[k]).time == LinkTime::Runtime implies self.runtime_set(
            u,
        ).contains(self.plan.adj@[u]@[k].to as int) && self.runtime_set(
            self.plan.adj@[u]@[k].to as int,
        ).subset_of(self.runtime_set(u)) by {
            let c = self.plan.adj@[u]@[k].to as int;
            assert(self.plan.edge(u, c));
            if u == ni {
                assert(pre.built(c));
                assert(c != ni);
                assert(self.runtime_seq(c) == pre.runtime_seq(c));
                assert(pre.direct_closure(ni, LinkTime::Runtime).contains(c));
                assert forall|x: int| pre.runtime_set(c).contains(x) implies self.runtime_set(
                    u,
                ).contains(x) by {
                    assert(pre.direct_closure(ni, LinkTime::Runtime).contains(x));
                }
            } else {
                assert(pre.built(u));
                assert(self.runtime_seq(u) == pre.runtime_seq(u));
                assert(pre.built(c));
                assert(c != ni);
                assert(self.runtime_seq(c) == pre.runtime_seq(c));
            }
        }
        assert forall|u: int, x: int|
            self.built(u) && #[trigger] self.runtime_set(u).contains(x) implies (x == u || exists|
                k: int,
            |
                0 <= k < self.plan.adj@[u]@.len() && (#[trigger] self.plan.adj@[u]@[k]).time
                    == LinkTime::Runtime && (self.plan.adj@[u]@[k].to == x || self.runtime_set(
                    self.plan.adj@[u]@[k].to as int,
                ).contains(x))) && self.built(x) && self.in_subset@[x] by {
            if u == ni {
                if x != ni {
                    assert(pre.direct_closure(ni, LinkTime::Runtime).contains(x));
                    let k = choose|k: int|
                        0 <= k < pre.plan.adj@[ni]@.len() && (
                        #[trigger] pre.plan.adj@[ni]@[k]).time == LinkTime::Runtime && (
                        pre.plan.adj@[ni]@[k].to == x || pre.runtime_set(
                            pre.plan.adj@[ni]@[k].to as int,
                        ).contains(x));
                    let c = pre.plan.adj@[ni]@[k].to as int;
                    assert(pre.plan.edge(ni, c));
                    assert(pre.built(c));
                    assert(c != ni);
                    assert(self.runtime_seq(c) == pre.runtime_seq(c));
                    if pre.plan.adj@[ni]@[k].to == x {
                        assert(self.built(x));
                        assert(self.in_subset@[x]);
                    } else {
                        assert(pre.built(x) && pre.in_subset@[x]);
                        assert(x != ni);
                    }
                } else {
                    assert(self.built(ni));
                    assert(self.in_subset@[ni]);
                }
            } else {
                assert(pre.built(u));
                assert(self.runtime_seq(u) == pre.runtime_seq(u));
                assert(pre.runtime_set(u).contains(x));
                assert(pre.built(x) && pre.in_subset@[x]);
                assert(x != ni);
                if x != u {
                    let k = choose|k: int|
                        0 <= k < pre.plan.adj@[u]@.len() && (#[trigger] pre.plan.adj@[u]@[k]).time
                            == LinkTime::Runtime && (pre.plan.adj@[u]@[k].to == x
                            || pre.runtime_set(pre.plan.adj@[u]@[k].to as int).contains(x));
                    let c = pre.plan.adj@[u]@[k].to as int;
                    assert(pre.plan.edge(u, c));
                    assert(pre.built(c));
                    assert(c != ni);
                    assert(self.runtime_seq(c) == pre.runtime_seq(c));
                }
            }
        }
        // Waiting counts, shifted by the edges into the newly built node.
        assert forall|w: int|
            0 <= w < self.n() && self.in_subset@[w] && (#[trigger] self.state@[w]) is Unbuilt
            implies unbuilt_remaining(self.state@[w]) == row_unbuilt(
            self.plan.adj@[w]@,
            self.state@,
        ) + count_to(self.plan.adj@[w]@, nn as int) by {
            assert(w != ni);
            assert(pre.state@[w] == self.state@[w]);
            assert(unbuilt_remaining(pre.state@[w]) == row_unbuilt(pre.plan.adj@[w]@, pre.state@));
            lemma_row_unbuilt_flip(pre.plan.adj@[w]@, pre.state@, ni, self.state@[ni]);
        }
    }

    /// Record a successful build of the claimed node `nn`: store its
    /// runtime closure (itself plus every runtime child's closure), release
    /// the permit, and decrement the waiting counts of its parents,
    /// queueing those with no unbuilt children left.
    pub fn finish_success(&mut self, nn: usize)
        requires
            old(self).inv(),
            old(self).claimed(nn as int),
        ensures
            final(self).inv(),
            final(self).plan == old(self).plan,
            final(self).target == old(self).target,
            final(self).concurrent == old(self).concurrent,
            final(self).in_subset == old(self).in_subset,
            final(self).building == old(self).building - 1,
            final(self).built(nn as int),
            final(self).runtime_set(nn as int) == old(self).direct_closure(
                nn as int,
                LinkTime::Runtime,
            ).insert(nn as int),
            forall|i: int|
                0 <= i < final(self).n() && i != nn ==> final(self).built(i) == old(self).built(i)
                    && final(self).claimed(i) == old(self).claimed(i),
            forall|i: int|
                0 <= i < final(self).n() && i != nn && final(self).built(i)
                    ==> final(self).runtime_seq(i) == old(self).runtime_seq(i),
            // The queue only grows, and every waiting parent whose count
            // reached zero through this node is now queued.
            old(self).queue@.is_prefix_of(final(self).queue@),
            forall|w: int|
                0 <= w < final(self).n() && final(self).in_subset@[w] && (
                #[trigger] final(self).state@[w]) is Unbuilt && unbuilt_remaining(
                    final(self).state@[w],
                ) == 0 && count_to(final(self).plan.adj@[w]@, nn as int) > 0
                    ==> final(self).queue@.contains(w as usize),
    {
        let ghost ni = nn as int;
        let ghost queue0 = self.queue@;
        let (mut rt, _buildtime) = self.dependency_closure(nn);
        let ghost rt0 = rt@;
        rt.push(nn);
        proof {
            lemma_count_building_pos(self.state@, ni);
        }
        let ghost pre = *self;
        self.state.set(nn, BuildState::Built { runtime: rt });
        self.building = self.building - 1;
        proof {
            self.lemma_after_mark_built(pre, nn, rt0);
        }
        let n = self.plan.len();
        let mut u: usize = 0;
        while u < n
            invariant
                self.inv_core(),
                self.inv_queue(),
                self.inv_runtime(),
                u <= n,
                n == self.n(),
                ni == nn as int,
                0 <= ni < n,
                self.built(ni),
                self.plan == old(self).plan,
                self.target == old(self).target,
                self.concurrent == old(self).concurrent,
                self.in_subset == old(self).in_subset,
                self.building == old(self).building - 1,
                self.runtime_set(ni) == old(self).direct_closure(ni, LinkTime::Runtime).insert(ni),
                forall|i: int|
                    0 <= i < n && i != ni ==> self.built(i) == old(self).built(i) && self.claimed(
                        i,
                    ) == old(self).claimed(i),
                forall|i: int|
                    0 <= i < n && i != ni && self.built(i) ==> self.runtime_seq(i) == old(
                        self,
                    ).runtime_seq(i),
                forall|w: int|
                    0 <= w < u && self.in_subset@[w] && (#[trigger] self.state@[w]) is Unbuilt
                        ==> unbuilt_remaining(self.state@[w]) == row_unbuilt(
                        self.plan.adj@[w]@,
                        self.state@,
                    ),
                forall|w: int|
                    u <= w < n && self.in_subset@[w] && (#[trigger] self.state@[w]) is Unbuilt
                        ==> unbuilt_remaining(self.state@[w]) == row_unbuilt(
                        self.plan.adj@[w]@,
                        self.state@,
                    ) + count_to(self.plan.adj@[w]@, ni),
                queue0 == old(self).queue@,
                queue0.is_prefix_of(self.queue@),
                forall|w: int|
                    0 <= w < u && self.in_subset@[w] && (#[trigger] self.state@[w]) is Unbuilt
                        && unbuilt_remaining(self.state@[w]) == 0 && count_to(
                        self.plan.adj@[w]@,
                        ni,
                    ) > 0 ==> self.queue@.contains(w as usize),
            decreases n - u,
        {
            let mut rem_found: bool = false;
            let mut rem: usize = 0;
            if self.in_subset[u] {
                match &self.state[u] {
                    BuildState::Unbuilt { remaining } => {
                        rem_found = true;
                        rem = *remaining;
                    },
                    _ => {},
                }
            }
            if rem_found {
                let cnt = count_edges_to(self.plan.edges_of(u), nn);
                if cnt > 0 {
                    proof {
                        assert(rem == row_unbuilt(self.plan.adj@[u as int]@, self.state@) + count_to(
                            self.plan.adj@[u as int]@,
                            ni,
                        ));
                    }
                    let new_rem = rem - cnt;
                    let ghost mid = *self;
                    self.state.set(u, BuildState::Unbuilt { remaining: new_rem });
                    proof {
                        self.lemma_after_decrement(mid, u, new_rem, Ghost(ni), Ghost(u as int));
                    }
                    if new_rem == 0 {
                        let ghost queue_pre = self.queue@;
                        let ghost before_push = *self;
                        self.queue.push(u);
                        proof {
                            Builder::lemma_inv_runtime_frame(before_push, *self);
                            assert(self.queue@.drop_last() =~= queue_pre);
                            assert(self.queue@.last() == u);
                            assert(self.queue@.contains(u));
                            assert forall|x: usize| queue_pre.contains(x) implies self.queue@
                                .contains(x) by {
                                let t = choose|t: int|
                                    0 <= t < queue_pre.len() && queue_pre[t] == x;
                                assert(self.queue@[t] == x);
                            }
                            assert(queue0.is_prefix_of(self.queue@)) by {
                                assert(self.queue@.take(queue0.len() as int) =~= queue_pre.take(
                                    queue0.len() as int,
                                ));
                            }
                            assert forall|qi: int|
                                0 <= qi < self.queue@.len() implies (#[trigger] self.queue@[qi])
                                < self.n() && self.in_subset@[self.queue@[qi] as int]
                                && self.state@[self.queue@[qi] as int] is Unbuilt
                                && unbuilt_remaining(self.state@[self.queue@[qi] as int]) == 0 by {
                                if qi < self.queue@.len() - 1 {
                                    assert(self.queue@[qi] == queue_pre[qi]);
                                }
                            }
                            assert forall|qi: int, qj: int|
                                0 <= qi < self.queue@.len() && 0 <= qj < self.queue@.len() && qi
                                    != qj implies (#[trigger] self.queue@[qi]) != (
                                #[trigger] self.queue@[qj]) by {
                                if qi == self.queue@.len() - 1 && 0 <= qj < self.queue@.len() - 1 {
                                    assert(mid.inv_queue());
                                    assert(unbuilt_remaining(mid.state@[queue_pre[qj] as int])
                                        == 0);
                                    assert(rem >= cnt >= 1);
                                } else if qj == self.queue@.len() - 1 && 0 <= qi < self.queue@.len()
                                    - 1 {
                                    assert(mid.inv_queue());
                                    assert(unbuilt_remaining(mid.state@[queue_pre[qi] as int])
                                        == 0);
                                    assert(rem >= cnt >= 1);
                                }
                            }
                        }
                    }
                }
            }
            u = u + 1;
        }
    }

    /// The invariant pieces survive replacing one waiting count with the
    /// exact count of still-unbuilt children.
    proof fn lemma_after_decrement(
        self,
        mid: Builder,
        u: usize,
        new_rem: usize,
        ni: Ghost<int>,
        ui: Ghost<int>,
    )
        requires
            mid.inv_core(),
            mid.inv_queue(),
            mid.inv_runtime(),
            ui@ == u as int,
            0 <= ui@ < mid.n(),
            mid.in_subset@[ui@],
            mid.state@[ui@] is Unbuilt,
            unbuilt_remaining(mid.state@[ui@]) >= 1,
            new_rem == row_unbuilt(mid.plan.adj@[ui@]@, mid.state@),
            self.plan == mid.plan,
            self.target == mid.target,
            self.in_subset == mid.in_subset,
            self.concurrent == mid.concurrent,
            self.queue == mid.queue,
            self.building == mid.building,
            self.state@ == mid.state@.update(ui@, BuildState::Unbuilt { remaining: new_rem }),
        ensures
            self.inv_core(),
            self.inv_queue(),
            self.inv_runtime(),
            forall|i: int|
                0 <= i < self.n() && i != ui@ ==> self.state@[i] == mid.state@[i],
            forall|i: int|
                0 <= i < self.n() ==> self.built(i) == mid.built(i) && self.claimed(i)
                    == mid.claimed(i),
            forall|i: int| 0 <= i < self.n() && self.built(i) ==> self.runtime_seq(i)
                == mid.runtime_seq(i),
            unbuilt_remaining(self.state@[ui@]) == row_unbuilt(self.plan.adj@[ui@]@, self.state@),
            forall|w: int|
                0 <= w < self.n() && w != ui@ ==> row_unbuilt(self.plan.adj@[w]@, self.state@)
                    == row_unbuilt(mid.plan.adj@[w]@, mid.state@),
    {
        assert forall|i: int|
            0 <= i < self.n() implies self.built(i) == mid.built(i) && self.claimed(i)
            == mid.claimed(i) by {
            if i == ui@ {
                assert(self.state@[i] is Unbuilt);
            }
        }
        assert forall|w: int|
            0 <= w < self.n() implies row_unbuilt(self.plan.adj@[w]@, self.state@) == row_unbuilt(
            mid.plan.adj@[w]@,
            mid.state@,
        ) by {
            lemma_row_unbuilt_same(mid.plan.adj@[w]@, mid.state@, self.state@);
        }
        assert(self.building == count_building(self.state@)) by {
            lemma_count_building_update(
                mid.state@,
                ui@,
                BuildState::Unbuilt { remaining: new_rem },
            );
        }
        assert forall|uu: int, v: int|
            (self.built(uu) || self.claimed(uu)) && #[trigger] self.plan.edge(uu, v) implies
            self.built(v) by {
            assert(mid.built(uu) || mid.claimed(uu));
            assert(mid.built(v));
        }
        assert forall|qi: int|
            0 <= qi < self.queue@.len() implies (#[trigger] self.queue@[qi]) < self.n()
            && self.in_subset@[self.queue@[qi] as int]
            && self.state@[self.queue@[qi] as int] is Unbuilt
            && unbuilt_remaining(self.state@[self.queue@[qi] as int]) == 0 by {
            assert(mid.queue@[qi] == self.queue@[qi]);
            assert(unbuilt_remaining(mid.state@[mid.queue@[qi] as int]) == 0);
            assert(self.queue@[qi] != u);
        }
        assert forall|uu: int| #[trigger] self.built(uu) implies self.runtime_set(uu).contains(
            uu,
        ) by {
            assert(mid.built(uu));
            assert(self.runtime_seq(uu) == mid.runtime_seq(uu));
        }
        assert forall|uu: int, k: int|
            self.built(uu) && 0 <= k < self.plan.adj@[uu]@.len() && (
            #[trigger] self.plan.adj@[uu]@[k]).time == LinkTime::Runtime implies self.runtime_set(
            uu,
        ).contains(self.plan.adj@[uu]@[k].to as int) && self.runtime_set(
            self.plan.adj@[uu]@[k].to as int,
        ).subset_of(self.runtime_set(uu)) by {
            let c = self.plan.adj@[uu]@[k].to as int;
            assert(self.plan.edge(uu, c));
            assert(mid.built(uu));
            assert(mid.built(c));
            assert(self.runtime_seq(uu) == mid.runtime_seq(uu));
            assert(self.runtime_seq(c) == mid.runtime_seq(c));
        }
        assert forall|uu: int, x: int|
            self.built(uu) && #[trigger] self.runtime_set(uu).contains(x) implies (x == uu
                || exists|k: int|
                0 <= k < self.plan.adj@[uu]@.len() && (#[trigger] self.plan.adj@[uu]@[k]).time
                    == LinkTime::Runtime && (self.plan.adj@[uu]@[k].to == x || self.runtime_set(
                    self.plan.adj@[uu]@[k].to as int,
                ).contains(x))) && self.built(x) && self.in_subset@[x] by {
            assert(mid.built(uu));
            assert(self.runtime_seq(uu) == mid.runtime_seq(uu));
            assert(mid.runtime_set(uu).contains(x));
            assert(mid.built(x) && mid.in_subset@[x]);
            if x != uu {
                let k = choose|k: int|
                    0 <= k < mid.plan.adj@[uu]@.len() && (#[trigger] mid.plan.adj@[uu]@[k]).time
                        == LinkTime::Runtime && (mid.plan.adj@[uu]@[k].to == x || mid.runtime_set(
                        mid.plan.adj@[uu]@[k].to as int,
                    ).contains(x));
                let c = mid.plan.adj@[uu]@[k].to as int;
                assert(mid.plan.edge(uu, c));
                assert(mid.built(c));
                assert(self.runtime_seq(c) == mid.runtime_seq(c));
            }
        }
    }

    /// Record a failed build of the claimed node `nn`: release the permit
    /// and revert the node to `Unbuilt` with no unbuilt children left, so a
    /// later run may retry it.  Parents are not notified and stay waiting.
    pub fn finish_failure(&mut self, nn: usize)
        requires
            old(self).inv(),
            old(self).claimed(nn as int),
        ensures
            final(self).inv(),
            final(self).plan == old(self).plan,
            final(self).target == old(self).target,
            final(self).concurrent == old(self).concurrent,
            final(self).in_subset == old(self).in_subset,
            final(self).queue == old(self).queue,
            final(self).building == old(self).building - 1,
            final(self).state@ == old(self).state@.update(
                nn as int,
                BuildState::Unbuilt { remaining: 0 },
            ),
            forall|i: int|
                0 <= i < final(self).n() && i != nn ==> final(self).built(i) == old(self).built(i)
                    && final(self).claimed(i) == old(self).claimed(i),
    {
        let ghost ni = nn as int;
        proof {
            lemma_count_building_pos(self.state@, ni);
        }
        let ghost pre = *self;
        self.state.set(nn, BuildState::Unbuilt { remaining: 0 });
        self.building = self.building - 1;
        proof {
            lemma_count_building_update(pre.state@, ni, BuildState::Unbuilt { remaining: 0 });
            assert(pre.in_subset@[ni]);
            assert forall|i: int|
                0 <= i < self.n() implies self.built(i) == pre.built(i) by {
                if i == ni {
                }
            }
            // The failed node's count is exact: all its children are built.
            assert(unbuilt_remaining(self.state@[ni]) == row_unbuilt(
                self.plan.adj@[ni]@,
                self.state@,
            )) by {
                assert forall|k: int|
                    0 <= k < self.plan.adj@[ni]@.len() implies (
                    #[trigger] self.plan.adj@[ni]@[k]).to < self.state@.len() && self.state@[
                    self.plan.adj@[ni]@[k].to as int] is Built by {
                    assert(pre.plan.edge(ni, self.plan.adj@[ni]@[k].to as int));
                    assert(pre.built(self.plan.adj@[ni]@[k].to as int));
                    assert(self.plan.adj@[ni]@[k].to != nn);
                }
                lemma_row_unbuilt_all_built(self.plan.adj@[ni]@, self.state@);
            }
            assert forall|w: int|
                0 <= w < self.n() && self.in_subset@[w] && (#[trigger] self.state@[w]) is Unbuilt
                    && w != ni implies unbuilt_remaining(self.state@[w]) == row_unbuilt(
                self.plan.adj@[w]@,
                self.state@,
            ) by {
                assert(pre.state@[w] == self.state@[w]);
                lemma_row_unbuilt_same(pre.plan.adj@[w]@, pre.state@, self.state@);
            }
            assert forall|u: int, v: int|
                (self.built(u) || self.claimed(u)) && #[trigger] self.plan.edge(u, v) implies
                self.built(v) by {
                assert(pre.built(u) || pre.claimed(u));
                assert(pre.built(v));
                assert(v != ni);
            }
            assert forall|qi: int|
                0 <= qi < self.queue@.len() implies (#[trigger] self.queue@[qi]) < self.n()
                && self.in_subset@[self.queue@[qi] as int]
                && self.state@[self.queue@[qi] as int] is Unbuilt
                && unbuilt_remaining(self.state@[self.queue@[qi] as int]) == 0 by {
                assert(pre.queue@[qi] == self.queue@[qi]);
                assert(pre.state@[pre.queue@[qi] as int] is Unbuilt);
                assert(self.queue@[qi] != nn);
            }
            assert forall|u: int| #[trigger] self.built(u) implies self.runtime_set(u).contains(
                u,
            ) by {
                assert(pre.built(u));
                assert(self.runtime_seq(u) == pre.runtime_seq(u));
            }
            assert forall|u: int, k: int|
                self.built(u) && 0 <= k < self.plan.adj@[u]@.len() && (
                #[trigger] self.plan.adj@[u]@[k]).time == LinkTime::Runtime implies
                self.runtime_set(u).contains(self.plan.adj@[u]@[k].to as int)
                && self.runtime_set(self.plan.adj@[u]@[k].to as int).subset_of(
                self.runtime_set(u),
            ) by {
                let c = self.plan.adj@[u]@[k].to as int;
                assert(self.plan.edge(u, c));
                assert(pre.built(u));
                assert(pre.built(c));
                assert(c != ni);
                assert(self.runtime_seq(u) == pre.runtime_seq(u));
                assert(self.runtime_seq(c) == pre.runtime_seq(c));
            }
            assert forall|u: int, x: int|
                self.built(u) && #[trigger] self.runtime_set(u).contains(x) implies (x == u
                    || exists|k: int|
                    0 <= k < self.plan.adj@[u]@.len() && (#[trigger] self.plan.adj@[u]@[k]).time
                        == LinkTime::Runtime && (self.plan.adj@[u]@[k].to == x || self.runtime_set(
                        self.plan.adj@[u]@[k].to as int,
                    ).contains(x))) && self.built(x) && self.in_subset@[x] by {
                assert(pre.built(u));
                assert(self.runtime_seq(u) == pre.runtime_seq(u));
                assert(pre.runtime_set(u).contains(x));
                assert(pre.built(x) && pre.in_subset@[x]);
                assert(x != ni);
                if x != u {
                    let k = choose|k: int|
                        0 <= k < pre.plan.adj@[u]@.len() && (#[trigger] pre.plan.adj@[u]@[k]).time
                            == LinkTime::Runtime && (pre.plan.adj@[u]@[k].to == x
                            || pre.runtime_set(pre.plan.adj@[u]@[k].to as int).contains(x));
                    let c = pre.plan.adj@[u]@[k].to as int;
                    assert(pre.plan.edge(u, c));
                    assert(pre.built(c));
                    assert(c != ni);
                    assert(self.runtime_seq(c) == pre.runtime_seq(c));
                }
            }
        }
    }

    /// The run is over: nothing is queued and nothing is in flight.
    pub fn done(&self) -> (r: bool)
        ensures
            r == (self.queue@.len() == 0 && self.building == 0),
    {
        self.queue.len() == 0 && self.building == 0
    }

    /// The scheduling state of node `i`.
    pub fn state_of(&self, i: usize) -> (r: &BuildState)
        requires
            self.inv(),
            i < self.n(),
        ensures
            *r == self.state@[i as int],
    {
        &self.state[i]
    }

    /// The stored runtime closure of a built node.
    pub fn built_runtime(&self, i: usize) -> (r: &Vec<usize>)
        requires
            self.inv(),
            self.built(i as int),
        ensures
            r@ == self.runtime_seq(i as int),
    {
        match &self.state[i] {
            BuildState::Built { runtime } => runtime,
            _ => vstd::pervasive::unreached(),
        }
    }
}

impl Builder {
    /// The runtime-closure invariant only depends on the plan, the states
    /// and the subgraph, not on the queue or the counters.
    proof fn lemma_inv_runtime_frame(a: Builder, b: Builder)
        requires
            a.inv_runtime(),
            b.state == a.state,
            b.plan == a.plan,
            b.in_subset == a.in_subset,
        ensures
            b.inv_runtime(),
    {
        assert forall|u: int| #[trigger] b.built(u) implies b.runtime_set(u).contains(u) by {
            assert(a.built(u));
            assert(b.runtime_seq(u) == a.runtime_seq(u));
        }
        assert forall|u: int, k: int|
            b.built(u) && 0 <= k < b.plan.adj@[u]@.len() && (#[trigger] b.plan.adj@[u]@[k]).time
                == LinkTime::Runtime implies b.runtime_set(u).contains(b.plan.adj@[u]@[k].to as int)
            && b.runtime_set(b.plan.adj@[u]@[k].to as int).subset_of(b.runtime_set(u)) by {
            assert(a.built(u));
            let c = b.plan.adj@[u]@[k].to as int;
            assert(a.runtime_set(u).contains(c));
            assert(b.runtime_seq(u) == a.runtime_seq(u));
            assert(b.runtime_seq(c) == a.runtime_seq(c));
        }
        assert forall|u: int, x: int|
            b.built(u) && #[trigger] b.runtime_set(u).contains(x) implies (x == u || exists|k: int|
                0 <= k < b.plan.adj@[u]@.len() && (#[trigger] b.plan.adj@[u]@[k]).time
                    == LinkTime::Runtime && (b.plan.adj@[u]@[k].to == x || b.runtime_set(
                    b.plan.adj@[u]@[k].to as int,
                ).contains(x))) && b.built(x) && b.in_subset@[x] by {
            assert(a.built(u));
            assert(b.runtime_seq(u) == a.runtime_seq(u));
            assert(a.runtime_set(u).contains(x));
            assert(a.built(x) && a.in_subset@[x]);
            if x != u {
                let k = choose|k: int|
                    0 <= k < a.plan.adj@[u]@.len() && (#[trigger] a.plan.adj@[u]@[k]).time
                        == LinkTime::Runtime && (a.plan.adj@[u]@[k].to == x || a.runtime_set(
                        a.plan.adj@[u]@[k].to as int,
                    ).contains(x));
                let c = a.plan.adj@[u]@[k].to as int;
                assert(b.runtime_seq(c) == a.runtime_seq(c));
            }
        }
    }
}

proof fn lemma_row_unbuilt_all_built(row: Seq<PlanEdge>, st: Seq<BuildState>)
    requires
        forall|k: int|
            0 <= k < row.len() ==> (#[trigger] row[k]).to < st.len() && st[row[k].to as int]
                is Built,
    ensures
        row_unbuilt(row, st) == 0,
    decreases row.len(),
{
    if row.len() > 0 {
        assert(row[row.len() - 1].to < st.len());
        lemma_row_unbuilt_all_built(row.drop_last(), st);
    }
}

/// In a freshly seeded state vector nothing is `Building`.
proof fn lemma_count_building_all_unbuilt(st: Seq<BuildState>)
    requires
        forall|j: int| 0 <= j < st.len() ==> (#[trigger] st[j]) is Unbuilt,
    ensures
        count_building(st) == 0,
    decreases st.len(),
{
    if st.len() > 0 {
        lemma_count_building_all_unbuilt(st.drop_last());
    }
}

/// `row_unbuilt` only looks at `Built`-ness, which agrees between two state
/// vectors that agree on every edge target.
proof fn lemma_row_unbuilt_same(row: Seq<PlanEdge>, st1: Seq<BuildState>, st2: Seq<BuildState>)
    requires
        st1.len() == st2.len(),
        forall|k: int|
            0 <= k < row.len() ==> 0 <= (#[trigger] row[k]).to < st1.len() && ((st1[row[k].to as int]
                is Built) == (st2[row[k].to as int] is Built)),
    ensures
        row_unbuilt(row, st1) == row_unbuilt(row, st2),
    decreases row.len(),
{
    if row.len() > 0 {
        lemma_row_unbuilt_same(row.drop_last(), st1, st2);
    }
}


/// Law: a built node's runtime closure contains the node itself and is
/// therefore never empty.
pub proof fn lemma_runtime_contains_self(b: &Builder, i: int)
    requires
        b.inv(),
        b.built(i),
    ensures
        b.runtime_set(i).contains(i),
        b.runtime_set(i).finite(),
        b.runtime_set(i).len() >= 1,
{
    lemma_as_set_finite(b.runtime_seq(i));
    if b.runtime_set(i).len() == 0 {
        b.runtime_set(i).lemma_len0_is_empty();
    }
}

/// Law: across a runtime edge, the parent's runtime closure covers the
/// child and everything in the child's runtime closure.
pub proof fn lemma_runtime_edge_closure(b: &Builder, u: int, v: int)
    requires
        b.inv(),
        b.built(u),
        b.plan.labeled_edge(u, v, LinkTime::Runtime),
    ensures
        b.built(v),
        b.runtime_set(u).contains(v),
        forall|x: int| #[trigger] b.runtime_set(v).contains(x) ==> b.runtime_set(u).contains(x),
{
    let k = choose|k: int|
        0 <= k < b.plan.adj@[u]@.len() && (#[trigger] b.plan.adj@[u]@[k]).to == v
            && b.plan.adj@[u]@[k].time == LinkTime::Runtime;
    assert(b.plan.edge(u, v));
    assert(b.runtime_set(u).contains(b.plan.adj@[u]@[k].to as int));
    assert(b.runtime_set(b.plan.adj@[u]@[k].to as int).subset_of(b.runtime_set(u)));
}

/// Law: across a buildtime edge, the child and its runtime closure are part
/// of the dependency set handed to the parent's build.
pub proof fn lemma_buildtime_in_dependencies(b: &Builder, u: int, v: int)
    requires
        b.inv(),
        0 <= u < b.n(),
        b.built(v),
        b.plan.labeled_edge(u, v, LinkTime::Buildtime),
    ensures
        b.direct_closure(u, LinkTime::Buildtime).contains(v),
        forall|x: int|
            #[trigger] b.runtime_set(v).contains(x) ==> b.direct_closure(
                u,
                LinkTime::Buildtime,
            ).contains(x),
{
    let k = choose|k: int|
        0 <= k < b.plan.adj@[u]@.len() && (#[trigger] b.plan.adj@[u]@[k]).to == v
            && b.plan.adj@[u]@[k].time == LinkTime::Buildtime;
    assert(b.direct_closure(u, LinkTime::Buildtime).contains(v));
    assert forall|x: int| #[trigger] b.runtime_set(v).contains(x) implies b.direct_closure(
        u,
        LinkTime::Buildtime,
    ).contains(x) by {
        assert(0 <= k < b.plan.adj@[u]@.len() && b.plan.adj@[u]@[k].time == LinkTime::Buildtime
            && b.runtime_set(b.plan.adj@[u]@[k].to as int).contains(x));
    }
}

/// Law: a child linked only at buildtime stays out of the parent's runtime
/// closure, as long as no runtime edge of the parent carries it in.
pub proof fn lemma_buildtime_excluded(b: &Builder, u: int, v: int)
    requires
        b.inv(),
        b.built(u),
        b.plan.labeled_edge(u, v, LinkTime::Buildtime),
        !b.plan.labeled_edge(u, v, LinkTime::Runtime),
        forall|w: int|
            #[trigger] b.plan.labeled_edge(u, w, LinkTime::Runtime) ==> !b.runtime_set(
                w,
            ).contains(v),
    ensures
        !b.runtime_set(u).contains(v),
{
    assert(b.plan.edge(u, v));
    // An edge to itself would be a cycle, so the parent and child differ.
    assert(u != v) by {
        if u == v {
            assert(b.plan.edge_rel()(u, v));
            assert(!reach(b.plan.edge_rel(), v, u));
            crate::graph::lemma_reach_refl(b.plan.edge_rel(), u);
        }
    }
    if b.runtime_set(u).contains(v) {
        let k = choose|k: int|
            0 <= k < b.plan.adj@[u]@.len() && (#[trigger] b.plan.adj@[u]@[k]).time
                == LinkTime::Runtime && (b.plan.adj@[u]@[k].to == v || b.runtime_set(
                b.plan.adj@[u]@[k].to as int,
            ).contains(v));
        let w = b.plan.adj@[u]@[k].to as int;
        assert(b.plan.labeled_edge(u, w, LinkTime::Runtime));
        if b.plan.adj@[u]@[k].to == v {
            assert(b.plan.labeled_edge(u, v, LinkTime::Runtime));
        }
    }
}

/// Law: at any moment at most `concurrent` nodes are in the `Building`
/// state.
pub proof fn lemma_building_bounded(b: &Builder)
    requires
        b.inv(),
    ensures
        count_building(b.state@) <= b.concurrent,
{
}

} // verus!
