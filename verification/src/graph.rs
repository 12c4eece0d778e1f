//! Reachability and acyclicity for directed edge relations.
//!
//! A graph is abstracted as a relation `spec_fn(int, int) -> bool` on node
//! indices.  Reachability is defined through closed sets, which keeps every
//! proof in this module free of induction over paths: a node `b` is reachable
//! from `a` when `b` belongs to every successor-closed set containing `a`.

use vstd::prelude::*;

verus! {

/// `s` is closed under the edge relation `r`: following any edge from a
/// member of `s` stays inside `s`.
pub open spec fn closed_under(r: spec_fn(int, int) -> bool, s: Set<int>) -> bool {
    forall|x: int, y: int| s.contains(x) && #[trigger] r(x, y) ==> s.contains(y)
}

/// `b` is reachable from `a` by following zero or more edges of `r`.
pub open spec fn reach(r: spec_fn(int, int) -> bool, a: int, b: int) -> bool {
    forall|s: Set<int>| #[trigger] closed_under(r, s) && s.contains(a) ==> s.contains(b)
}

/// `r` has no cycle: no edge closes a loop back to its own source.
pub open spec fn acyclic(r: spec_fn(int, int) -> bool) -> bool {
    forall|u: int, v: int| #[trigger] r(u, v) ==> !reach(r, v, u)
}

/// The relation `r` with one extra edge from `u` to `v`.
pub open spec fn with_edge(r: spec_fn(int, int) -> bool, u: int, v: int) -> spec_fn(
    int,
    int,
) -> bool {
    |a: int, b: int| r(a, b) || (a == u && b == v)
}

/// Reachability is reflexive.
pub proof fn lemma_reach_refl(r: spec_fn(int, int) -> bool, a: int)
    ensures
        reach(r, a, a),
{
}

/// Reachability extends along a single edge.
pub proof fn lemma_reach_step(r: spec_fn(int, int) -> bool, a: int, b: int, c: int)
    requires
        reach(r, a, b),
        r(b, c),
    ensures
        reach(r, a, c),
{
    assert forall|s: Set<int>| closed_under(r, s) && s.contains(a) implies s.contains(c) by {
        assert(s.contains(b));
    }
}

/// Reachability is transitive.
pub proof fn lemma_reach_trans(r: spec_fn(int, int) -> bool, a: int, b: int, c: int)
    requires
        reach(r, a, b),
        reach(r, b, c),
    ensures
        reach(r, a, c),
{
    assert forall|s: Set<int>| closed_under(r, s) && s.contains(a) implies s.contains(c) by {
        assert(s.contains(b));
    }
}

/// Reachability only depends on the pointwise behaviour of the relation.
pub proof fn lemma_reach_ext(
    r1: spec_fn(int, int) -> bool,
    r2: spec_fn(int, int) -> bool,
    a: int,
    b: int,
)
    requires
        forall|x: int, y: int| #![trigger r1(x, y)] #![trigger r2(x, y)] r1(x, y) == r2(x, y),
        reach(r1, a, b),
    ensures
        reach(r2, a, b),
{
    assert forall|s: Set<int>| closed_under(r2, s) && s.contains(a) implies s.contains(b) by {
        assert(closed_under(r1, s)) by {
            assert forall|x: int, y: int| s.contains(x) && #[trigger] r1(x, y) implies s.contains(
                y,
            ) by {
                assert(r2(x, y));
            }
        }
    }
}

/// Acyclicity only depends on the pointwise behaviour of the relation.
pub proof fn lemma_acyclic_ext(r1: spec_fn(int, int) -> bool, r2: spec_fn(int, int) -> bool)
    requires
        forall|x: int, y: int| #![trigger r1(x, y)] #![trigger r2(x, y)] r1(x, y) == r2(x, y),
        acyclic(r1),
    ensures
        acyclic(r2),
{
    assert forall|u: int, v: int| #[trigger] r2(u, v) implies !reach(r2, v, u) by {
        assert(r1(u, v));
        assert(!reach(r1, v, u));
        if reach(r2, v, u) {
            lemma_reach_ext(r2, r1, v, u);
        }
    }
}

/// A larger relation reaches at least as much.
pub proof fn lemma_reach_mono(
    r1: spec_fn(int, int) -> bool,
    r2: spec_fn(int, int) -> bool,
    a: int,
    b: int,
)
    requires
        forall|x: int, y: int| #[trigger] r1(x, y) ==> #[trigger] r2(x, y),
        reach(r1, a, b),
    ensures
        reach(r2, a, b),
{
    assert forall|s: Set<int>| closed_under(r2, s) && s.contains(a) implies s.contains(b) by {
        assert(closed_under(r1, s)) by {
            assert forall|x: int, y: int| s.contains(x) && #[trigger] r1(x, y) implies s.contains(
                y,
            ) by {
                assert(r2(x, y));
            }
        }
    }
}

/// After adding an edge from `u` to `v`, nothing reaches back from `v` to
/// `u`, provided nothing did before.
proof fn lemma_no_reach_back(r: spec_fn(int, int) -> bool, u: int, v: int)
    requires
        !reach(r, v, u),
    ensures
        !reach(with_edge(r, u, v), v, u),
{
    let rr = with_edge(r, u, v);
    // Witness: everything the old relation reaches from `v`.  It contains
    // `v`, excludes `u`, and is closed under the extended relation.
    let s = Set::new(|x: int| reach(r, v, x));
    assert(closed_under(rr, s)) by {
        assert forall|x: int, y: int| s.contains(x) && #[trigger] rr(x, y) implies s.contains(
            y,
        ) by {
            if r(x, y) {
                lemma_reach_step(r, v, x, y);
            } else {
                // The new edge leaves from `u`, which is not in `s`.
                assert(x == u && y == v);
                assert(reach(r, v, u));
            }
        }
    }
    assert(s.contains(v)) by {
        lemma_reach_refl(r, v);
    }
    assert(!s.contains(u));
    if reach(rr, v, u) {
        assert(s.contains(u));
    }
}

/// Adding an edge whose target does not reach back to its source keeps the
/// relation acyclic.
pub proof fn lemma_add_edge_acyclic(r: spec_fn(int, int) -> bool, u: int, v: int)
    requires
        acyclic(r),
        !reach(r, v, u),
    ensures
        acyclic(with_edge(r, u, v)),
{
    let rr = with_edge(r, u, v);
    lemma_no_reach_back(r, u, v);
    assert forall|a: int, b: int| #[trigger] rr(a, b) implies !reach(rr, b, a) by {
        if a == u && b == v && !r(a, b) {
            assert(!reach(rr, v, u));
        } else {
            assert(r(a, b));
            assert(!reach(r, b, a));
            // Witness: everything the old relation reaches from `b`, plus,
            // once the old relation reaches `u` from `b`, everything the old
            // relation reaches from `v`.
            let w = Set::new(
                |x: int| reach(r, b, x) || (reach(r, b, u) && reach(r, v, x)),
            );
            assert(closed_under(rr, w)) by {
                assert forall|x: int, y: int| w.contains(x) && #[trigger] rr(x, y) implies w
                    .contains(y) by {
                    if r(x, y) {
                        if reach(r, b, x) {
                            lemma_reach_step(r, b, x, y);
                        } else {
                            lemma_reach_step(r, v, x, y);
                        }
                    } else {
                        assert(x == u && y == v);
                        if reach(r, b, x) {
                            assert(reach(r, b, u));
                        }
                        lemma_reach_refl(r, v);
                    }
                }
            }
            assert(w.contains(b)) by {
                lemma_reach_refl(r, b);
            }
            assert(!w.contains(a)) by {
                if reach(r, b, a) {
                    assert(false);
                }
                if reach(r, b, u) && reach(r, v, a) {
                    lemma_reach_step(r, v, a, b);
                    lemma_reach_trans(r, v, b, u);
                    assert(false);
                }
            }
            if reach(rr, b, a) {
                assert(w.contains(a));
            }
        }
    }
}

/// Adding an edge whose target already reaches its source creates a cycle.
pub proof fn lemma_add_edge_cycle(r: spec_fn(int, int) -> bool, u: int, v: int)
    requires
        reach(r, v, u),
    ensures
        !acyclic(with_edge(r, u, v)),
{
    let rr = with_edge(r, u, v);
    assert(rr(u, v));
    assert forall|x: int, y: int| #[trigger] r(x, y) implies rr(x, y) by {}
    lemma_reach_mono(r, rr, v, u);
}

} // verus!
