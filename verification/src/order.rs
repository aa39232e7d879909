//! Orderly worlds: the shape that the engine keeps the active part of
//! every tree in, from one tick to the next.

use vstd::prelude::*;
use crate::leaf::LeafNodeResult;
use crate::node::{Entity, NodeKind, NodeState};
use crate::order_walk::{lemma_held_at_start, lemma_walk_keeps_order};
use crate::paths::{backed, children_inactive, paths_closed};
use crate::tick::{evaluation, frontier, parents_at_start, results_reset};
use crate::time_limit::{in_subtree, lemma_in_subtree_not_before};
use crate::world::WorldView;

verus! {

/// The index of the child that a control node has activated, as its own
/// data tells it: the child that a sequence stands at, and the first child
/// of a time limit whose countdown runs and that has activated it.
pub open spec fn pointed(s: NodeState) -> Option<int> {
    match s.kind {
        NodeKind::Sequence(_, state) => match state.current {
            Some(current) => Some(current as int),
            None => None,
        },
        NodeKind::TimeLimit(_, state) => if state.timer is Some && state.child_activated {
            Some(0)
        } else {
            None
        },
        NodeKind::Plain => None,
    }
}

/// One of the nodes above `n` is active.
pub open spec fn active_above(w: WorldView, n: Entity) -> bool
    decreases n.0,
{
    if w.contains(n) {
        match w.parent(n) {
            Some(p) => p.0 < n.0 && (w.is_active(p) || active_above(w, p)),
            None => false,
        }
    } else {
        false
    }
}

/// An active node without an evaluator slot is a leaf at work: it has a
/// leaf result, and none of its children is active.
pub open spec fn leaf_like(w: WorldView, n: Entity) -> bool {
    w.is_active(n) && w.state(n).control is None ==> w.state(n).result is Some
        && children_inactive(w, n)
}

/// An active node has no active child but the one that it points at.
pub open spec fn focused(w: WorldView, n: Entity) -> bool {
    w.is_active(n) ==> forall|k: int|
        0 <= k < w.children(n).len() && w.is_active(#[trigger] w.children(n)[k]) ==> pointed(
            w.state(n),
        ) == Some(k)
}

/// The root of a tree has no active node above it.
pub open spec fn unrooted(w: WorldView, n: Entity) -> bool {
    w.state(n).root is Some ==> !active_above(w, n)
}

/// The node at `n` is in order.
pub open spec fn tidy_at(w: WorldView, n: Entity) -> bool {
    &&& backed(w, n)
    &&& leaf_like(w, n)
    &&& focused(w, n)
    &&& unrooted(w, n)
}

/// Every node is in order: the active nodes of each tree form one path from
/// its root down, which ends in a leaf at work or in a control node.
pub open spec fn tidy(w: WorldView) -> bool {
    forall|n: Entity| w.contains(n) ==> #[trigger] tidy_at(w, n)
}

/// No evaluator slot is empty.
pub open spec fn slots_full(w: WorldView) -> bool {
    forall|n: Entity|
        w.contains(n) ==> (#[trigger] w.state(n).control matches Some(slot) ==> slot.0 is Some)
}

/// The world is orderly: every node is in order, and no evaluator is out of
/// its slot.
pub open spec fn orderly(w: WorldView) -> bool {
    tidy(w) && slots_full(w)
}

/// Below an active node, every node has an active node above it.
pub proof fn lemma_active_above_below(w: WorldView, a: Entity, n: Entity)
    requires
        in_subtree(w, a, n),
        a != n,
        w.is_active(a),
    ensures
        active_above(w, n),
    decreases n.0,
{
    let p = w.parent(n).unwrap();
    if p != a {
        lemma_active_above_below(w, a, p);
    }
}

/// Where no node has become active, no node has got an active node above
/// it.
pub proof fn lemma_active_above_fewer(w: WorldView, after: WorldView, n: Entity)
    requires
        w.same_tree(after),
        forall|x: Entity| #[trigger] after.is_active(x) ==> w.is_active(x),
        active_above(after, n),
    ensures
        active_above(w, n),
    decreases n.0,
{
    let p = after.parent(n).unwrap();
    if !after.is_active(p) {
        lemma_active_above_fewer(w, after, p);
    }
}

/// The node at `x` is ready for its turn: it is active, and none of its
/// children that are active carries an evaluator slot.
pub open spec fn ready(w: WorldView, x: Entity) -> bool {
    &&& w.is_active(x)
    &&& forall|k: int|
        0 <= k < w.children(x).len() && w.is_active(#[trigger] w.children(x)[k])
            ==> w.state(w.children(x)[k]).control is None
}

/// A tidy world is one whose paths are closed.
pub proof fn lemma_tidy_paths_closed(w: WorldView)
    requires
        tidy(w),
    ensures
        paths_closed(w),
{
    assert forall|n: Entity| w.contains(n) implies #[trigger] backed(w, n) by {
        assert(tidy_at(w, n));
    }
}

/// An evaluation keeps an orderly world orderly, however it ends: after
/// it, as before it, the active nodes of each tree form one path from the
/// root down, and every evaluator is in its slot.
pub proof fn lemma_evaluation_keeps_order(w: WorldView, steps: nat)
    requires
        w.wf(),
        orderly(w),
    ensures
        orderly(evaluation(w, steps).0),
        paths_closed(evaluation(w, steps).0),
{
    lemma_held_at_start(w);
    lemma_walk_keeps_order(w, frontier(w, w.nodes.len()), parents_at_start(w), steps);
    lemma_tidy_paths_closed(evaluation(w, steps).0);
}

/// An orderly world stays orderly where nodes get other leaf results,
/// none gains or loses one, and nothing else changes.
pub proof fn lemma_results_keep_order(w: WorldView, after: WorldView)
    requires
        orderly(w),
        w.same_tree(after),
        forall|i: int|
            0 <= i < w.nodes.len() ==> (#[trigger] after.nodes[i]).state == (NodeState {
                result: after.nodes[i].state.result,
                ..w.nodes[i].state
            }) && (after.nodes[i].state.result is Some <==> w.nodes[i].state.result is Some),
    ensures
        orderly(after),
{
    assert forall|x: Entity| #[trigger] after.is_active(x) implies w.is_active(x) by {
        assert(after.nodes[x.0 as int].state.active == w.nodes[x.0 as int].state.active);
    }
    assert forall|n: Entity| after.contains(n) implies #[trigger] tidy_at(after, n) by {
        assert(tidy_at(w, n));
        assert(after.nodes[n.0 as int].state.active == w.nodes[n.0 as int].state.active);
        if let Some(p) = w.parent(n) {
            if w.contains(p) {
                assert(after.nodes[p.0 as int].state.active == w.nodes[p.0 as int].state.active);
            }
        }
        assert forall|k: int| 0 <= k < after.children(n).len() && after.is_active(
            #[trigger] after.children(n)[k],
        ) implies w.is_active(w.children(n)[k]) by {}
        if active_above(after, n) {
            lemma_active_above_fewer(w, after, n);
        }
    }
    assert forall|n: Entity| after.contains(n) implies (#[trigger] after.state(n).control matches Some(
        slot,
    ) ==> slot.0 is Some) by {
        assert(w.state(n).control matches Some(slot) ==> slot.0 is Some);
        assert(after.nodes[n.0 as int].state.control == w.nodes[n.0 as int].state.control);
    }
}

/// An orderly world stays orderly where nothing changes but the registry
/// and the frame time.
pub proof fn lemma_same_nodes_keep_order(w: WorldView, after: WorldView)
    requires
        orderly(w),
        after.nodes == w.nodes,
    ensures
        orderly(after),
{
    lemma_results_keep_order(w, after);
}

/// Clearing the leaf results at the start of a frame keeps an orderly
/// world orderly.
pub proof fn lemma_results_reset_keeps_order(w: WorldView)
    requires
        orderly(w),
    ensures
        orderly(results_reset(w)),
{
    lemma_results_keep_order(w, results_reset(w));
}

/// The report of a leaf keeps an orderly world orderly.
pub proof fn lemma_report_keeps_order(w: WorldView, e: Entity, result: LeafNodeResult)
    requires
        orderly(w),
        w.leaf_result(e) is Some,
    ensures
        orderly(w.with_state(e, NodeState { result: Some(result), ..w.state(e) })),
{
    lemma_results_keep_order(w, w.with_state(e, NodeState { result: Some(result), ..w.state(e) }));
}

/// A world without nodes is orderly.
pub proof fn lemma_empty_world_orderly(w: WorldView)
    requires
        w.nodes.len() == 0,
    ensures
        orderly(w),
{
}

/// What a spawned node may carry for the world to stay orderly: a full
/// evaluator slot or none; the active marker only as the root of a tree; and
/// the root marker only where no node above it is active.
pub open spec fn spawns_in_order(w: WorldView, parent: Option<Entity>, state: NodeState) -> bool {
    &&& state.control matches Some(slot) ==> slot.0 is Some
    &&& state.active ==> state.root is Some
    &&& state.root is Some ==> (parent matches Some(p) ==> !w.is_active(p) && !active_above(w, p))
}

/// Spawning a node leaves every other node with the same nodes above it.
proof fn lemma_active_above_spawned(w: WorldView, parent: Option<Entity>, state: NodeState, n: Entity)
    requires
        w.wf(),
        w.nodes.len() < usize::MAX,
        parent matches Some(p) ==> w.contains(p),
        w.contains(n),
    ensures
        active_above(w.spawned(parent, state), n) == active_above(w, n),
    decreases n.0,
{
    assert(w.node_wf(n.0 as int));
    if let Some(p) = w.parent(n) {
        lemma_active_above_spawned(w, parent, state, p);
    }
}

/// An orderly world stays orderly where a node is spawned that carries
/// what a spawned node may carry.
pub proof fn lemma_spawned_keeps_order(w: WorldView, parent: Option<Entity>, state: NodeState)
    requires
        w.wf(),
        orderly(w),
        w.nodes.len() < usize::MAX,
        parent matches Some(p) ==> w.contains(p),
        spawns_in_order(w, parent, state),
    ensures
        orderly(w.spawned(parent, state)),
{
    let after = w.spawned(parent, state);
    let id = Entity(w.nodes.len() as usize);
    assert forall|n: Entity| after.contains(n) implies #[trigger] tidy_at(after, n) by {
        if n == id {
            assert(after.children(id) =~= Seq::<Entity>::empty());
            if let Some(p) = parent {
                lemma_active_above_spawned(w, parent, state, p);
            }
        } else {
            assert(tidy_at(w, n));
            assert(w.node_wf(n.0 as int));
            lemma_active_above_spawned(w, parent, state, n);
            assert(after.state(n) == w.state(n));
            if w.is_active(n) {
                assert(parent != Some(n) || !after.is_active(id));
                assert forall|k: int|
                    0 <= k < after.children(n).len() && after.is_active(
                        #[trigger] after.children(n)[k],
                    ) implies k < w.children(n).len() && w.is_active(w.children(n)[k]) by {
                    if k < w.children(n).len() {
                        assert(after.children(n)[k] == w.children(n)[k]);
                    }
                }
            }
        }
    }
    assert forall|n: Entity| after.contains(n) implies (#[trigger] after.state(n).control matches Some(
        slot,
    ) ==> slot.0 is Some) by {
        if n != id {
            assert(w.state(n).control matches Some(slot) ==> slot.0 is Some);
            assert(after.state(n) == w.state(n));
        }
    }
}

/// Where a node has become active, a node has got an active node above it
/// only where it had one or lies below that node.
proof fn lemma_active_above_after_start(w: WorldView, e: Entity, n: Entity)
    requires
        w.contains(e),
        active_above(w.activate(e), n),
    ensures
        active_above(w, n) || (n != e && in_subtree(w, e, n)),
    decreases n.0,
{
    let after = w.activate(e);
    let p = w.parent(n).unwrap();
    assert(in_subtree(w, e, e));
    if !after.is_active(p) {
        lemma_active_above_after_start(w, e, p);
        if !active_above(w, p) {
            lemma_in_subtree_not_before(w, e, p);
            assert(in_subtree(w, e, n));
        }
    } else if !w.is_active(p) {
        assert(p == e);
        assert(in_subtree(w, e, n));
    }
}

/// The node at `e` can start a tree: it is inactive, has no active node
/// above it and no root of another tree below it, and is a root or has no
/// parent.
pub open spec fn starts_in_order(w: WorldView, e: Entity) -> bool {
    &&& w.contains(e)
    &&& !w.is_active(e)
    &&& !active_above(w, e)
    &&& w.state(e).root is Some || w.parent(e) is None
    &&& forall|n: Entity| n != e && #[trigger] in_subtree(w, e, n) ==> w.state(n).root is None
}

/// An orderly world stays orderly where a tree is started by activating
/// its top node.
pub proof fn lemma_started_keeps_order(w: WorldView, e: Entity)
    requires
        w.wf(),
        orderly(w),
        starts_in_order(w, e),
    ensures
        orderly(w.activate(e)),
{
    let after = w.activate(e);
    assert(w.node_wf(e.0 as int));
    assert(in_subtree(w, e, e));
    assert forall|k: int| 0 <= k < w.children(e).len() implies !w.is_active(
        #[trigger] w.children(e)[k],
    ) by {
        let c = w.children(e)[k];
        assert(tidy_at(w, c));
        assert(in_subtree(w, e, c));
    }
    assert forall|n: Entity| after.contains(n) implies #[trigger] tidy_at(after, n) by {
        assert(tidy_at(w, n));
        assert(w.node_wf(n.0 as int));
        assert forall|k: int|
            0 <= k < after.children(n).len() && after.is_active(
                #[trigger] after.children(n)[k],
            ) implies after.children(n)[k] == e || w.is_active(w.children(n)[k]) by {}
        if n != e {
            if let Some(p) = w.parent(n) {
                if p == e {
                    assert(in_subtree(w, e, n));
                }
            }
            assert forall|k: int|
                0 <= k < w.children(n).len() && #[trigger] w.children(n)[k] == e implies !w.is_active(
                n,
            ) by {
                assert(w.parent(e) == Some(n));
                assert(active_above(w, e) || !w.is_active(n));
            }
        }
        if active_above(after, n) {
            lemma_active_above_after_start(w, e, n);
        }
    }
    assert forall|n: Entity| after.contains(n) implies (#[trigger] after.state(n).control matches Some(
        slot,
    ) ==> slot.0 is Some) by {
        assert(w.state(n).control matches Some(slot) ==> slot.0 is Some);
    }
}

} // verus!
