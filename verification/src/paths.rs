//! The active path: a node that is active has an active parent, up to the
//! root of its tree.

use vstd::prelude::*;
use crate::leaf::LeafNodeResult;
use crate::node::{Entity, Error, NodeKind, NodeResult, TimeLimitState};
use crate::sequence::sequence_step;
use crate::time_limit::{
    deactivate_subtree,
    in_subtree,
    lemma_in_subtree_same_tree,
    time_limit_step,
    with_limit_state,
};
use crate::world::{World, WorldView};

verus! {

/// The active marker of `n` is backed from above: `n` is inactive, is the
/// root of a tree, has no parent, or has an active parent.
pub open spec fn backed(w: WorldView, n: Entity) -> bool {
    w.is_active(n) && w.state(n).root is None ==> (w.parent(n) matches Some(p) ==> w.is_active(p))
}

/// Every active node is backed from above: whoever is active, all above it
/// up to the root of its tree are active too.
pub open spec fn paths_closed(w: WorldView) -> bool {
    forall|n: Entity| w.contains(n) ==> #[trigger] backed(w, n)
}

/// None of the children of `e` is active.
pub open spec fn children_inactive(w: WorldView, e: Entity) -> bool {
    forall|k: int| 0 <= k < w.children(e).len() ==> !w.is_active(#[trigger] w.children(e)[k])
}

/// The children of the sequence at `e` are in the state in which a sequence
/// expects to find them: none is active but the one that it stands at, that
/// one has a leaf result, and nothing below it is active.
pub open spec fn sequence_children_orderly(w: WorldView, e: Entity) -> bool {
    forall|k: int|
        0 <= k < w.children(e).len() && w.is_active(#[trigger] w.children(e)[k]) ==> {
            &&& w.state(e).kind matches NodeKind::Sequence(_, state) && state.current == Some(
                k as usize,
            )
            &&& w.leaf_result(w.children(e)[k]) is Some
            &&& children_inactive(w, w.children(e)[k])
        }
}

/// Activating a child of an active node keeps the paths closed.
pub proof fn lemma_activate_child_keeps_paths(w: WorldView, e: Entity, k: int)
    requires
        w.wf(),
        paths_closed(w),
        w.is_active(e),
        0 <= k < w.children(e).len(),
    ensures
        paths_closed(w.activate(w.children(e)[k])),
{
    let c = w.children(e)[k];
    let after = w.activate(c);
    assert(w.node_wf(e.0 as int));
    assert forall|n: Entity| after.contains(n) implies #[trigger] backed(after, n) by {
        assert(backed(w, n));
    }
}

/// Deactivating a node with all below it keeps the paths closed.
pub proof fn lemma_deactivate_subtree_keeps_paths(w: WorldView, top: Entity)
    requires
        w.wf(),
        paths_closed(w),
    ensures
        paths_closed(deactivate_subtree(w, top)),
{
    let after = deactivate_subtree(w, top);
    assert forall|n: Entity| after.contains(n) implies #[trigger] backed(after, n) by {
        assert(backed(w, n));
        assert(w.node_wf(n.0 as int));
        if after.is_active(n) && after.state(n).root is None {
            if let Some(p) = w.parent(n) {
                assert(!in_subtree(w, top, n));
                assert(!in_subtree(w, top, p));
            }
        }
    }
}

/// An evaluation of an active time limit keeps the paths closed.
pub proof fn lemma_time_limit_keeps_paths(w: WorldView, e: Entity)
    requires
        w.wf(),
        paths_closed(w),
        w.is_active(e),
    ensures
        paths_closed(time_limit_step(w, e).0),
{
    let after = time_limit_step(w, e).0;
    if let NodeKind::TimeLimit(config, state) = w.state(e).kind {
        if w.children(e).len() > 0 {
            assert(w.node_wf(e.0 as int));
            assert forall|n: Entity| after.contains(n) implies #[trigger] backed(after, n) by {
                assert(backed(w, n));
                assert(w.node_wf(n.0 as int));
                if after.is_active(n) && after.state(n).root is None {
                    if let Some(p) = w.parent(n) {
                        if time_limit_step(w, e).1 == Ok::<NodeResult, Error>(
                            NodeResult::Complete,
                        ) {
                            let cleared = with_limit_state(
                                w,
                                e,
                                config,
                                TimeLimitState { timer: None, child_activated: false },
                            );
                            lemma_in_subtree_same_tree(w, cleared, e, n);
                            lemma_in_subtree_same_tree(w, cleared, e, p);
                            assert(!in_subtree(w, e, n));
                            assert(!in_subtree(w, e, p));
                        }
                    }
                }
            }
        }
    }
}

/// An evaluation of an active sequence keeps the paths closed, where it
/// finds its children as it expects them.
pub proof fn lemma_sequence_keeps_paths(w: WorldView, e: Entity)
    requires
        w.wf(),
        paths_closed(w),
        w.is_active(e),
        sequence_children_orderly(w, e),
    ensures
        paths_closed(sequence_step(w, e).0),
{
    let after = sequence_step(w, e).0;
    assert(w.node_wf(e.0 as int));
    if w.state(e).kind is Sequence {
        assert forall|n: Entity| after.contains(n) implies #[trigger] backed(after, n) by {
            assert(backed(w, n));
            assert(w.node_wf(n.0 as int));
            if after.is_active(n) && after.state(n).root is None {
                if let Some(p) = w.parent(n) {
                    lemma_sequence_touches(w, e, n);
                    lemma_sequence_touches(w, e, p);
                    if p == e {
                        let k = choose|k: int|
                            0 <= k < w.children(e).len() && w.children(e)[k] == n;
                        assert(w.children(e)[k] == n);
                    } else if w.parent(p) == Some(e) {
                        assert(w.node_wf(p.0 as int));
                        assert(w.children(e).contains(p));
                        let k = choose|k: int|
                            0 <= k < w.children(e).len() && w.children(e)[k] == p;
                        assert(w.children(e)[k] == p);
                        let j = choose|j: int|
                            0 <= j < w.children(p).len() && w.children(p)[j] == n;
                        assert(w.children(p)[j] == n);
                    }
                }
            }
        }
    }
}

/// An evaluation of a sequence changes the active marker of no node but the
/// sequence and its children, activates none but a child, and deactivates a
/// child only where it is the one that the sequence stood at and has
/// reported `Complete`.
pub proof fn lemma_sequence_touches(w: WorldView, e: Entity, n: Entity)
    requires
        w.wf(),
        w.contains(n),
    ensures
        n != e && w.parent(n) != Some(e) ==> sequence_step(w, e).0.state(n) == w.state(n),
        w.parent(n) == Some(e) && sequence_step(w, e).0.is_active(n) != w.is_active(n) ==> w.contains(
            e,
        ),
        n != e && w.is_active(n) && !sequence_step(w, e).0.is_active(n) ==> w.leaf_result(n)
            == Some(LeafNodeResult::Complete) && (w.state(e).kind matches NodeKind::Sequence(
            _,
            state,
        ) && state.current matches Some(current) && current < w.children(e).len()
            && w.children(e)[current as int] == n),
        n == e && sequence_step(w, e).0.is_active(e) != w.is_active(e) ==> w.is_active(e)
            && sequence_step(w, e).1 == Ok::<NodeResult, Error>(NodeResult::Complete),
{
    if w.contains(e) {
        assert(w.node_wf(e.0 as int));
    }
}

/// Whether every active node of the world is backed from above.
pub fn all_paths_closed(world: &World) -> (r: bool)
    ensures
        r == paths_closed(world@),
{
    let count = world.len();
    let mut i: usize = 0;
    while i < count
        invariant
            count == world@.nodes.len(),
            i <= count,
            forall|n: Entity| n.0 < i ==> #[trigger] backed(world@, n),
        decreases count - i,
    {
        let id = Entity(i);
        if let Some(state) = world.state(id) {
            if state.active && state.root.is_none() {
                if let Some(parent) = world.parent(id) {
                    if !world.is_active(parent) {
                        assert(!backed(world@, id));
                        return false;
                    }
                }
            }
        }
        i += 1;
    }
    true
}

} // verus!
