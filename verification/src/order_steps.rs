//! Why a turn of an evaluator keeps a world orderly: what each change that
//! an evaluator makes does to the order of the nodes.

use vstd::prelude::*;
use crate::alike::{alike, lemma_alike_reads, lemma_turn_cases, turn_evaluator, unheld};
use crate::dispatch::{evaluate, lemma_evaluate_is_step};
use crate::leaf::LeafNodeResult;
use crate::node::{
    Entity,
    Error,
    Evaluator,
    NodeKind,
    NodeResult,
    NodeState,
    SequenceNode,
    SequenceState,
    TimeLimitState,
};
use crate::order::{
    active_above,
    lemma_active_above_fewer,
    lemma_tidy_paths_closed,
    orderly,
    pointed,
    ready,
    tidy,
    tidy_at,
};
use crate::paths::{
    backed,
    children_inactive,
    lemma_deactivate_subtree_keeps_paths,
    lemma_sequence_touches,
};
use crate::sequence::{
    lemma_sequence_step_frame,
    sequence_advance,
    sequence_step,
    with_current,
};
use crate::tick::{takeable, turn};
use crate::time_limit::{
    deactivate_subtree,
    in_subtree,
    lemma_in_subtree_of_child,
    lemma_in_subtree_same_tree,
    lemma_time_limit_step_frame,
    time_limit_step,
    with_limit_state,
};
use crate::world::WorldView;

verus! {

/// Whether a node has an active node above it is the same in worlds that
/// are alike.
pub proof fn lemma_active_above_alike(a: WorldView, b: WorldView, n: Entity)
    requires
        alike(a, b),
    ensures
        active_above(a, n) == active_above(b, n),
    decreases n.0,
{
    lemma_alike_reads(a, b, n);
    if a.contains(n) {
        if let Some(p) = a.parent(n) {
            if p.0 < n.0 {
                lemma_alike_reads(a, b, p);
                lemma_active_above_alike(a, b, p);
            }
        }
    }
}

/// Where a child of an active node has become active, no node has got an
/// active node above it that had none.
pub proof fn lemma_active_above_after_activation(w: WorldView, c: Entity, n: Entity)
    requires
        w.wf(),
        w.contains(c),
        w.parent(c) matches Some(t) && w.is_active(t),
        active_above(w.activate(c), n),
    ensures
        active_above(w, n),
    decreases n.0,
{
    let after = w.activate(c);
    let p = w.parent(n).unwrap();
    assert(w.node_wf(c.0 as int));
    if after.is_active(p) {
        if !w.is_active(p) {
            assert(p == c);
            assert(active_above(w, c));
        }
    } else {
        lemma_active_above_after_activation(w, c, p);
    }
}

/// A world that is alike to a tidy one is tidy.
pub proof fn lemma_tidy_alike(a: WorldView, b: WorldView)
    requires
        alike(a, b),
        tidy(b),
    ensures
        tidy(a),
{
    assert forall|n: Entity| a.contains(n) implies #[trigger] tidy_at(a, n) by {
        lemma_alike_reads(a, b, n);
        assert(tidy_at(b, n));
        lemma_active_above_alike(a, b, n);
        if let Some(p) = a.parent(n) {
            lemma_alike_reads(a, b, p);
        }
        assert forall|k: int| 0 <= k < a.children(n).len() implies a.is_active(
            #[trigger] a.children(n)[k],
        ) == b.is_active(b.children(n)[k]) by {
            lemma_alike_reads(a, b, a.children(n)[k]);
        }
    }
}

/// In a tidy world the children of an inactive node below an active one are
/// inactive.
pub proof fn lemma_children_of_inactive_child(w: WorldView, t: Entity, c: Entity)
    requires
        w.wf(),
        tidy(w),
        w.is_active(t),
        w.contains(c),
        w.parent(c) == Some(t),
        !w.is_active(c),
    ensures
        children_inactive(w, c),
{
    assert(w.node_wf(c.0 as int));
    assert forall|k: int| 0 <= k < w.children(c).len() implies !w.is_active(
        #[trigger] w.children(c)[k],
    ) by {
        let m = w.children(c)[k];
        assert(tidy_at(w, m));
        if w.is_active(m) {
            assert(w.state(m).root is Some);
            assert(active_above(w, c));
            assert(active_above(w, m));
        }
    }
}

/// Every node of `after` carries what it carries in `w`, or that without the
/// active marker and the leaf result.
pub open spec fn calmed(w: WorldView, after: WorldView) -> bool {
    &&& w.same_tree(after)
    &&& forall|i: int|
        0 <= i < w.nodes.len() ==> (#[trigger] after.nodes[i]).state == w.nodes[i].state
            || after.nodes[i].state == w.nodes[i].state.deactivated()
}

/// A tidy world stays tidy where nodes are deactivated and the paths stay
/// closed.
pub proof fn lemma_tidy_calmed(w: WorldView, after: WorldView)
    requires
        tidy(w),
        calmed(w, after),
        forall|n: Entity| after.contains(n) ==> #[trigger] backed(after, n),
    ensures
        tidy(after),
{
    assert forall|x: Entity| #[trigger] after.is_active(x) implies w.is_active(x) by {
        assert(after.nodes[x.0 as int].state == w.nodes[x.0 as int].state || after.nodes[x.0 as int].state
            == w.nodes[x.0 as int].state.deactivated());
    }
    assert forall|n: Entity| after.contains(n) implies #[trigger] tidy_at(after, n) by {
        assert(tidy_at(w, n));
        assert(backed(after, n));
        assert(after.nodes[n.0 as int].state == w.nodes[n.0 as int].state || after.nodes[n.0 as int].state
            == w.nodes[n.0 as int].state.deactivated());
        assert forall|k: int| 0 <= k < after.children(n).len() && after.is_active(
            #[trigger] after.children(n)[k],
        ) implies w.is_active(w.children(n)[k]) by {}
        if active_above(after, n) {
            lemma_active_above_fewer(w, after, n);
        }
    }
}

/// A tidy world stays tidy where a node gets other data of its kind, while
/// it points at the same child as before or none of its children is active.
pub proof fn lemma_tidy_restated(w: WorldView, t: Entity, kind: NodeKind)
    requires
        tidy(w),
        w.wf(),
        w.contains(t),
        pointed(NodeState { kind, ..w.state(t) }) == pointed(w.state(t)) || children_inactive(
            w,
            t,
        ),
    ensures
        tidy(w.with_state(t, NodeState { kind, ..w.state(t) })),
{
    let after = w.with_state(t, NodeState { kind, ..w.state(t) });
    assert forall|x: Entity| after.is_active(x) == w.is_active(x) by {}
    assert forall|n: Entity| after.contains(n) implies #[trigger] tidy_at(after, n) by {
        assert(tidy_at(w, n));
        assert forall|k: int| 0 <= k < after.children(n).len() implies after.is_active(
            #[trigger] after.children(n)[k],
        ) == w.is_active(w.children(n)[k]) by {}
        if active_above(after, n) {
            lemma_active_above_fewer(w, after, n);
        }
    }
}

/// A tidy world stays tidy where an active control node activates the
/// child that it points at, while none of its children is active.
pub proof fn lemma_tidy_child_activated(w: WorldView, t: Entity, k: int)
    requires
        tidy(w),
        w.wf(),
        w.is_active(t),
        w.state(t).control is Some,
        0 <= k < w.children(t).len(),
        pointed(w.state(t)) == Some(k),
        children_inactive(w, t),
    ensures
        tidy(w.activate(w.children(t)[k])),
{
    let c = w.children(t)[k];
    let after = w.activate(c);
    assert(w.node_wf(t.0 as int));
    assert(!w.is_active(c));
    lemma_children_of_inactive_child(w, t, c);
    assert forall|n: Entity| after.contains(n) implies #[trigger] tidy_at(after, n) by {
        assert(tidy_at(w, n));
        assert(w.node_wf(n.0 as int));
        assert forall|j: int| 0 <= j < after.children(n).len() && after.is_active(
            #[trigger] after.children(n)[j],
        ) implies after.children(n)[j] == c || w.is_active(w.children(n)[j]) by {}
        if n == c {
            assert forall|j: int| 0 <= j < w.children(c).len() implies !after.is_active(
                #[trigger] after.children(c)[j],
            ) by {
                assert(w.children(c)[j].0 > c.0);
            }
        } else if n == t {
            assert forall|j: int|
                0 <= j < after.children(t).len() && after.is_active(
                    #[trigger] after.children(t)[j],
                ) implies pointed(after.state(t)) == Some(j) by {
                if j != k {
                    assert(w.children(t)[j] != c);
                }
            }
        } else {
            assert forall|j: int| 0 <= j < after.children(n).len() implies after.children(n)[j]
                != c by {}
        }
        if active_above(after, n) {
            lemma_active_above_after_activation(w, c, n);
        }
    }
}

/// A tidy world stays tidy where a node without active children is
/// deactivated.
pub proof fn lemma_tidy_deactivated(w: WorldView, c: Entity)
    requires
        w.wf(),
        tidy(w),
        w.contains(c) ==> children_inactive(w, c),
    ensures
        tidy(w.deactivate(c)),
{
    let after = w.deactivate(c);
    if w.contains(c) {
        assert forall|n: Entity| after.contains(n) implies #[trigger] backed(after, n) by {
            assert(tidy_at(w, n));
            assert(w.node_wf(n.0 as int));
            if after.is_active(n) && w.parent(n) == Some(c) {
                let k = choose|k: int| 0 <= k < w.children(c).len() && w.children(c)[k] == n;
                assert(w.children(c)[k] == n);
            }
        }
        lemma_tidy_calmed(w, after);
    }
}

/// A sequence that moves on while none of its children is active leaves a
/// tidy world tidy.
pub proof fn lemma_sequence_advance_keeps_tidy(
    w: WorldView,
    t: Entity,
    config: SequenceNode,
    next: usize,
)
    requires
        w.wf(),
        tidy(w),
        w.is_active(t),
        w.state(t).control is Some,
        children_inactive(w, t),
    ensures
        tidy(sequence_advance(w, t, config, next).0),
{
    let kids = w.children(t);
    if next < kids.len() {
        let moved = with_current(w, t, config, Some(next));
        lemma_tidy_restated(w, t, NodeKind::Sequence(config, SequenceState { current: Some(next) }));
        w.lemma_same_tree_wf(moved);
        assert forall|k: int| 0 <= k < moved.children(t).len() implies !moved.is_active(
            #[trigger] moved.children(t)[k],
        ) by {
            assert(!w.is_active(w.children(t)[k]));
        }
        lemma_tidy_child_activated(moved, t, next as int);
    } else if config.repeat && next != 0 && kids.len() > 0 {
        let moved = with_current(w, t, config, Some(0));
        lemma_tidy_restated(w, t, NodeKind::Sequence(config, SequenceState { current: Some(0) }));
        w.lemma_same_tree_wf(moved);
        assert forall|k: int| 0 <= k < moved.children(t).len() implies !moved.is_active(
            #[trigger] moved.children(t)[k],
        ) by {
            assert(!w.is_active(w.children(t)[k]));
        }
        lemma_tidy_child_activated(moved, t, 0);
    } else {
        let moved = with_current(w, t, config, None);
        lemma_tidy_restated(w, t, NodeKind::Sequence(config, SequenceState { current: None }));
        w.lemma_same_tree_wf(moved);
        assert forall|k: int| 0 <= k < moved.children(t).len() implies !moved.is_active(
            #[trigger] moved.children(t)[k],
        ) by {
            assert(!w.is_active(w.children(t)[k]));
        }
        lemma_tidy_deactivated(moved, t);
    }
}

/// Before a sequence that is ready moves on, none of its children is
/// active: the one that it stood at is inactive, or has reported `Complete`
/// and is deactivated first.
pub proof fn lemma_sequence_keeps_tidy(w: WorldView, t: Entity)
    requires
        w.wf(),
        tidy(w),
        ready(w, t),
        w.state(t).control is Some,
    ensures
        tidy(sequence_step(w, t).0),
{
    assert(tidy_at(w, t));
    assert(w.node_wf(t.0 as int));
    if let NodeKind::Sequence(config, state) = w.state(t).kind {
        match state.current {
            Some(current) => {
                if current < w.children(t).len() {
                    let child = w.children(t)[current as int];
                    assert(tidy_at(w, child));
                    match w.leaf_result(child) {
                        Some(LeafNodeResult::Complete) => {
                            let calmer = w.deactivate(child);
                            if !w.is_active(child) {
                                lemma_children_of_inactive_child(w, t, child);
                            }
                            lemma_tidy_deactivated(w, child);
                            w.lemma_same_tree_wf(calmer);
                            assert forall|k: int|
                                0 <= k < calmer.children(t).len() implies !calmer.is_active(
                                #[trigger] calmer.children(t)[k],
                            ) by {
                                if w.is_active(w.children(t)[k]) {
                                    assert(k == current);
                                }
                            }
                            lemma_sequence_advance_keeps_tidy(
                                calmer,
                                t,
                                config,
                                (current + 1) as usize,
                            );
                        },
                        Some(_) => {},
                        None => {
                            assert forall|k: int|
                                0 <= k < w.children(t).len() implies !w.is_active(
                                #[trigger] w.children(t)[k],
                            ) by {
                                if w.is_active(w.children(t)[k]) {
                                    assert(k == current);
                                }
                            }
                            lemma_sequence_advance_keeps_tidy(
                                w,
                                t,
                                config,
                                (current + 1) as usize,
                            );
                        },
                    }
                }
            },
            None => {
                lemma_sequence_advance_keeps_tidy(w, t, config, 0);
            },
        }
    }
}

/// An active time limit leaves a tidy world tidy.
pub proof fn lemma_time_limit_keeps_tidy(w: WorldView, t: Entity)
    requires
        w.wf(),
        tidy(w),
        w.is_active(t),
        w.state(t).control is Some,
    ensures
        tidy(time_limit_step(w, t).0),
{
    assert(tidy_at(w, t));
    assert(w.node_wf(t.0 as int));
    let after = time_limit_step(w, t).0;
    if let NodeKind::TimeLimit(config, state) = w.state(t).kind {
        if w.children(t).len() > 0 {
            let none = TimeLimitState { timer: None, child_activated: false };
            let cleared = with_limit_state(w, t, config, none);
            if after == deactivate_subtree(cleared, t) {
                let calmer = deactivate_subtree(w, t);
                lemma_tidy_paths_closed(w);
                lemma_deactivate_subtree_keeps_paths(w, t);
                lemma_tidy_calmed(w, calmer);
                w.lemma_same_tree_wf(calmer);
                assert forall|k: int| 0 <= k < calmer.children(t).len() implies !calmer.is_active(
                    #[trigger] calmer.children(t)[k],
                ) by {
                    lemma_in_subtree_of_child(w, t, k, w.children(t)[k]);
                }
                lemma_tidy_restated(calmer, t, NodeKind::TimeLimit(config, none));
                let restated = calmer.with_state(
                    t,
                    NodeState { kind: NodeKind::TimeLimit(config, none), ..calmer.state(t) },
                );
                assert forall|i: int| 0 <= i < after.nodes.len() implies after.nodes[i]
                    == restated.nodes[i] by {
                    lemma_in_subtree_same_tree(w, cleared, t, Entity(i as usize));
                }
                assert(after.nodes =~= restated.nodes);
            } else if after != w {
                let kind = after.state(t).kind;
                let moved = w.with_state(t, NodeState { kind, ..w.state(t) });
                lemma_tidy_restated(w, t, kind);
                if after != moved {
                    w.lemma_same_tree_wf(moved);
                    assert forall|k: int|
                        0 <= k < moved.children(t).len() implies !moved.is_active(
                        #[trigger] moved.children(t)[k],
                    ) by {
                        assert(!w.is_active(w.children(t)[k]));
                    }
                    lemma_tidy_child_activated(moved, t, 0);
                }
            }
        }
    }
}

/// The node at `n` is a root in `after` where it is one in `w`, and
/// carries the same in both unless it lies below `t`.
pub open spec fn kept(w: WorldView, after: WorldView, t: Entity, n: Entity) -> bool {
    &&& after.state(n).root == w.state(n).root
    &&& !in_subtree(w, t, n) ==> after.state(n) == w.state(n)
}

/// The two worlds hold the same trees, with the same roots, and differ in
/// nothing but what `t` and the nodes below it carry.
pub open spec fn changed_below(w: WorldView, after: WorldView, t: Entity) -> bool {
    &&& w.same_tree(after)
    &&& forall|n: Entity| w.contains(n) ==> #[trigger] kept(w, after, t, n)
}

/// The node that a turn has queued is a child of the node that had the
/// turn; it is no root, and none of its children is active.
proof fn lemma_queued_child(w: WorldView, after: WorldView, t: Entity, q: Entity)
    requires
        w.wf(),
        tidy(w),
        w.contains(t),
        ready(w, t),
        w.contains(q),
        w.parent(q) == Some(t),
        forall|n: Entity|
            w.contains(n) && n != t && w.parent(n) != Some(t) ==> after.state(n) == w.state(n),
        w.same_tree(after),
    ensures
        w.state(q).root is None,
        children_inactive(after, q),
{
    assert(w.node_wf(t.0 as int));
    assert(w.node_wf(q.0 as int));
    assert(tidy_at(w, q));
    assert(active_above(w, q));
    let k = choose|k: int| 0 <= k < w.children(t).len() && w.children(t)[k] == q;
    assert(w.children(t)[k] == q);
    if !w.is_active(q) {
        lemma_children_of_inactive_child(w, t, q);
    } else {
        assert(w.is_active(w.children(t)[k]));
    }
    assert forall|j: int| 0 <= j < after.children(q).len() implies !after.is_active(
        #[trigger] after.children(q)[j],
    ) by {
        let m = w.children(q)[j];
        assert(w.parent(m) == Some(q));
        assert(m.0 > q.0);
        assert(!w.is_active(w.children(q)[j]));
    }
}

/// What an evaluation of a ready sequence of a tidy world leaves: a tidy
/// world that differs at the node and below it only; a queued node is a
/// child of the node that is no root, active, with no active child; a node
/// that completes is inactive.
pub proof fn lemma_sequence_keeps_order(w: WorldView, t: Entity)
    requires
        w.wf(),
        tidy(w),
        w.contains(t),
        ready(w, t),
        w.state(t).control is Some,
    ensures
        tidy(sequence_step(w, t).0),
        changed_below(w, sequence_step(w, t).0, t),
        sequence_step(w, t).1 matches Ok(NodeResult::QueueNode(q)) ==> w.contains(q) && w.parent(q)
            == Some(t) && w.state(q).root is None && sequence_step(w, t).0.is_active(q)
            && children_inactive(sequence_step(w, t).0, q),
        sequence_step(w, t).1 == Ok::<NodeResult, Error>(NodeResult::Complete) ==> !sequence_step(
            w,
            t,
        ).0.is_active(t),
{
    let after = sequence_step(w, t).0;
    lemma_sequence_keeps_tidy(w, t);
    lemma_sequence_step_frame(w, t);
    assert(w.node_wf(t.0 as int));
    assert(in_subtree(w, t, t));
    assert forall|n: Entity| w.contains(n) implies #[trigger] kept(w, after, t, n) by {
        assert(w.node_wf(n.0 as int));
        lemma_sequence_touches(w, t, n);
        lemma_sequence_keeps_roots(w, t, n);
    }
    if let Ok(NodeResult::QueueNode(q)) = sequence_step(w, t).1 {
        assert forall|n: Entity|
            w.contains(n) && n != t && w.parent(n) != Some(t) implies after.state(n) == w.state(
            n,
        ) by {
            lemma_sequence_touches(w, t, n);
        }
        lemma_queued_child(w, after, t, q);
    }
}

/// A sequence touches the root marker of no node, and queues none but a
/// child that it leaves active.
proof fn lemma_sequence_keeps_roots(w: WorldView, t: Entity, n: Entity)
    requires
        w.wf(),
        w.contains(n),
    ensures
        sequence_step(w, t).0.state(n).root == w.state(n).root,
        sequence_step(w, t).1 matches Ok(NodeResult::QueueNode(q)) ==> sequence_step(
            w,
            t,
        ).0.is_active(q),
        sequence_step(w, t).1 == Ok::<NodeResult, Error>(NodeResult::Complete) ==> !sequence_step(
            w,
            t,
        ).0.is_active(t),
{
    if w.contains(t) {
        assert(w.node_wf(t.0 as int));
    }
}

/// What an evaluation of an active time limit of a tidy world leaves: a
/// tidy world that differs at the node and below it only; a queued node is a
/// child of the node that is no root, active, with no active child; a node
/// that completes is inactive.
pub proof fn lemma_time_limit_keeps_order(w: WorldView, t: Entity)
    requires
        w.wf(),
        tidy(w),
        w.contains(t),
        ready(w, t),
        w.state(t).control is Some,
    ensures
        tidy(time_limit_step(w, t).0),
        changed_below(w, time_limit_step(w, t).0, t),
        time_limit_step(w, t).1 matches Ok(NodeResult::QueueNode(q)) ==> w.contains(q)
            && w.parent(q) == Some(t) && w.state(q).root is None && time_limit_step(
            w,
            t,
        ).0.is_active(q) && children_inactive(time_limit_step(w, t).0, q),
        time_limit_step(w, t).1 == Ok::<NodeResult, Error>(NodeResult::Complete)
            ==> !time_limit_step(w, t).0.is_active(t),
{
    let after = time_limit_step(w, t).0;
    lemma_time_limit_keeps_tidy(w, t);
    lemma_time_limit_step_frame(w, t);
    lemma_time_limit_touches(w, t);
    assert(in_subtree(w, t, t));
    if let Ok(NodeResult::QueueNode(q)) = time_limit_step(w, t).1 {
        assert forall|n: Entity|
            w.contains(n) && n != t && w.parent(n) != Some(t) implies after.state(n) == w.state(
            n,
        ) by {
            assert(kept(w, after, t, n));
            assert(w.node_wf(n.0 as int));
        }
        lemma_queued_child(w, after, t, q);
    }
}

/// A time limit touches the root marker of no node, and changes nothing
/// but at itself and below. A node that it queues it leaves active, and
/// nothing else changes then but the node itself; completing, it is inactive.
proof fn lemma_time_limit_touches(w: WorldView, t: Entity)
    requires
        w.wf(),
    ensures
        forall|n: Entity| w.contains(n) ==> #[trigger] kept(w, time_limit_step(w, t).0, t, n),
        time_limit_step(w, t).1 matches Ok(NodeResult::QueueNode(q)) ==> time_limit_step(
            w,
            t,
        ).0.is_active(q) && forall|n: Entity|
            w.contains(n) && n != t && n != q ==> time_limit_step(w, t).0.state(n) == w.state(n),
        time_limit_step(w, t).1 == Ok::<NodeResult, Error>(NodeResult::Complete)
            ==> !time_limit_step(w, t).0.is_active(t),
{
    let after = time_limit_step(w, t).0;
    assert(in_subtree(w, t, t));
    if w.contains(t) {
        assert(w.node_wf(t.0 as int));
        if let NodeKind::TimeLimit(config, state) = w.state(t).kind {
            let none = TimeLimitState { timer: None, child_activated: false };
            let cleared = with_limit_state(w, t, config, none);
            assert forall|n: Entity| w.contains(n) implies #[trigger] kept(w, after, t, n) by {
                lemma_in_subtree_same_tree(w, cleared, t, n);
            }
            lemma_in_subtree_same_tree(w, cleared, t, t);
        }
    }
}

/// What a turn of an evaluator on a ready node of a tidy world leaves: a
/// tidy world that differs at the node and below it only; a queued node is
/// a child of the node that is no root, active, with no active child; a
/// node that completes is inactive.
pub proof fn lemma_step_keeps_order(evaluator: Evaluator, w: WorldView, t: Entity)
    requires
        w.wf(),
        tidy(w),
        w.contains(t),
        ready(w, t),
        w.state(t).control is Some,
    ensures
        tidy(evaluate(evaluator, w, t).0),
        changed_below(w, evaluate(evaluator, w, t).0, t),
        evaluate(evaluator, w, t).1 matches Ok(NodeResult::QueueNode(q)) ==> w.contains(q)
            && w.parent(q) == Some(t) && w.state(q).root is None && evaluate(
            evaluator,
            w,
            t,
        ).0.is_active(q) && children_inactive(evaluate(evaluator, w, t).0, q),
        evaluate(evaluator, w, t).1 == Ok::<NodeResult, Error>(NodeResult::Complete)
            ==> !evaluate(evaluator, w, t).0.is_active(t),
{
    lemma_evaluate_is_step(w, t);
    match evaluator {
        Evaluator::Sequence => lemma_sequence_keeps_order(w, t),
        Evaluator::TimeLimit => lemma_time_limit_keeps_order(w, t),
    }
}

/// What the turn of a ready control node of an orderly world leaves: an
/// orderly world that differs at the node and below it only; a queued node
/// is a child of the node that is no root, active, with no active child; a
/// node that completes is inactive.
pub proof fn lemma_turn_keeps_order(w: WorldView, t: Entity)
    requires
        w.wf(),
        orderly(w),
        w.contains(t),
        ready(w, t),
        takeable(w, t) is Some,
    ensures
        turn(w, t, takeable(w, t).unwrap()).0.wf(),
        orderly(turn(w, t, takeable(w, t).unwrap()).0),
        changed_below(w, turn(w, t, takeable(w, t).unwrap()).0, t),
        turn(w, t, takeable(w, t).unwrap()).1 matches Ok(NodeResult::QueueNode(q)) ==> w.contains(
            q,
        ) && w.parent(q) == Some(t) && w.state(q).root is None && turn(
            w,
            t,
            takeable(w, t).unwrap(),
        ).0.is_active(q) && children_inactive(turn(w, t, takeable(w, t).unwrap()).0, q),
        turn(w, t, takeable(w, t).unwrap()).1 == Ok::<NodeResult, Error>(NodeResult::Complete)
            ==> !turn(w, t, takeable(w, t).unwrap()).0.is_active(t),
{
    let system = takeable(w, t).unwrap();
    lemma_turn_cases(w, t, system);
    let after = turn(w, t, system).0;
    let outcome = turn(w, t, system).1;
    let expected = match turn_evaluator(w, t, system) {
        Some(evaluator) => evaluate(evaluator, w, t).0,
        None => w,
    };
    match turn_evaluator(w, t, system) {
        Some(evaluator) => {
            lemma_step_keeps_order(evaluator, w, t);
        },
        None => {
            assert forall|n: Entity| w.contains(n) implies #[trigger] kept(w, expected, t, n) by {}
        },
    }
    lemma_tidy_alike(after, expected);
    assert forall|n: Entity| after.contains(n) implies (#[trigger] after.state(n).control matches Some(
        slot,
    ) ==> slot.0 is Some) by {
        assert(w.state(n).control matches Some(slot) ==> slot.0 is Some);
    }
    assert forall|n: Entity| w.contains(n) implies #[trigger] kept(w, after, t, n) by {
        assert(kept(w, expected, t, n));
        lemma_alike_reads(after, expected, n);
        assert(unheld(after.nodes[n.0 as int].state) == unheld(expected.nodes[n.0 as int].state));
    }
    lemma_alike_reads(after, expected, t);
    if let Ok(NodeResult::QueueNode(q)) = outcome {
        lemma_alike_reads(after, expected, q);
        assert forall|j: int| 0 <= j < after.children(q).len() implies !after.is_active(
            #[trigger] after.children(q)[j],
        ) by {
            lemma_alike_reads(after, expected, expected.children(q)[j]);
            assert(!expected.is_active(expected.children(q)[j]));
        }
    }
}

} // verus!
