//! The time limit: a control node that runs one child until a deadline.

use vstd::prelude::*;
use crate::leaf::LeafNodeResult;
use crate::node::{
    Countdown,
    Entity,
    Error,
    NodeKind,
    NodeResult,
    NodeState,
    TimeLimitNode,
    TimeLimitState,
};
use crate::time::{countdown_tick, saturating_sum, tick_once, TimeSpan};
use crate::world::{NodeView, World, WorldView};

verus! {

/// `n` is `top` or lies below it.
pub open spec fn in_subtree(w: WorldView, top: Entity, n: Entity) -> bool
    decreases n.0,
{
    if n == top {
        true
    } else if w.contains(n) {
        match w.parent(n) {
            Some(p) => p.0 < n.0 && in_subtree(w, top, p),
            None => false,
        }
    } else {
        false
    }
}

/// `n` is `top` or lies in the subtree of one of the first `k` children of
/// `top`.
pub open spec fn in_first_subtrees(w: WorldView, top: Entity, k: int, n: Entity) -> bool {
    n == top || exists|j: int|
        0 <= j < k && j < w.children(top).len() && in_subtree(w, #[trigger] w.children(top)[j], n)
}

/// The world once the chosen nodes are inactive.
pub open spec fn deactivate_where(w: WorldView, chosen: spec_fn(Entity) -> bool) -> WorldView {
    WorldView {
        nodes: Seq::new(
            w.nodes.len(),
            |i: int|
                if chosen(Entity(i as usize)) {
                    NodeView { state: w.nodes[i].state.deactivated(), ..w.nodes[i] }
                } else {
                    w.nodes[i]
                },
        ),
        ..w
    }
}

/// The world once `top` and every node below it are inactive.
pub open spec fn deactivate_subtree(w: WorldView, top: Entity) -> WorldView {
    deactivate_where(w, |n: Entity| in_subtree(w, top, n))
}

/// Which nodes lie below which depends on the trees alone.
pub proof fn lemma_in_subtree_same_tree(a: WorldView, b: WorldView, top: Entity, n: Entity)
    requires
        a.same_tree(b),
    ensures
        in_subtree(a, top, n) == in_subtree(b, top, n),
    decreases n.0,
{
    if n != top && a.contains(n) {
        if let Some(p) = a.parent(n) {
            if p.0 < n.0 {
                lemma_in_subtree_same_tree(a, b, top, p);
            }
        }
    }
}

/// What lies below `top` does not stand before it.
pub proof fn lemma_in_subtree_not_before(w: WorldView, top: Entity, n: Entity)
    requires
        in_subtree(w, top, n),
    ensures
        top.0 <= n.0,
    decreases n.0,
{
    if n != top {
        lemma_in_subtree_not_before(w, top, w.parent(n).unwrap());
    }
}

/// What lies below a child of `top` lies below `top`.
pub proof fn lemma_in_subtree_of_child(w: WorldView, top: Entity, j: int, n: Entity)
    requires
        w.wf(),
        w.contains(top),
        0 <= j < w.children(top).len(),
        in_subtree(w, w.children(top)[j], n),
    ensures
        in_subtree(w, top, n),
        top.0 < n.0,
        w.contains(n),
    decreases n.0,
{
    let c = w.children(top)[j];
    assert(w.node_wf(top.0 as int));
    assert(in_subtree(w, top, top));
    if n == c {
    } else {
        let p = w.parent(n).unwrap();
        lemma_in_subtree_of_child(w, top, j, p);
    }
}

/// What lies below `top` is `top` or lies below one of its children.
pub proof fn lemma_in_subtree_split(w: WorldView, top: Entity, n: Entity)
    requires
        w.wf(),
        w.contains(top),
        in_subtree(w, top, n),
    ensures
        in_first_subtrees(w, top, w.children(top).len() as int, n),
    decreases n.0,
{
    if n != top {
        let p = w.parent(n).unwrap();
        assert(w.node_wf(n.0 as int));
        if p == top {
            let kids = w.children(top);
            let j = choose|j: int| 0 <= j < kids.len() && kids[j] == n;
            assert(in_subtree(w, kids[j], n));
        } else {
            lemma_in_subtree_split(w, top, p);
            let j = choose|j: int|
                0 <= j < w.children(top).len() && in_subtree(w, #[trigger] w.children(top)[j], p);
            assert(in_subtree(w, w.children(top)[j], n));
        }
    }
}

/// Deactivating leaves the trees, the registry and the frame time as they
/// are, and touches neither an evaluator slot nor the marker of a root.
pub proof fn lemma_deactivate_where_frame(w: WorldView, chosen: spec_fn(Entity) -> bool)
    requires
        w.wf(),
    ensures
        w.same_tree(deactivate_where(w, chosen)),
        deactivate_where(w, chosen).wf(),
        forall|x: Entity|
            w.contains(x) ==> (#[trigger] deactivate_where(w, chosen).state(x)).control
                == w.state(x).control && deactivate_where(w, chosen).state(x).root == w.state(
                x,
            ).root,
{
    w.lemma_same_tree_wf(deactivate_where(w, chosen));
}

/// Takes the active marker from `entity` and from every node below it.
pub fn remove_active_node(world: &mut World, entity: Entity)
    requires
        old(world)@.wf(),
    ensures
        final(world)@.wf(),
        final(world)@ == deactivate_subtree(old(world)@, entity),
    decreases old(world)@.nodes.len() - entity.0,
{
    let ghost before = world@;
    if !world.contains(entity) {
        proof {
            assert forall|i: int| 0 <= i < before.nodes.len() implies deactivate_subtree(
                before,
                entity,
            ).nodes[i] == before.nodes[i] by {
                if in_subtree(before, entity, Entity(i as usize)) {
                    lemma_in_subtree_not_before(before, entity, Entity(i as usize));
                }
            }
            assert(deactivate_subtree(before, entity).nodes =~= before.nodes);
        }
        return ;
    }
    world.remove_active(entity);
    let count = world.child_count(entity);
    let mut k: usize = 0;
    proof {
        assert(world@.nodes =~= deactivate_where(
            before,
            |n: Entity| in_first_subtrees(before, entity, 0, n),
        ).nodes);
    }
    while k < count
        invariant
            before == old(world)@,
            before.wf(),
            before.contains(entity),
            count == before.children(entity).len(),
            k <= count,
            world@.wf(),
            world@ == deactivate_where(
                before,
                |n: Entity| in_first_subtrees(before, entity, k as int, n),
            ),
        decreases count - k,
    {
        let ghost mid = world@;
        proof {
            lemma_deactivate_where_frame(
                before,
                |n: Entity| in_first_subtrees(before, entity, k as int, n),
            );
            assert(before.node_wf(entity.0 as int));
            assert(mid.nodes.len() == before.nodes.len());
            assert(mid.children(entity) == before.children(entity));
            assert(before.children(entity)[k as int].0 > entity.0);
        }
        let child = world.child(entity, k).unwrap();
        remove_active_node(world, child);
        proof {
            let next = deactivate_where(
                before,
                |n: Entity| in_first_subtrees(before, entity, k as int + 1, n),
            );
            assert forall|i: int| 0 <= i < before.nodes.len() implies world@.nodes[i]
                == next.nodes[i] by {
                let n = Entity(i as usize);
                lemma_in_subtree_same_tree(before, mid, child, n);
                if in_first_subtrees(before, entity, k as int, n) {
                    assert(in_first_subtrees(before, entity, k as int + 1, n));
                } else if in_subtree(before, child, n) {
                    assert(in_subtree(before, before.children(entity)[k as int], n));
                }
            }
            assert(world@.nodes =~= next.nodes);
        }
        k += 1;
    }
    proof {
        let done = deactivate_subtree(before, entity);
        assert forall|i: int| 0 <= i < before.nodes.len() implies world@.nodes[i]
            == done.nodes[i] by {
            let n = Entity(i as usize);
            if in_subtree(before, entity, n) {
                lemma_in_subtree_split(before, entity, n);
            }
            if in_first_subtrees(before, entity, count as int, n) && n != entity {
                let j = choose|j: int|
                    0 <= j < count && in_subtree(before, #[trigger] before.children(entity)[j], n);
                lemma_in_subtree_of_child(before, entity, j, n);
            }
        }
        assert(world@.nodes =~= done.nodes);
    }
}

/// The time limit at `e` with its configuration and state.
pub open spec fn is_time_limit_at(
    w: WorldView,
    e: Entity,
    config: TimeLimitNode,
    state: TimeLimitState,
) -> bool {
    w.contains(e) && w.state(e).kind == NodeKind::TimeLimit(config, state)
}

/// The length of the countdown that the next evaluation advances: that of
/// the running countdown, else the configured one.
pub open spec fn limit_span(config: TimeLimitNode, state: TimeLimitState) -> TimeSpan {
    match state.timer {
        Some(t) => t.duration,
        None => config.duration,
    }
}

/// That length in nanoseconds.
pub open spec fn limit_duration(config: TimeLimitNode, state: TimeLimitState) -> nat {
    limit_span(config, state).total()
}

/// The time that the countdown has run for before the next evaluation.
pub open spec fn limit_elapsed(state: TimeLimitState) -> nat {
    match state.timer {
        Some(t) => t.elapsed.total(),
        None => 0,
    }
}

/// The state of a time limit between two cycles.
pub open spec fn limit_idle() -> TimeLimitState {
    TimeLimitState { timer: None, child_activated: false }
}

/// The state of a time limit in a cycle, once the countdown of the given
/// state has advanced by `delta`.
pub open spec fn limit_running(config: TimeLimitNode, state: TimeLimitState, delta: nat) -> TimeLimitState {
    TimeLimitState {
        timer: Some(
            Countdown {
                duration: limit_span(config, state),
                elapsed: TimeSpan::from_total(saturating_sum(limit_elapsed(state), delta)),
            },
        ),
        child_activated: true,
    }
}

/// The world with the time limit at `e` in the given state.
pub open spec fn with_limit_state(
    w: WorldView,
    e: Entity,
    config: TimeLimitNode,
    state: TimeLimitState,
) -> WorldView {
    w.with_state(e, NodeState { kind: NodeKind::TimeLimit(config, state), ..w.state(e) })
}

/// One evaluation of the time limit at `e`: the world afterwards and what
/// the node reports.
///
/// A node without time-limit data fails with `MissingComponent`, one without
/// a child with `MissingChild`; the world stays as it is. A node whose
/// countdown is not running starts one of its configured length and counts
/// its child as not activated. The countdown advances by the frame time.
/// Where that ends it, or where the first child has reported `Complete`, the
/// countdown is dropped, the node and all below it leave the active path, and
/// the node completes. Else a child that has not been activated in this cycle
/// is activated and queued, and a node whose child runs continues.
pub open spec fn time_limit_step(w: WorldView, e: Entity) -> (
    WorldView,
    Result<NodeResult, Error>,
) {
    if !w.contains(e) {
        (w, Err(Error::MissingComponent))
    } else {
        match w.state(e).kind {
            NodeKind::TimeLimit(config, state) => {
                if w.children(e).len() == 0 {
                    (w, Err(Error::MissingChild))
                } else {
                    let child = w.children(e)[0];
                    let duration = limit_span(config, state);
                    let activated = state.timer is Some && state.child_activated;
                    let ticked = countdown_tick(
                        duration.total(),
                        limit_elapsed(state),
                        w.delta.total(),
                    );
                    let running = Countdown { duration, elapsed: TimeSpan::from_total(ticked.0) };
                    if ticked.1 || w.leaf_result(child) == Some(LeafNodeResult::Complete) {
                        (
                            deactivate_subtree(
                                with_limit_state(
                                    w,
                                    e,
                                    config,
                                    TimeLimitState { timer: None, child_activated: false },
                                ),
                                e,
                            ),
                            Ok(NodeResult::Complete),
                        )
                    } else if !activated {
                        (
                            with_limit_state(
                                w,
                                e,
                                config,
                                TimeLimitState { timer: Some(running), child_activated: true },
                            ).activate(child),
                            Ok(NodeResult::QueueNode(child)),
                        )
                    } else {
                        (
                            with_limit_state(
                                w,
                                e,
                                config,
                                TimeLimitState { timer: Some(running), child_activated: true },
                            ),
                            Ok(NodeResult::Continue),
                        )
                    }
                }
            },
            _ => (w, Err(Error::MissingComponent)),
        }
    }
}

/// An evaluation of a time limit leaves the trees, the registry and the
/// frame time as they are, and touches neither an evaluator slot nor the
/// marker of a root.
pub proof fn lemma_time_limit_step_frame(w: WorldView, e: Entity)
    requires
        w.wf(),
    ensures
        w.same_tree(time_limit_step(w, e).0),
        time_limit_step(w, e).0.wf(),
        time_limit_step(w, e).0.systems == w.systems,
        time_limit_step(w, e).0.delta == w.delta,
        forall|x: Entity|
            w.contains(x) ==> (#[trigger] time_limit_step(w, e).0.state(x)).control == w.state(
                x,
            ).control && time_limit_step(w, e).0.state(x).root == w.state(x).root,
        time_limit_step(w, e).1 matches Ok(NodeResult::QueueNode(n)) ==> w.contains(n)
            && w.parent(n) == Some(e),
{
    if w.contains(e) {
        assert(w.node_wf(e.0 as int));
        if let NodeKind::TimeLimit(config, state) = w.state(e).kind {
            let cleared = with_limit_state(
                w,
                e,
                config,
                TimeLimitState { timer: None, child_activated: false },
            );
            w.lemma_same_tree_wf(cleared);
            lemma_deactivate_where_frame(cleared, |n: Entity| in_subtree(cleared, e, n));
        }
    }
    w.lemma_same_tree_wf(time_limit_step(w, e).0);
}

/// After a subtree has been deactivated, no node of it is active or has a
/// leaf result left that it had as an active node, and every node outside it
/// is as it was.
pub proof fn lemma_deactivate_subtree_clears(w: WorldView, top: Entity, n: Entity)
    requires
        w.contains(n),
    ensures
        deactivate_subtree(w, top).contains(n),
        in_subtree(w, top, n) ==> !deactivate_subtree(w, top).is_active(n) && deactivate_subtree(
            w,
            top,
        ).state(n) == w.state(n).deactivated(),
        !in_subtree(w, top, n) ==> deactivate_subtree(w, top).state(n) == w.state(n),
{
}

/// Where the frame time brings the countdown to its end, a time limit with
/// a child completes, whatever its child reports: the node, its child and
/// all below them leave the active path, and the countdown is dropped.
pub proof fn lemma_time_limit_expires(
    w: WorldView,
    e: Entity,
    config: TimeLimitNode,
    state: TimeLimitState,
)
    requires
        w.wf(),
        is_time_limit_at(w, e, config, state),
        w.children(e).len() > 0,
        saturating_sum(limit_elapsed(state), w.delta.total()) >= limit_duration(config, state),
    ensures
        time_limit_step(w, e).1 == Ok::<NodeResult, Error>(NodeResult::Complete),
        !time_limit_step(w, e).0.is_active(e),
        !time_limit_step(w, e).0.is_active(w.children(e)[0]),
        forall|n: Entity| in_subtree(w, e, n) ==> !time_limit_step(w, e).0.is_active(n),
        forall|n: Entity|
            w.contains(n) && !in_subtree(w, e, n) ==> time_limit_step(w, e).0.state(n) == w.state(
                n,
            ),
        is_time_limit_at(time_limit_step(w, e).0, e, config, limit_idle()),
{
    lemma_time_limit_completion(w, e, config, state);
}

/// Where the first child has reported `Complete`, a time limit completes
/// before its deadline: the node, its child and all below them leave the
/// active path, and the countdown is dropped.
pub proof fn lemma_time_limit_child_completes(
    w: WorldView,
    e: Entity,
    config: TimeLimitNode,
    state: TimeLimitState,
)
    requires
        w.wf(),
        is_time_limit_at(w, e, config, state),
        w.children(e).len() > 0,
        w.leaf_result(w.children(e)[0]) == Some(LeafNodeResult::Complete),
    ensures
        time_limit_step(w, e).1 == Ok::<NodeResult, Error>(NodeResult::Complete),
        !time_limit_step(w, e).0.is_active(e),
        !time_limit_step(w, e).0.is_active(w.children(e)[0]),
        forall|n: Entity| in_subtree(w, e, n) ==> !time_limit_step(w, e).0.is_active(n),
        forall|n: Entity|
            w.contains(n) && !in_subtree(w, e, n) ==> time_limit_step(w, e).0.state(n) == w.state(
                n,
            ),
        is_time_limit_at(time_limit_step(w, e).0, e, config, limit_idle()),
{
    lemma_time_limit_completion(w, e, config, state);
}

/// What a completing time limit leaves behind.
proof fn lemma_time_limit_completion(
    w: WorldView,
    e: Entity,
    config: TimeLimitNode,
    state: TimeLimitState,
)
    requires
        w.wf(),
        is_time_limit_at(w, e, config, state),
        w.children(e).len() > 0,
        time_limit_step(w, e).1 == Ok::<NodeResult, Error>(NodeResult::Complete),
    ensures
        !time_limit_step(w, e).0.is_active(e),
        !time_limit_step(w, e).0.is_active(w.children(e)[0]),
        forall|n: Entity| in_subtree(w, e, n) ==> !time_limit_step(w, e).0.is_active(n),
        forall|n: Entity|
            w.contains(n) && !in_subtree(w, e, n) ==> time_limit_step(w, e).0.state(n) == w.state(
                n,
            ),
        is_time_limit_at(time_limit_step(w, e).0, e, config, limit_idle()),
{
    let cleared = with_limit_state(
        w,
        e,
        config,
        TimeLimitState { timer: None, child_activated: false },
    );
    let after = time_limit_step(w, e).0;
    assert(after == deactivate_subtree(cleared, e));
    assert(w.same_tree(cleared));
    assert(in_subtree(cleared, e, e));
    lemma_in_subtree_of_child(w, e, 0, w.children(e)[0]);
    assert forall|n: Entity| in_subtree(w, e, n) implies !after.is_active(n) by {
        lemma_in_subtree_same_tree(w, cleared, e, n);
    }
    assert forall|n: Entity| w.contains(n) && !in_subtree(w, e, n) implies after.state(n)
        == w.state(n) by {
        lemma_in_subtree_same_tree(w, cleared, e, n);
    }
}

/// In a cycle in which its child has not been activated yet, a time limit
/// whose countdown goes on and whose child has not reported `Complete`
/// activates the child and queues it, and stays active itself.
pub proof fn lemma_time_limit_starts_child(
    w: WorldView,
    e: Entity,
    config: TimeLimitNode,
    state: TimeLimitState,
)
    requires
        w.wf(),
        is_time_limit_at(w, e, config, state),
        w.children(e).len() > 0,
        state.timer is None || !state.child_activated,
        saturating_sum(limit_elapsed(state), w.delta.total()) < limit_duration(config, state),
        w.leaf_result(w.children(e)[0]) != Some(LeafNodeResult::Complete),
    ensures
        time_limit_step(w, e).1 == Ok::<NodeResult, Error>(NodeResult::QueueNode(w.children(e)[0])),
        time_limit_step(w, e).0.is_active(w.children(e)[0]),
        time_limit_step(w, e).0.state(w.children(e)[0]) == w.state(w.children(e)[0]).activated(),
        time_limit_step(w, e).0.state(e).active == w.state(e).active,
        forall|x: Entity|
            w.contains(x) && x != e && x != w.children(e)[0] ==> time_limit_step(w, e).0.state(x)
                == w.state(x),
        is_time_limit_at(
            time_limit_step(w, e).0,
            e,
            config,
            limit_running(config, state, w.delta.total()),
        ),
{
    assert(w.node_wf(e.0 as int));
    assert(w.children(e)[0].0 > e.0);
}

/// While its child runs and its countdown goes on, a time limit continues:
/// nothing changes but the time that the countdown has run for.
pub proof fn lemma_time_limit_continues(
    w: WorldView,
    e: Entity,
    config: TimeLimitNode,
    state: TimeLimitState,
)
    requires
        w.wf(),
        is_time_limit_at(w, e, config, state),
        w.children(e).len() > 0,
        state.timer is Some,
        state.child_activated,
        saturating_sum(limit_elapsed(state), w.delta.total()) < limit_duration(config, state),
        w.leaf_result(w.children(e)[0]) != Some(LeafNodeResult::Complete),
    ensures
        time_limit_step(w, e).1 == Ok::<NodeResult, Error>(NodeResult::Continue),
        time_limit_step(w, e).0 == with_limit_state(
            w,
            e,
            config,
            limit_running(config, state, w.delta.total()),
        ),
{
}

/// A time limit fails exactly where it has no time-limit data or no
/// child, and a failure changes nothing.
pub proof fn lemma_time_limit_failures(w: WorldView, e: Entity)
    ensures
        time_limit_step(w, e).1 is Err ==> time_limit_step(w, e).0 == w,
        time_limit_step(w, e).1 == Err::<NodeResult, Error>(Error::MissingComponent) <==> !(
        w.contains(e) && w.state(e).kind is TimeLimit),
        time_limit_step(w, e).1 == Err::<NodeResult, Error>(Error::MissingChild) <==> (w.contains(e)
            && w.state(e).kind is TimeLimit && w.children(e).len() == 0),
        time_limit_step(w, e).1 matches Err(error) ==> error == Error::MissingComponent || error
            == Error::MissingChild,
{
}

/// Runs the time limit at `entity` once.
pub fn update_time_limit(world: &mut World, entity: Entity) -> (r: Result<NodeResult, Error>)
    requires
        old(world)@.wf(),
    ensures
        final(world)@.wf(),
        final(world)@ == time_limit_step(old(world)@, entity).0,
        r == time_limit_step(old(world)@, entity).1,
{
    proof {
        lemma_time_limit_step_frame(world@, entity);
    }
    let delta = world.delta();
    let state = match world.state(entity) {
        Some(s) => s,
        None => {
            return Err(Error::MissingComponent);
        },
    };
    let (config, progress) = match state.kind {
        NodeKind::TimeLimit(config, progress) => (config, progress),
        _ => {
            return Err(Error::MissingComponent);
        },
    };
    let child = match world.child(entity, 0) {
        Some(c) => c,
        None => {
            return Err(Error::MissingChild);
        },
    };
    // Start the countdown on the first run of a cycle.
    let (timer, child_activated) = match progress.timer {
        Some(t) => (t, progress.child_activated),
        None => (Countdown { duration: config.duration, elapsed: TimeSpan::zero() }, false),
    };
    let duration = timer.duration;
    let elapsed = timer.elapsed;
    proof {
        use_type_invariant(&duration);
        use_type_invariant(&elapsed);
        use_type_invariant(&delta);
    }
    let (run, timer_finished) = tick_once(duration, elapsed, delta);
    proof {
        run.lemma_from_total_of_total();
    }
    let child_complete = match world.leaf_result(child) {
        Some(res) => res.is_complete(),
        None => false,
    };
    if timer_finished || child_complete {
        world.set_state(
            entity,
            NodeState {
                kind: NodeKind::TimeLimit(
                    config,
                    TimeLimitState { timer: None, child_activated: false },
                ),
                ..state
            },
        );
        remove_active_node(world, entity);
        return Ok(NodeResult::Complete);
    }
    let running = Countdown { duration, elapsed: run };
    world.set_state(
        entity,
        NodeState {
            kind: NodeKind::TimeLimit(
                config,
                TimeLimitState { timer: Some(running), child_activated: true },
            ),
            ..state
        },
    );
    if !child_activated {
        world.insert_active(child);
        return Ok(NodeResult::QueueNode(child));
    }
    Ok(NodeResult::Continue)
}

} // verus!
