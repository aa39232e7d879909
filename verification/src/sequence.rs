//! The sequence: a control node that runs its children one after the other.

use vstd::prelude::*;
use crate::leaf::LeafNodeResult;
use crate::node::{Entity, Error, NodeKind, NodeResult, NodeState, SequenceNode, SequenceState};
use crate::world::{World, WorldView};

verus! {

/// The world with the sequence at `e` standing at `current`.
pub open spec fn with_current(
    w: WorldView,
    e: Entity,
    config: SequenceNode,
    current: Option<usize>,
) -> WorldView {
    w.with_state(
        e,
        NodeState { kind: NodeKind::Sequence(config, SequenceState { current }), ..w.state(e) },
    )
}

/// A sequence moves on to the child at `next`: it activates that child and
/// queues it; past its last child it starts over where it repeats, has a
/// child and has come from one, and else clears its index, leaves the active
/// path and completes.
pub open spec fn sequence_advance(w: WorldView, e: Entity, config: SequenceNode, next: usize) -> (
    WorldView,
    Result<NodeResult, Error>,
) {
    let kids = w.children(e);
    if next < kids.len() {
        (
            with_current(w, e, config, Some(next)).activate(kids[next as int]),
            Ok(NodeResult::QueueNode(kids[next as int])),
        )
    } else if config.repeat && next != 0 && kids.len() > 0 {
        (
            with_current(w, e, config, Some(0)).activate(kids[0]),
            Ok(NodeResult::QueueNode(kids[0])),
        )
    } else {
        (with_current(w, e, config, None).deactivate(e), Ok(NodeResult::Complete))
    }
}

/// One evaluation of the sequence at `e`: the world afterwards and what the
/// sequence reports.
///
/// A node without sequence data fails with `MissingComponent`, an index
/// without a child with `InvalidChildIndex`; the world stays as it is. Before
/// its first child the sequence moves on to child 0. Else it looks at the
/// leaf result of its current child: while that is not `Complete` it
/// continues; once it is, the child leaves the active path and the sequence
/// moves on. A current child without a leaf result does not hold it back.
pub open spec fn sequence_step(w: WorldView, e: Entity) -> (WorldView, Result<NodeResult, Error>) {
    if !w.contains(e) {
        (w, Err(Error::MissingComponent))
    } else {
        match w.state(e).kind {
            NodeKind::Sequence(config, state) => match state.current {
                Some(current) => {
                    if current >= w.children(e).len() {
                        (w, Err(Error::InvalidChildIndex))
                    } else {
                        let child = w.children(e)[current as int];
                        match w.leaf_result(child) {
                            Some(LeafNodeResult::Complete) => sequence_advance(
                                w.deactivate(child),
                                e,
                                config,
                                (current + 1) as usize,
                            ),
                            Some(_) => (w, Ok(NodeResult::Continue)),
                            None => sequence_advance(w, e, config, (current + 1) as usize),
                        }
                    }
                },
                None => sequence_advance(w, e, config, 0),
            },
            _ => (w, Err(Error::MissingComponent)),
        }
    }
}

/// An evaluation of a sequence leaves the trees, the registry and the frame
/// time as they are, and touches neither an evaluator slot nor the marker of
/// a root.
pub proof fn lemma_sequence_step_frame(w: WorldView, e: Entity)
    requires
        w.wf(),
    ensures
        w.same_tree(sequence_step(w, e).0),
        sequence_step(w, e).0.wf(),
        sequence_step(w, e).0.systems == w.systems,
        sequence_step(w, e).0.delta == w.delta,
        forall|x: Entity|
            w.contains(x) ==> (#[trigger] sequence_step(w, e).0.state(x)).control == w.state(
                x,
            ).control && sequence_step(w, e).0.state(x).root == w.state(x).root,
        sequence_step(w, e).1 matches Ok(NodeResult::QueueNode(n)) ==> w.contains(n)
            && w.parent(n) == Some(e),
{
    if w.contains(e) {
        assert(w.node_wf(e.0 as int));
    }
    w.lemma_same_tree_wf(sequence_step(w, e).0);
}

/// The sequence at `e` with its configuration and the child that it stands
/// at.
pub open spec fn is_sequence_at(
    w: WorldView,
    e: Entity,
    config: SequenceNode,
    current: Option<usize>,
) -> bool {
    w.contains(e) && w.state(e).kind == NodeKind::Sequence(config, SequenceState { current })
}

/// On its first evaluation a sequence with a child activates child 0 and
/// queues it; no other node changes.
pub proof fn lemma_sequence_starts_at_first_child(w: WorldView, e: Entity, config: SequenceNode)
    requires
        w.wf(),
        is_sequence_at(w, e, config, None),
        w.children(e).len() > 0,
    ensures
        sequence_step(w, e).1 == Ok::<NodeResult, Error>(NodeResult::QueueNode(w.children(e)[0])),
        sequence_step(w, e).0.is_active(w.children(e)[0]),
        sequence_step(w, e).0.state(w.children(e)[0]) == w.state(w.children(e)[0]).activated(),
        is_sequence_at(sequence_step(w, e).0, e, config, Some(0)),
        sequence_step(w, e).0.state(e).active == w.state(e).active,
        forall|x: Entity|
            w.contains(x) && x != e && x != w.children(e)[0] ==> sequence_step(w, e).0.state(x)
                == w.state(x),
{
    assert(w.node_wf(e.0 as int));
}

/// While its current child has a result other than `Complete`, a sequence
/// continues and changes nothing.
pub proof fn lemma_sequence_waits(
    w: WorldView,
    e: Entity,
    config: SequenceNode,
    current: usize,
    result: LeafNodeResult,
)
    requires
        w.wf(),
        is_sequence_at(w, e, config, Some(current)),
        current < w.children(e).len(),
        w.leaf_result(w.children(e)[current as int]) == Some(result),
        result != LeafNodeResult::Complete,
    ensures
        sequence_step(w, e) == (w, Ok::<NodeResult, Error>(NodeResult::Continue)),
{
}

/// Once its current child has reported `Complete`, a sequence with a next
/// child deactivates the one, activates the other and queues it: the
/// children run in their order.
pub proof fn lemma_sequence_moves_on(w: WorldView, e: Entity, config: SequenceNode, current: usize)
    requires
        w.wf(),
        is_sequence_at(w, e, config, Some(current)),
        current + 1 < w.children(e).len(),
        w.leaf_result(w.children(e)[current as int]) == Some(LeafNodeResult::Complete),
    ensures
        sequence_step(w, e).1 == Ok::<NodeResult, Error>(
            NodeResult::QueueNode(w.children(e)[current + 1]),
        ),
        !sequence_step(w, e).0.is_active(w.children(e)[current as int]),
        sequence_step(w, e).0.is_active(w.children(e)[current + 1]),
        sequence_step(w, e).0.state(w.children(e)[current + 1]) == w.state(
            w.children(e)[current + 1],
        ).activated(),
        is_sequence_at(sequence_step(w, e).0, e, config, Some((current + 1) as usize)),
        sequence_step(w, e).0.state(e).active == w.state(e).active,
        forall|x: Entity|
            w.contains(x) && x != e && x != w.children(e)[current as int] && x != w.children(
                e,
            )[current + 1] ==> sequence_step(w, e).0.state(x) == w.state(x),
{
    assert(w.node_wf(e.0 as int));
    let done = w.children(e)[current as int];
    let next = w.children(e)[current + 1];
    assert(done.0 > e.0 && next.0 > e.0);
}

/// Once its last child has reported `Complete`, a sequence that does not
/// repeat deactivates the child and itself, clears its index and completes.
pub proof fn lemma_sequence_completes(w: WorldView, e: Entity, config: SequenceNode, current: usize)
    requires
        w.wf(),
        is_sequence_at(w, e, config, Some(current)),
        !config.repeat,
        current + 1 == w.children(e).len(),
        w.leaf_result(w.children(e)[current as int]) == Some(LeafNodeResult::Complete),
    ensures
        sequence_step(w, e).1 == Ok::<NodeResult, Error>(NodeResult::Complete),
        !sequence_step(w, e).0.is_active(e),
        !sequence_step(w, e).0.is_active(w.children(e)[current as int]),
        is_sequence_at(sequence_step(w, e).0, e, config, None),
        forall|x: Entity|
            w.contains(x) && x != e && x != w.children(e)[current as int] ==> sequence_step(
                w,
                e,
            ).0.state(x) == w.state(x),
{
    assert(w.node_wf(e.0 as int));
    assert(w.children(e)[current as int].0 > e.0);
}

/// Once its last child has reported `Complete`, a sequence that repeats
/// starts over: it activates child 0 and queues it, and stays active itself.
pub proof fn lemma_sequence_repeats(w: WorldView, e: Entity, config: SequenceNode, current: usize)
    requires
        w.wf(),
        is_sequence_at(w, e, config, Some(current)),
        config.repeat,
        current + 1 == w.children(e).len(),
        w.leaf_result(w.children(e)[current as int]) == Some(LeafNodeResult::Complete),
    ensures
        sequence_step(w, e).1 == Ok::<NodeResult, Error>(NodeResult::QueueNode(w.children(e)[0])),
        sequence_step(w, e).0.is_active(w.children(e)[0]),
        sequence_step(w, e).0.state(w.children(e)[0]) == w.deactivate(
            w.children(e)[current as int],
        ).state(w.children(e)[0]).activated(),
        current > 0 ==> !sequence_step(w, e).0.is_active(w.children(e)[current as int]),
        is_sequence_at(sequence_step(w, e).0, e, config, Some(0)),
        sequence_step(w, e).0.state(e).active == w.state(e).active,
        forall|x: Entity|
            w.contains(x) && x != e && x != w.children(e)[current as int] && x != w.children(e)[0]
                ==> sequence_step(w, e).0.state(x) == w.state(x),
{
    assert(w.node_wf(e.0 as int));
    assert(w.children(e)[current as int].0 > e.0);
    assert(w.children(e)[0].0 > e.0);
}

/// A sequence fails exactly where it has no sequence data or stands at a
/// child that it does not have, and a failure changes nothing.
pub proof fn lemma_sequence_failures(w: WorldView, e: Entity)
    ensures
        sequence_step(w, e).1 is Err ==> sequence_step(w, e).0 == w,
        sequence_step(w, e).1 == Err::<NodeResult, Error>(Error::MissingComponent) <==> !(
        w.contains(e) && w.state(e).kind is Sequence),
        sequence_step(w, e).1 == Err::<NodeResult, Error>(Error::InvalidChildIndex) <==> (
        w.contains(e) && (w.state(e).kind matches NodeKind::Sequence(_, state)
            && state.current matches Some(current) && current >= w.children(e).len())),
        sequence_step(w, e).1 matches Err(error) ==> error == Error::MissingComponent || error
            == Error::InvalidChildIndex,
{
}

/// Runs the sequence at `entity` once.
pub fn update_sequence(world: &mut World, entity: Entity) -> (r: Result<NodeResult, Error>)
    requires
        old(world)@.wf(),
    ensures
        final(world)@.wf(),
        final(world)@ == sequence_step(old(world)@, entity).0,
        r == sequence_step(old(world)@, entity).1,
{
    proof {
        lemma_sequence_step_frame(world@, entity);
    }
    let state = match world.state(entity) {
        Some(s) => s,
        None => {
            return Err(Error::MissingComponent);
        },
    };
    let (config, progress) = match state.kind {
        NodeKind::Sequence(config, progress) => (config, progress),
        _ => {
            return Err(Error::MissingComponent);
        },
    };
    let mut next: usize = 0;
    if let Some(current) = progress.current {
        let child = match world.child(entity, current) {
            Some(c) => c,
            None => {
                return Err(Error::InvalidChildIndex);
            },
        };
        assert(world@.node_wf(entity.0 as int));
        if let Some(res) = world.leaf_result(child) {
            if res.is_complete() {
                world.remove_active(child);
            } else {
                return Ok(NodeResult::Continue);
            }
        }
        next = current + 1;
    }
    let ghost mid = world@;
    assert(mid.children(entity) == old(world)@.children(entity));
    assert(mid.state(entity) == old(world)@.state(entity));
    if let Some(cur_child) = world.child(entity, next) {
        world.set_state(
            entity,
            NodeState {
                kind: NodeKind::Sequence(config, SequenceState { current: Some(next) }),
                ..state
            },
        );
        world.insert_active(cur_child);
        Ok(NodeResult::QueueNode(cur_child))
    } else if config.repeat && next != 0 && world.child_count(entity) != 0 {
        let first = world.child(entity, 0);
        world.set_state(
            entity,
            NodeState {
                kind: NodeKind::Sequence(config, SequenceState { current: Some(0) }),
                ..state
            },
        );
        let child = first.unwrap();
        world.insert_active(child);
        Ok(NodeResult::QueueNode(child))
    } else {
        world.set_state(
            entity,
            NodeState { kind: NodeKind::Sequence(config, SequenceState { current: None }), ..state },
        );
        world.remove_active(entity);
        Ok(NodeResult::Complete)
    }
}

} // verus!
