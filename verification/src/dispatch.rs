//! Running the evaluator of a control node: registered on its first run,
//! called through its handle from then on.

use vstd::prelude::*;
use crate::node::{ControlNodeSystemInner, Entity, Error, Evaluator, NodeResult, SystemId};
use crate::sequence::{lemma_sequence_step_frame, sequence_step, update_sequence};
use crate::time_limit::{lemma_time_limit_step_frame, time_limit_step, update_time_limit};
use crate::world::{World, WorldView};

verus! {

/// One evaluation of the node at `e` by the given evaluator: that of a
/// sequence or that of a time limit, as [`lemma_evaluate_is_step`] tells.
#[verifier::opaque]
pub open spec fn evaluate(system: Evaluator, w: WorldView, e: Entity) -> (
    WorldView,
    Result<NodeResult, Error>,
) {
    match system {
        Evaluator::Sequence => sequence_step(w, e),
        Evaluator::TimeLimit => time_limit_step(w, e),
    }
}

/// What each evaluator makes of a node.
pub proof fn lemma_evaluate_is_step(w: WorldView, e: Entity)
    ensures
        evaluate(Evaluator::Sequence, w, e) == sequence_step(w, e),
        evaluate(Evaluator::TimeLimit, w, e) == time_limit_step(w, e),
{
    reveal(evaluate);
}

/// One evaluation of the node at `e` by the evaluator behind a handle. An
/// unknown handle fails with `UnknownSystem` and leaves the world as it is.
pub open spec fn evaluate_by_id(id: SystemId, w: WorldView, e: Entity) -> (
    WorldView,
    Result<NodeResult, Error>,
) {
    match w.system(id) {
        Some(system) => evaluate(system, w, e),
        None => (w, Err(Error::UnknownSystem)),
    }
}

/// Runs the evaluator behind `id` on the node at `entity`.
pub fn run_system_with(world: &mut World, id: SystemId, entity: Entity) -> (r: Result<
    NodeResult,
    Error,
>)
    requires
        old(world)@.wf(),
    ensures
        final(world)@.wf(),
        final(world)@ == evaluate_by_id(id, old(world)@, entity).0,
        r == evaluate_by_id(id, old(world)@, entity).1,
{
    proof {
        lemma_evaluate_is_step(world@, entity);
    }
    match world.system(id) {
        Some(Evaluator::Sequence) => update_sequence(world, entity),
        Some(Evaluator::TimeLimit) => update_time_limit(world, entity),
        None => Err(Error::UnknownSystem),
    }
}

impl ControlNodeSystemInner {
    /// The handle that this evaluator runs through: its own where it has
    /// one, else the next free one of the registry.
    pub open spec fn handle(self, w: WorldView) -> SystemId {
        match self {
            ControlNodeSystemInner::Uncached(_) => SystemId(w.systems.len() as usize),
            ControlNodeSystemInner::Cached(id) => id,
        }
    }

    /// The world once this evaluator is registered: one that is held by
    /// value joins the registry.
    pub open spec fn registered(self, w: WorldView) -> WorldView {
        match self {
            ControlNodeSystemInner::Uncached(system) => w.register(system),
            ControlNodeSystemInner::Cached(_) => w,
        }
    }

    /// One run of this evaluator on the node at `e`: the world afterwards
    /// and what the node reports.
    pub open spec fn run_step(self, w: WorldView, e: Entity) -> (
        WorldView,
        Result<NodeResult, Error>,
    ) {
        evaluate_by_id(self.handle(w), self.registered(w), e)
    }

    /// Runs the evaluator on the node at `entity`. On its first run the
    /// evaluator is registered, and it is held by handle from then on,
    /// whether or not the run fails.
    pub fn run(&mut self, world: &mut World, entity: Entity) -> (r: Result<NodeResult, Error>)
        requires
            old(world)@.wf(),
        ensures
            final(world)@.wf(),
            *final(self) == ControlNodeSystemInner::Cached(old(self).handle(old(world)@)),
            final(world)@ == old(self).run_step(old(world)@, entity).0,
            r == old(self).run_step(old(world)@, entity).1,
    {
        let system_id = match *self {
            ControlNodeSystemInner::Uncached(system) => {
                let id = world.register_system(system);
                *self = ControlNodeSystemInner::Cached(id);
                id
            },
            ControlNodeSystemInner::Cached(id) => id,
        };
        run_system_with(world, system_id, entity)
    }
}

/// A run of an evaluator leaves the trees and the frame time as they are,
/// touches neither an evaluator slot nor the marker of a root, adds nothing
/// to the registry but itself, and queues none but a child of the node that
/// it ran on.
pub proof fn lemma_run_step_frame(system: ControlNodeSystemInner, w: WorldView, e: Entity)
    requires
        w.wf(),
    ensures
        w.same_tree(system.run_step(w, e).0),
        system.run_step(w, e).0.wf(),
        system.run_step(w, e).0.delta == w.delta,
        system.run_step(w, e).0.systems == system.registered(w).systems,
        forall|x: Entity|
            w.contains(x) ==> (#[trigger] system.run_step(w, e).0.state(x)).control == w.state(
                x,
            ).control && system.run_step(w, e).0.state(x).root == w.state(x).root,
        system.run_step(w, e).1 matches Ok(NodeResult::QueueNode(n)) ==> w.contains(n)
            && w.parent(n) == Some(e),
{
    let registered = system.registered(w);
    w.lemma_same_tree_wf(registered);
    lemma_evaluate_is_step(registered, e);
    lemma_sequence_step_frame(registered, e);
    lemma_time_limit_step_frame(registered, e);
}

} // verus!
