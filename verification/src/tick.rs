//! The per-tick driver: it finds the active frontier of every tree and walks
//! from there toward the roots, running the evaluator of each control node
//! on the way.

use vstd::prelude::*;
use crate::dispatch::lemma_run_step_frame;
use crate::node::{ControlNodeSystem, ControlNodeSystemInner, Entity, Error, NodeResult, NodeState};
use crate::order::{lemma_evaluation_keeps_order, lemma_results_reset_keeps_order, orderly};
use crate::world::{NodeView, World, WorldView};

verus! {

/// One of the children of `e` is active.
pub open spec fn has_active_child(w: WorldView, e: Entity) -> bool {
    exists|k: int| 0 <= k < w.children(e).len() && w.is_active(#[trigger] w.children(e)[k])
}

/// `e` is on the active frontier: active, with no active child.
pub open spec fn is_frontier(w: WorldView, e: Entity) -> bool {
    w.is_active(e) && !has_active_child(w, e)
}

/// The frontier among the first `n` nodes, in the order of their handles.
pub open spec fn frontier(w: WorldView, n: nat) -> Seq<Entity>
    decreases n,
{
    if n == 0 {
        Seq::empty()
    } else {
        let e = Entity((n - 1) as usize);
        if is_frontier(w, e) {
            frontier(w, (n - 1) as nat).push(e)
        } else {
            frontier(w, (n - 1) as nat)
        }
    }
}

/// The parent that the driver records for node `i` before the walk: that of
/// an active node that is no root.
pub open spec fn parent_at_start(w: WorldView, i: int) -> Option<Entity> {
    let n = w.nodes[i];
    if n.state.active && n.state.root is None {
        n.parent
    } else {
        None
    }
}

/// The parents that the driver records before the walk, by node.
pub open spec fn parents_at_start(w: WorldView) -> Seq<Option<Entity>> {
    Seq::new(w.nodes.len(), |i: int| parent_at_start(w, i))
}

/// The parent recorded for `e`, where one is.
pub open spec fn recorded(parents: Seq<Option<Entity>>, e: Entity) -> Option<Entity> {
    if e.0 < parents.len() {
        parents[e.0 as int]
    } else {
        None
    }
}

/// The evaluator that can be taken out of the slot of `e`: none where `e`
/// is not there, has no slot, or its slot is empty.
pub open spec fn takeable(w: WorldView, e: Entity) -> Option<ControlNodeSystemInner> {
    if w.contains(e) {
        match w.state(e).control {
            Some(ControlNodeSystem(held)) => held,
            None => None,
        }
    } else {
        None
    }
}

/// The world with the evaluator slot of `e` holding `held`.
pub open spec fn with_slot(w: WorldView, e: Entity, held: Option<ControlNodeSystemInner>) -> WorldView {
    w.with_state(e, NodeState { control: Some(ControlNodeSystem(held)), ..w.state(e) })
}

/// How one step of the walk ends.
pub enum Step {
    /// The walk goes on with this world, work stack and recorded parents.
    Next(WorldView, Seq<Entity>, Seq<Option<Entity>>),
    /// The walk stops with this world and error.
    Failed(WorldView, Error),
}

/// The turn of a control node whose slot holds `system`: the evaluator is
/// taken out of the slot, run with the whole world in its hands, and put back
/// as a handle, whether or not it failed.
pub open spec fn turn(w: WorldView, node: Entity, system: ControlNodeSystemInner) -> (
    WorldView,
    Result<NodeResult, Error>,
) {
    let (ran, outcome) = system.run_step(with_slot(w, node, None), node);
    (with_slot(ran, node, Some(ControlNodeSystemInner::Cached(system.handle(w)))), outcome)
}

/// One step of the walk: the node on top of the stack gets its turn.
///
/// A control node runs its evaluator; a failure stops the walk. A queued
/// node that carries an evaluator slot goes on the stack with the node
/// recorded as its parent; a completed node hands over to its recorded
/// parent, where it has one; a node that continues hands over to nobody. A
/// node without an evaluator hands over to its recorded parent, and stops the
/// walk with `NonControlRoot` where it has none.
pub open spec fn walk_step(w: WorldView, stack: Seq<Entity>, parents: Seq<Option<Entity>>) -> Step
    recommends
        stack.len() > 0,
{
    let node = stack.last();
    let rest = stack.drop_last();
    match takeable(w, node) {
        Some(system) => {
            let (restored, outcome) = turn(w, node, system);
            match outcome {
                Err(error) => Step::Failed(restored, error),
                Ok(NodeResult::QueueNode(queued)) => {
                    if restored.has_control(queued) {
                        Step::Next(
                            restored,
                            rest.push(queued),
                            parents.update(queued.0 as int, Some(node)),
                        )
                    } else {
                        Step::Next(restored, rest, parents)
                    }
                },
                Ok(NodeResult::Complete) => match recorded(parents, node) {
                    Some(parent) => Step::Next(restored, rest.push(parent), parents),
                    None => Step::Next(restored, rest, parents),
                },
                Ok(NodeResult::Continue) => Step::Next(restored, rest, parents),
            }
        },
        None => match recorded(parents, node) {
            Some(parent) => Step::Next(w, rest.push(parent), parents),
            None => Step::Failed(w, Error::NonControlRoot),
        },
    }
}

/// The walk from a work stack, for at most `steps` steps: the world that it
/// leaves and how it ended. It ends well once the stack is empty, and with
/// `StepLimit` where the steps run out first.
pub open spec fn walk(
    w: WorldView,
    stack: Seq<Entity>,
    parents: Seq<Option<Entity>>,
    steps: nat,
) -> (WorldView, Result<(), Error>)
    decreases steps,
{
    if stack.len() == 0 {
        (w, Ok(()))
    } else if steps == 0 {
        (w, Err(Error::StepLimit))
    } else {
        match walk_step(w, stack, parents) {
            Step::Next(next, work, known) => walk(next, work, known, (steps - 1) as nat),
            Step::Failed(left, error) => (left, Err(error)),
        }
    }
}

/// One evaluation of every tree: the walk from the active frontier, with the
/// node of the highest handle first.
pub open spec fn evaluation(w: WorldView, steps: nat) -> (WorldView, Result<(), Error>) {
    walk(w, frontier(w, w.nodes.len()), parents_at_start(w), steps)
}

/// The world after the leaf result of every active node is `Idle` again.
pub open spec fn results_reset(w: WorldView) -> WorldView {
    WorldView {
        nodes: Seq::new(
            w.nodes.len(),
            |i: int| NodeView { state: w.nodes[i].state.result_reset(), ..w.nodes[i] },
        ),
        ..w
    }
}

/// A step of the walk leaves the trees and the frame time as they are.
pub proof fn lemma_walk_step_frame(w: WorldView, stack: Seq<Entity>, parents: Seq<Option<Entity>>)
    requires
        w.wf(),
        stack.len() > 0,
        parents.len() == w.nodes.len(),
    ensures
        match walk_step(w, stack, parents) {
            Step::Next(next, work, known) => w.same_tree(next) && next.wf() && next.delta
                == w.delta && known.len() == parents.len() && work.len() <= stack.len(),
            Step::Failed(left, _) => w.same_tree(left) && left.wf() && left.delta == w.delta,
        },
{
    let node = stack.last();
    if let Some(system) = takeable(w, node) {
        let emptied = with_slot(w, node, None);
        w.lemma_same_tree_wf(emptied);
        lemma_run_step_frame(system, emptied, node);
        let ran = system.run_step(emptied, node).0;
        let restored = with_slot(
            ran,
            node,
            Some(ControlNodeSystemInner::Cached(system.handle(w))),
        );
        ran.lemma_same_tree_wf(restored);
        w.lemma_same_tree_chain(emptied, ran);
        w.lemma_same_tree_chain(ran, restored);
    }
}

/// The walk leaves the trees and the frame time as they are, however it
/// ends.
pub proof fn lemma_walk_frame(
    w: WorldView,
    stack: Seq<Entity>,
    parents: Seq<Option<Entity>>,
    steps: nat,
)
    requires
        w.wf(),
        parents.len() == w.nodes.len(),
    ensures
        w.same_tree(walk(w, stack, parents, steps).0),
        walk(w, stack, parents, steps).0.wf(),
        walk(w, stack, parents, steps).0.delta == w.delta,
    decreases steps,
{
    if stack.len() > 0 && steps > 0 {
        lemma_walk_step_frame(w, stack, parents);
        match walk_step(w, stack, parents) {
            Step::Next(next, work, known) => {
                lemma_walk_frame(next, work, known, (steps - 1) as nat);
            },
            Step::Failed(_, _) => {},
        }
    }
}

/// A walk that did not run out of steps does the same with any number of
/// steps more.
pub proof fn lemma_walk_more_steps(
    w: WorldView,
    stack: Seq<Entity>,
    parents: Seq<Option<Entity>>,
    steps: nat,
    more: nat,
)
    requires
        walk(w, stack, parents, steps).1 != Err::<(), Error>(Error::StepLimit),
    ensures
        walk(w, stack, parents, steps + more) == walk(w, stack, parents, steps),
    decreases steps,
{
    if stack.len() > 0 && steps > 0 {
        match walk_step(w, stack, parents) {
            Step::Next(next, work, known) => {
                lemma_walk_more_steps(next, work, known, (steps - 1) as nat, more);
                assert(steps + more - 1 == (steps - 1) as nat + more);
            },
            Step::Failed(_, _) => {},
        }
    }
}

/// Every node in the list of the frontier is on the frontier.
pub proof fn lemma_frontier_is_active(w: WorldView, n: nat, k: int)
    requires
        0 <= k < frontier(w, n).len(),
    ensures
        is_frontier(w, frontier(w, n)[k]),
        frontier(w, n)[k].0 < n,
    decreases n,
{
    if n > 0 {
        let rest = frontier(w, (n - 1) as nat);
        if k < rest.len() {
            lemma_frontier_is_active(w, (n - 1) as nat, k);
        }
    }
}

/// Every node on the frontier is in its list.
pub proof fn lemma_frontier_is_complete(w: WorldView, n: nat, e: Entity)
    requires
        e.0 < n,
        n <= usize::MAX,
        is_frontier(w, e),
    ensures
        frontier(w, n).contains(e),
    decreases n,
{
    let rest = frontier(w, (n - 1) as nat);
    if e.0 == n - 1 {
        assert(frontier(w, n) == rest.push(e));
        assert(rest.push(e)[rest.len() as int] == e);
    } else {
        lemma_frontier_is_complete(w, (n - 1) as nat, e);
        let k = choose|k: int| 0 <= k < rest.len() && rest[k] == e;
        assert(frontier(w, n)[k] == e);
    }
}

/// Where no node is active, an evaluation has nothing to do: it changes
/// nothing and ends well, whatever the number of steps.
pub proof fn lemma_evaluation_without_active_node(w: WorldView, steps: nat)
    requires
        forall|e: Entity| !w.is_active(e),
    ensures
        evaluation(w, steps) == (w, Ok::<(), Error>(())),
{
    let front = frontier(w, w.nodes.len());
    if front.len() > 0 {
        lemma_frontier_is_active(w, w.nodes.len(), 0);
    }
}

/// An evaluation leaves the trees and the frame time as they are, however
/// it ends.
pub proof fn lemma_evaluation_frame(w: WorldView, steps: nat)
    requires
        w.wf(),
    ensures
        w.same_tree(evaluation(w, steps).0),
        evaluation(w, steps).0.wf(),
        evaluation(w, steps).0.delta == w.delta,
{
    lemma_walk_frame(w, frontier(w, w.nodes.len()), parents_at_start(w), steps);
}

/// A control node whose evaluator has run holds it by handle from then on:
/// the step leaves the handle in its slot, and an evaluator that was held by
/// handle already has added nothing to the registry.
pub proof fn lemma_walk_step_caches(w: WorldView, stack: Seq<Entity>, parents: Seq<Option<Entity>>)
    requires
        w.wf(),
        w.systems.len() <= usize::MAX,
        stack.len() > 0,
        takeable(w, stack.last()) is Some,
    ensures
        ({
            let system = takeable(w, stack.last()).unwrap();
            let after = match walk_step(w, stack, parents) {
                Step::Next(next, _, _) => next,
                Step::Failed(left, _) => left,
            };
            &&& takeable(after, stack.last()) == Some(
                ControlNodeSystemInner::Cached(system.handle(w)),
            )
            &&& after.systems == system.registered(w).systems
            &&& system is Cached ==> after.systems == w.systems
            &&& system matches ControlNodeSystemInner::Uncached(held) ==> after.system(
                system.handle(w),
            ) == Some(held)
        }),
{
    let node = stack.last();
    let system = takeable(w, node).unwrap();
    let emptied = with_slot(w, node, None);
    w.lemma_same_tree_wf(emptied);
    lemma_run_step_frame(system, emptied, node);
}

/// Whether one of the children of `entity` is active.
pub fn any_child_active(world: &World, entity: Entity) -> (r: bool)
    ensures
        r == (world@.contains(entity) && has_active_child(world@, entity)),
{
    let count = world.child_count(entity);
    let mut k: usize = 0;
    while k < count
        invariant
            k <= count,
            count == if world@.contains(entity) {
                world@.children(entity).len()
            } else {
                0
            },
            forall|j: int| 0 <= j < k ==> !world@.is_active(#[trigger] world@.children(entity)[j]),
        decreases count - k,
    {
        if let Some(child) = world.child(entity, k) {
            if world.is_active(child) {
                return true;
            }
        }
        k += 1;
    }
    false
}

/// The parent recorded for `node`, where one is.
fn recorded_parent(parents: &Vec<Option<Entity>>, node: Entity) -> (r: Option<Entity>)
    ensures
        r == recorded(parents@, node),
{
    if node.0 < parents.len() {
        parents[node.0]
    } else {
        None
    }
}

/// Evaluates and updates all behavior trees: one walk from the active
/// frontier toward the roots, in at most `max_steps` steps. Where an
/// evaluator fails or the steps run out, the walk stops there and the world
/// stays as the walk has left it.
pub fn update_behavior_trees(world: &mut World, max_steps: usize) -> (r: Result<(), Error>)
    requires
        old(world)@.wf(),
    ensures
        final(world)@.wf(),
        old(world)@.same_tree(final(world)@),
        final(world)@ == evaluation(old(world)@, max_steps as nat).0,
        r == evaluation(old(world)@, max_steps as nat).1,
        orderly(old(world)@) ==> orderly(final(world)@),
{
    let ghost start = world@;
    proof {
        if orderly(start) {
            lemma_evaluation_keeps_order(start, max_steps as nat);
        }
    }
    let count = world.len();
    let mut node_parents: Vec<Option<Entity>> = Vec::new();
    let mut leaf_nodes: Vec<Entity> = Vec::new();
    let mut i: usize = 0;
    while i < count
        invariant
            world@ == start,
            count == start.nodes.len(),
            i <= count,
            node_parents@.len() == i,
            forall|j: int| 0 <= j < i ==> node_parents@[j] == parent_at_start(start, j),
            leaf_nodes@ == frontier(start, i as nat),
        decreases count - i,
    {
        let id = Entity(i);
        let mut parent: Option<Entity> = None;
        if let Some(state) = world.state(id) {
            if state.active {
                if state.root.is_none() {
                    parent = world.parent(id);
                }
                // Nodes without active children are considered leaf nodes
                if !any_child_active(world, id) {
                    leaf_nodes.push(id);
                }
            }
        }
        node_parents.push(parent);
        i += 1;
    }
    assert(node_parents@ =~= parents_at_start(start));

    let mut steps = max_steps;
    while leaf_nodes.len() > 0
        invariant
            start == old(world)@,
            start.wf(),
            world@.wf(),
            start.same_tree(world@),
            node_parents@.len() == world@.nodes.len(),
            walk(world@, leaf_nodes@, node_parents@, steps as nat) == evaluation(
                start,
                max_steps as nat,
            ),
            orderly(start) ==> orderly(evaluation(start, max_steps as nat).0),
        decreases steps,
    {
        if steps == 0 {
            return Err(Error::StepLimit);
        }
        steps -= 1;
        proof {
            lemma_walk_step_frame(world@, leaf_nodes@, node_parents@);
        }
        let ghost work = leaf_nodes@;
        let node = leaf_nodes.pop().unwrap();
        assert(leaf_nodes@ == work.drop_last());
        // Take the evaluator out: it runs with the whole world in its hands.
        let held = match world.state(node) {
            Some(state) => match state.control {
                Some(ControlNodeSystem(Some(system))) => Some((state, system)),
                _ => None,
            },
            None => None,
        };
        if let Some((state, taken)) = held {
            let mut system = taken;
            world.set_state(node, NodeState { control: Some(ControlNodeSystem(None)), ..state });
            let ghost emptied = world@;
            proof {
                lemma_run_step_frame(taken, emptied, node);
            }
            let outcome = system.run(world, node);
            let ran = world.state(node).unwrap();
            world.set_state(node, NodeState { control: Some(ControlNodeSystem(Some(system))), ..ran });
            match outcome? {
                NodeResult::QueueNode(new_node) => {
                    if world.has_control(new_node) {
                        leaf_nodes.push(new_node);
                        node_parents[new_node.0] = Some(node);
                    }
                },
                NodeResult::Complete => {
                    if let Some(parent) = recorded_parent(&node_parents, node) {
                        leaf_nodes.push(parent);
                    }
                },
                NodeResult::Continue => {},
            }
        } else {
            // A plain node on the frontier hands over to its parent.
            match recorded_parent(&node_parents, node) {
                Some(parent) => {
                    leaf_nodes.push(parent);
                },
                None => {
                    return Err(Error::NonControlRoot);
                },
            }
        }
    }
    Ok(())
}

/// Sets the leaf result of every active node back to `Idle`.
pub fn reset_leaf_results(world: &mut World)
    requires
        old(world)@.wf(),
    ensures
        final(world)@.wf(),
        final(world)@ == results_reset(old(world)@),
        orderly(old(world)@) ==> orderly(final(world)@),
{
    let ghost start = world@;
    proof {
        if orderly(start) {
            lemma_results_reset_keeps_order(start);
        }
    }
    let count = world.len();
    let mut i: usize = 0;
    while i < count
        invariant
            start.wf(),
            world@.wf(),
            count == start.nodes.len(),
            i <= count,
            world@.nodes.len() == start.nodes.len(),
            world@.systems == start.systems,
            world@.delta == start.delta,
            forall|j: int| 0 <= j < i ==> world@.nodes[j] == results_reset(start).nodes[j],
            forall|j: int| i <= j < count ==> world@.nodes[j] == start.nodes[j],
        decreases count - i,
    {
        let id = Entity(i);
        if world.is_active(id) {
            if let Some(result) = world.leaf_result(id) {
                let mut result = result;
                result.reset();
                world.set_leaf_result(id, result);
            }
        }
        i += 1;
    }
    assert(world@.nodes =~= results_reset(start).nodes);
}

/// The step that comes before the leaf actions of a frame: every tree is
/// evaluated on the results that the leaves reported last, then those
/// results are cleared for the leaves to report anew. The results are
/// cleared whether or not the evaluation failed.
pub fn pre_update_action(world: &mut World, max_steps: usize) -> (r: Result<(), Error>)
    requires
        old(world)@.wf(),
    ensures
        final(world)@.wf(),
        final(world)@ == results_reset(evaluation(old(world)@, max_steps as nat).0),
        r == evaluation(old(world)@, max_steps as nat).1,
        orderly(old(world)@) ==> orderly(final(world)@),
{
    let outcome = update_behavior_trees(world, max_steps);
    reset_leaf_results(world);
    outcome
}

} // verus!
