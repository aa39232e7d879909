//! Worlds that differ only in what evaluator slots hold. No evaluator
//! looks at that, so it does the same in both.

use vstd::prelude::*;
use crate::leaf::LeafNodeResult;
use crate::node::{
    ControlNodeSystem,
    ControlNodeSystemInner,
    Entity,
    Error,
    Evaluator,
    NodeKind,
    NodeResult,
    NodeState,
    SequenceNode,
    TimeLimitState,
};
use crate::sequence::{sequence_advance, sequence_step, with_current};
use crate::dispatch::{evaluate, lemma_evaluate_is_step, lemma_run_step_frame};
use crate::tick::{takeable, turn, with_slot};
use crate::time_limit::{lemma_in_subtree_same_tree, time_limit_step, with_limit_state};
use crate::world::WorldView;

verus! {

/// The state of a node without what its evaluator slot holds.
pub open spec fn unheld(s: NodeState) -> NodeState {
    NodeState {
        control: match s.control {
            Some(_) => Some(ControlNodeSystem(None)),
            None => None,
        },
        ..s
    }
}

/// Two worlds differ in nothing that an evaluator looks at: they hold the
/// same trees and the same frame time, and every node carries the same in
/// both but for what its evaluator slot holds.
pub open spec fn alike(a: WorldView, b: WorldView) -> bool {
    &&& a.same_tree(b)
    &&& a.delta == b.delta
    &&& forall|i: int|
        0 <= i < a.nodes.len() ==> unheld((#[trigger] a.nodes[i]).state) == unheld(
            b.nodes[i].state,
        )
}

/// In worlds that are alike the same nodes are active, with the same leaf
/// results and the same data of their kind.
pub proof fn lemma_alike_reads(a: WorldView, b: WorldView, e: Entity)
    requires
        alike(a, b),
    ensures
        a.contains(e) == b.contains(e),
        a.is_active(e) == b.is_active(e),
        a.has_control(e) == b.has_control(e),
        a.leaf_result(e) == b.leaf_result(e),
        a.contains(e) ==> a.state(e).kind == b.state(e).kind && a.state(e).root == b.state(e).root
            && a.children(e) == b.children(e) && a.parent(e) == b.parent(e),
{
    if a.contains(e) {
        assert(unheld(a.nodes[e.0 as int].state) == unheld(b.nodes[e.0 as int].state));
    }
}

/// Worlds that are alike to a third are alike.
pub proof fn lemma_alike_chain(a: WorldView, b: WorldView, c: WorldView)
    requires
        alike(a, b),
        alike(b, c),
    ensures
        alike(a, c),
{
    assert forall|i: int| 0 <= i < a.nodes.len() implies unheld((#[trigger] a.nodes[i]).state)
        == unheld(c.nodes[i].state) && a.nodes[i].parent == c.nodes[i].parent
        && a.nodes[i].children == c.nodes[i].children by {
        assert(unheld(b.nodes[i].state) == unheld(c.nodes[i].state));
    }
}

/// Worlds stay alike where one node gets states that are the same but for
/// what the slot holds.
pub proof fn lemma_alike_with_state(a: WorldView, b: WorldView, e: Entity, sa: NodeState, sb: NodeState)
    requires
        alike(a, b),
        a.contains(e),
        unheld(sa) == unheld(sb),
    ensures
        alike(a.with_state(e, sa), b.with_state(e, sb)),
{
    let after_a = a.with_state(e, sa);
    let after_b = b.with_state(e, sb);
    assert forall|i: int| 0 <= i < after_a.nodes.len() implies unheld(
        (#[trigger] after_a.nodes[i]).state,
    ) == unheld(after_b.nodes[i].state) && after_a.nodes[i].parent == after_b.nodes[i].parent
        && after_a.nodes[i].children == after_b.nodes[i].children by {
        assert(unheld(a.nodes[i].state) == unheld(b.nodes[i].state));
    }
}

/// Worlds stay alike where the same node is activated in both.
pub proof fn lemma_alike_activate(a: WorldView, b: WorldView, e: Entity)
    requires
        alike(a, b),
    ensures
        alike(a.activate(e), b.activate(e)),
{
    lemma_alike_reads(a, b, e);
    if a.contains(e) {
        assert(unheld(a.nodes[e.0 as int].state) == unheld(b.nodes[e.0 as int].state));
        lemma_alike_with_state(a, b, e, a.state(e).activated(), b.state(e).activated());
    }
}

/// Worlds stay alike where the same node is deactivated in both.
pub proof fn lemma_alike_deactivate(a: WorldView, b: WorldView, e: Entity)
    requires
        alike(a, b),
    ensures
        alike(a.deactivate(e), b.deactivate(e)),
{
    lemma_alike_reads(a, b, e);
    if a.contains(e) {
        assert(unheld(a.nodes[e.0 as int].state) == unheld(b.nodes[e.0 as int].state));
        lemma_alike_with_state(a, b, e, a.state(e).deactivated(), b.state(e).deactivated());
    }
}

/// A sequence moves on in the same way in worlds that are alike.
pub proof fn lemma_sequence_advance_alike(
    a: WorldView,
    b: WorldView,
    e: Entity,
    config: SequenceNode,
    next: usize,
)
    requires
        alike(a, b),
        a.contains(e),
    ensures
        sequence_advance(a, e, config, next).1 == sequence_advance(b, e, config, next).1,
        alike(sequence_advance(a, e, config, next).0, sequence_advance(b, e, config, next).0),
{
    lemma_alike_reads(a, b, e);
    assert(unheld(a.nodes[e.0 as int].state) == unheld(b.nodes[e.0 as int].state));
    let kids = a.children(e);
    if next < kids.len() {
        let moved_a = with_current(a, e, config, Some(next));
        let moved_b = with_current(b, e, config, Some(next));
        lemma_alike_with_state(a, b, e, moved_a.state(e), moved_b.state(e));
        lemma_alike_activate(moved_a, moved_b, kids[next as int]);
    } else if config.repeat && next != 0 && kids.len() > 0 {
        let moved_a = with_current(a, e, config, Some(0));
        let moved_b = with_current(b, e, config, Some(0));
        lemma_alike_with_state(a, b, e, moved_a.state(e), moved_b.state(e));
        lemma_alike_activate(moved_a, moved_b, kids[0]);
    } else {
        let moved_a = with_current(a, e, config, None);
        let moved_b = with_current(b, e, config, None);
        lemma_alike_with_state(a, b, e, moved_a.state(e), moved_b.state(e));
        lemma_alike_deactivate(moved_a, moved_b, e);
    }
}

/// A sequence does the same in worlds that are alike.
pub proof fn lemma_sequence_step_alike(a: WorldView, b: WorldView, e: Entity)
    requires
        alike(a, b),
    ensures
        sequence_step(a, e).1 == sequence_step(b, e).1,
        alike(sequence_step(a, e).0, sequence_step(b, e).0),
{
    lemma_alike_reads(a, b, e);
    if a.contains(e) {
        if let NodeKind::Sequence(config, state) = a.state(e).kind {
            match state.current {
                Some(current) => {
                    if current < a.children(e).len() {
                        let child = a.children(e)[current as int];
                        lemma_alike_reads(a, b, child);
                        match a.leaf_result(child) {
                            Some(LeafNodeResult::Complete) => {
                                lemma_alike_deactivate(a, b, child);
                                lemma_sequence_advance_alike(
                                    a.deactivate(child),
                                    b.deactivate(child),
                                    e,
                                    config,
                                    (current + 1) as usize,
                                );
                            },
                            Some(_) => {},
                            None => {
                                lemma_sequence_advance_alike(
                                    a,
                                    b,
                                    e,
                                    config,
                                    (current + 1) as usize,
                                );
                            },
                        }
                    }
                },
                None => {
                    lemma_sequence_advance_alike(a, b, e, config, 0);
                },
            }
        }
    }
}

/// A time limit does the same in worlds that are alike.
pub proof fn lemma_time_limit_step_alike(a: WorldView, b: WorldView, e: Entity)
    requires
        alike(a, b),
    ensures
        time_limit_step(a, e).1 == time_limit_step(b, e).1,
        alike(time_limit_step(a, e).0, time_limit_step(b, e).0),
{
    lemma_alike_reads(a, b, e);
    if a.contains(e) && a.children(e).len() > 0 {
        let child = a.children(e)[0];
        lemma_alike_reads(a, b, child);
        let after_a = time_limit_step(a, e).0;
        let after_b = time_limit_step(b, e).0;
        if let NodeKind::TimeLimit(config, state) = a.state(e).kind {
            let cleared = TimeLimitState { timer: None, child_activated: false };
            let cleared_a = with_limit_state(a, e, config, cleared);
            let cleared_b = with_limit_state(b, e, config, cleared);
            assert forall|i: int| 0 <= i < after_a.nodes.len() implies unheld(
                (#[trigger] after_a.nodes[i]).state,
            ) == unheld(after_b.nodes[i].state) by {
                assert(unheld(a.nodes[i].state) == unheld(b.nodes[i].state));
                assert(unheld(a.nodes[e.0 as int].state) == unheld(b.nodes[e.0 as int].state));
                lemma_in_subtree_same_tree(cleared_a, cleared_b, e, Entity(i as usize));
            }
        }
    }
}

/// An evaluator does the same in worlds that are alike.
pub proof fn lemma_evaluate_alike(system: Evaluator, a: WorldView, b: WorldView, e: Entity)
    requires
        alike(a, b),
    ensures
        evaluate(system, a, e).1 == evaluate(system, b, e).1,
        alike(evaluate(system, a, e).0, evaluate(system, b, e).0),
{
    lemma_evaluate_is_step(a, e);
    lemma_evaluate_is_step(b, e);
    match system {
        Evaluator::Sequence => lemma_sequence_step_alike(a, b, e),
        Evaluator::TimeLimit => lemma_time_limit_step_alike(a, b, e),
    }
}

/// Changing what the slot of a control node holds leaves the world
/// alike.
pub proof fn lemma_alike_with_slot(w: WorldView, e: Entity, held: Option<ControlNodeSystemInner>)
    requires
        w.has_control(e),
    ensures
        alike(with_slot(w, e, held), w),
{
    let after = with_slot(w, e, held);
    assert forall|i: int| 0 <= i < after.nodes.len() implies unheld(
        (#[trigger] after.nodes[i]).state,
    ) == unheld(w.nodes[i].state) && after.nodes[i].parent == w.nodes[i].parent
        && after.nodes[i].children == w.nodes[i].children by {}
}

/// The evaluator that the turn of `e` runs: the one that the handle of
/// `system` names once `system` is registered, where it names one.
pub open spec fn turn_evaluator(w: WorldView, e: Entity, system: ControlNodeSystemInner) -> Option<
    Evaluator,
> {
    system.registered(with_slot(w, e, None)).system(system.handle(w))
}

/// The turn of a control node comes to what the evaluator behind its
/// handle makes of the node: the same report, and a world that is alike. A
/// handle that names no evaluator fails, in a world that is alike to the one
/// before. The turn leaves the handle in its own slot, every other slot and
/// the marker of every root as they were, and adds nothing to the registry
/// but its own evaluator.
pub proof fn lemma_turn_cases(w: WorldView, e: Entity, system: ControlNodeSystemInner)
    requires
        w.wf(),
        takeable(w, e) == Some(system),
    ensures
        turn(w, e, system).0.wf(),
        w.same_tree(turn(w, e, system).0),
        match turn_evaluator(w, e, system) {
            Some(evaluator) => turn(w, e, system).1 == evaluate(evaluator, w, e).1 && alike(
                turn(w, e, system).0,
                evaluate(evaluator, w, e).0,
            ),
            None => turn(w, e, system).1 == Err::<NodeResult, Error>(Error::UnknownSystem)
                && alike(turn(w, e, system).0, w),
        },
        takeable(turn(w, e, system).0, e) == Some(
            ControlNodeSystemInner::Cached(system.handle(w)),
        ),
        turn(w, e, system).0.systems == system.registered(w).systems,
        forall|x: Entity|
            w.contains(x) ==> (#[trigger] turn(w, e, system).0.state(x)).root == w.state(x).root
                && turn(w, e, system).0.has_control(x) == w.has_control(x) && (x != e ==> turn(
                w,
                e,
                system,
            ).0.state(x).control == w.state(x).control),
{
    let emptied = with_slot(w, e, None);
    let registered = system.registered(emptied);
    lemma_alike_with_slot(w, e, None);
    assert(alike(registered, emptied));
    lemma_alike_chain(registered, emptied, w);
    w.lemma_same_tree_wf(emptied);
    lemma_run_step_frame(system, emptied, e);
    let ran = system.run_step(emptied, e).0;
    let restored = turn(w, e, system).0;
    assert(ran.state(e).control == emptied.state(e).control);
    lemma_alike_with_slot(ran, e, Some(ControlNodeSystemInner::Cached(system.handle(w))));
    ran.lemma_same_tree_wf(restored);
    w.lemma_same_tree_chain(emptied, ran);
    w.lemma_same_tree_chain(ran, restored);
    match turn_evaluator(w, e, system) {
        Some(evaluator) => {
            assert(system.run_step(emptied, e) == evaluate(evaluator, registered, e));
            lemma_evaluate_alike(evaluator, registered, w, e);
            lemma_alike_chain(restored, ran, evaluate(evaluator, w, e).0);
        },
        None => {
            assert(ran == registered);
            lemma_alike_chain(restored, ran, w);
        },
    }
    assert forall|x: Entity| w.contains(x) implies (#[trigger] restored.state(x)).root == w.state(
        x,
    ).root && restored.has_control(x) == w.has_control(x) && (x != e ==> restored.state(x).control
        == w.state(x).control) by {
        assert(ran.state(x).control == emptied.state(x).control);
        assert(ran.state(x).root == emptied.state(x).root);
    }
}

} // verus!
