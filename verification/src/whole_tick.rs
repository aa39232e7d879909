//! Whole evaluations of a world in which one path is active: what the
//! reference control nodes make of one tick, from the frontier to the end of
//! the walk.

use vstd::prelude::*;
use crate::alike::{alike, lemma_alike_reads, lemma_turn_cases};
use crate::dispatch::{evaluate, lemma_evaluate_is_step};
use crate::leaf::LeafNodeResult;
use crate::node::{
    ControlNodeSystemInner,
    Entity,
    Error,
    Evaluator,
    NodeResult,
    SequenceNode,
    TimeLimitNode,
    TimeLimitState,
};
use crate::sequence::{
    is_sequence_at,
    lemma_sequence_completes,
    lemma_sequence_moves_on,
    lemma_sequence_repeats,
    lemma_sequence_starts_at_first_child,
    sequence_step,
};
use crate::tick::{
    evaluation,
    frontier,
    has_active_child,
    is_frontier,
    parents_at_start,
    recorded,
    takeable,
    turn,
    walk,
    walk_step,
    Step,
};
use crate::time::{saturating_sum, TimeSpan};
use crate::time_limit::{
    in_subtree,
    is_time_limit_at,
    lemma_in_subtree_of_child,
    lemma_time_limit_child_completes,
    lemma_time_limit_continues,
    lemma_time_limit_expires,
    lemma_time_limit_starts_child,
    limit_idle,
    limit_running,
    limit_duration,
    limit_elapsed,
    time_limit_step,
};
use crate::world::WorldView;

verus! {

/// The slot of `e` holds `system`, by value or by a handle that the
/// registry knows, and the registry has room for one more.
pub open spec fn runs(w: WorldView, e: Entity, system: Evaluator) -> bool {
    &&& w.systems.len() < usize::MAX
    &&& match takeable(w, e) {
        Some(ControlNodeSystemInner::Uncached(held)) => held == system,
        Some(ControlNodeSystemInner::Cached(id)) => w.system(id) == Some(system),
        None => false,
    }
}

/// What a tick hands on to the next one: the same trees, the same roots
/// and the same nodes with an evaluator slot, a registry with one evaluator
/// more at most, and the slot of `s` holding its evaluator by handle, while
/// the registry has room.
pub open spec fn carried_over(w: WorldView, after: WorldView, s: Entity, system: Evaluator) -> bool {
    &&& after.wf()
    &&& w.same_tree(after)
    &&& forall|x: Entity|
        w.contains(x) ==> (#[trigger] after.state(x)).root == w.state(x).root && after.has_control(
            x,
        ) == w.has_control(x)
    &&& after.systems.len() <= w.systems.len() + 1
    &&& w.systems.len() + 1 < usize::MAX ==> runs(after, s, system)
}

/// The turn of a control node comes to what its evaluator makes of the
/// node: the same report, and a world that is alike.
pub proof fn lemma_turn_is_step(w: WorldView, e: Entity, system: Evaluator)
    requires
        w.wf(),
        runs(w, e, system),
    ensures
        turn(w, e, takeable(w, e).unwrap()).1 == evaluate(system, w, e).1,
        alike(turn(w, e, takeable(w, e).unwrap()).0, evaluate(system, w, e).0),
        carried_over(w, turn(w, e, takeable(w, e).unwrap()).0, e, system),
        evaluate(Evaluator::Sequence, w, e) == sequence_step(w, e),
        evaluate(Evaluator::TimeLimit, w, e) == time_limit_step(w, e),
{
    lemma_turn_cases(w, e, takeable(w, e).unwrap());
    lemma_evaluate_is_step(w, e);
}

/// No node is active but `a` and `b`.
pub open spec fn only_active(w: WorldView, a: Entity, b: Entity) -> bool {
    forall|e: Entity| #[trigger] w.is_active(e) ==> e == a || e == b
}

/// Where one node alone is on the frontier, the work of a tick starts with
/// that node alone.
pub proof fn lemma_frontier_single(w: WorldView, a: Entity, n: nat)
    requires
        is_frontier(w, a),
        forall|e: Entity| #[trigger] is_frontier(w, e) ==> e == a,
        n <= w.nodes.len() <= usize::MAX,
    ensures
        frontier(w, n) == if a.0 < n {
            seq![a]
        } else {
            Seq::<Entity>::empty()
        },
    decreases n,
{
    if n > 0 {
        lemma_frontier_single(w, a, (n - 1) as nat);
        let e = Entity((n - 1) as usize);
        if a.0 == n - 1 {
            assert(e == a);
            assert(Seq::<Entity>::empty().push(a) =~= seq![a]);
        } else {
            assert(!is_frontier(w, e));
        }
    }
}

/// The turn hands over to nobody: it ends the walk of a tree unless it
/// queues a control node or completes under a recorded parent.
pub open spec fn ends_walk(w: WorldView, e: Entity, after: WorldView, report: Result<NodeResult, Error>) -> bool {
    match report {
        Ok(NodeResult::QueueNode(queued)) => !after.has_control(queued),
        Ok(NodeResult::Complete) => recorded(parents_at_start(w), e) is None,
        _ => true,
    }
}

/// How a tick ends whose last turn gave `report`.
pub open spec fn tick_result(report: Result<NodeResult, Error>) -> Result<(), Error> {
    match report {
        Ok(_) => Ok(()),
        Err(error) => Err(error),
    }
}

/// A tick that finds a control node alone on the frontier is the turn of
/// that node, where the turn hands over to nobody.
pub proof fn lemma_tick_of_control_node(w: WorldView, s: Entity, steps: nat)
    requires
        w.wf(),
        is_frontier(w, s),
        forall|e: Entity| #[trigger] is_frontier(w, e) ==> e == s,
        takeable(w, s) is Some,
        ends_walk(
            w,
            s,
            turn(w, s, takeable(w, s).unwrap()).0,
            turn(w, s, takeable(w, s).unwrap()).1,
        ),
        steps >= 1,
    ensures
        evaluation(w, steps) == (
            turn(w, s, takeable(w, s).unwrap()).0,
            tick_result(turn(w, s, takeable(w, s).unwrap()).1),
        ),
{
    lemma_frontier_single(w, s, w.nodes.len());
    let stack = seq![s];
    let parents = parents_at_start(w);
    assert(stack.last() == s);
    assert(stack.drop_last() =~= Seq::<Entity>::empty());
    match walk_step(w, stack, parents) {
        Step::Next(next, work, known) => {
            assert(work.len() == 0);
            assert(walk(next, work, known, (steps - 1) as nat) == (next, Ok::<(), Error>(())));
        },
        Step::Failed(_, _) => {},
    }
}

/// A tick that finds a plain node alone on the frontier, under a control
/// node, is the turn of that control node, where the turn hands over to
/// nobody.
pub proof fn lemma_tick_of_leaf(w: WorldView, a: Entity, s: Entity, steps: nat)
    requires
        w.wf(),
        is_frontier(w, a),
        forall|e: Entity| #[trigger] is_frontier(w, e) ==> e == a,
        takeable(w, a) is None,
        w.state(a).root is None,
        w.parent(a) == Some(s),
        takeable(w, s) is Some,
        ends_walk(
            w,
            s,
            turn(w, s, takeable(w, s).unwrap()).0,
            turn(w, s, takeable(w, s).unwrap()).1,
        ),
        steps >= 2,
    ensures
        evaluation(w, steps) == (
            turn(w, s, takeable(w, s).unwrap()).0,
            tick_result(turn(w, s, takeable(w, s).unwrap()).1),
        ),
{
    lemma_frontier_single(w, a, w.nodes.len());
    let parents = parents_at_start(w);
    let first = seq![a];
    assert(first.last() == a);
    assert(first.drop_last() =~= Seq::<Entity>::empty());
    assert(recorded(parents, a) == Some(s));
    let second = Seq::<Entity>::empty().push(s);
    assert(walk_step(w, first, parents) == Step::Next(w, second, parents));
    assert(second.last() == s);
    assert(second.drop_last() =~= Seq::<Entity>::empty());
    assert(walk(w, first, parents, steps) == walk(w, second, parents, (steps - 1) as nat));
    match walk_step(w, second, parents) {
        Step::Next(next, work, known) => {
            assert(work.len() == 0);
            assert(walk(next, work, known, (steps - 2) as nat) == (next, Ok::<(), Error>(())));
        },
        Step::Failed(_, _) => {},
    }
}

/// The node at `s` has no parent on record at the start of a tick: it is
/// the root of its tree or has no parent at all.
pub open spec fn on_top(w: WorldView, s: Entity) -> bool {
    w.state(s).root is Some || w.parent(s) is None
}

/// A sequence that is active alone, before its first evaluation, starts:
/// after the tick its first child is active and no other child is.
pub proof fn lemma_tick_starts_sequence(w: WorldView, s: Entity, config: SequenceNode, steps: nat)
    requires
        w.wf(),
        runs(w, s, Evaluator::Sequence),
        is_sequence_at(w, s, config, None),
        w.is_active(s),
        only_active(w, s, s),
        w.children(s).len() > 0,
        !w.has_control(w.children(s)[0]),
        steps >= 1,
    ensures
        evaluation(w, steps).1 == Ok::<(), Error>(()),
        evaluation(w, steps).0.is_active(s),
        evaluation(w, steps).0.is_active(w.children(s)[0]),
        only_active(evaluation(w, steps).0, s, w.children(s)[0]),
        is_sequence_at(evaluation(w, steps).0, s, config, Some(0)),
        evaluation(w, steps).0.leaf_result(w.children(s)[0]) is Some,
        carried_over(w, evaluation(w, steps).0, s, Evaluator::Sequence),
{
    let first = w.children(s)[0];
    let expected = sequence_step(w, s).0;
    assert(w.node_wf(s.0 as int));
    lemma_alone_on_frontier(w, s);
    lemma_turn_is_step(w, s, Evaluator::Sequence);
    lemma_sequence_starts_at_first_child(w, s, config);
    let after = turn(w, s, takeable(w, s).unwrap()).0;
    lemma_alike_reads(after, expected, first);
    lemma_alike_reads(after, expected, s);
    lemma_tick_of_control_node(w, s, steps);
    assert forall|e: Entity| #[trigger] after.is_active(e) implies e == s || e == first by {
        lemma_alike_reads(after, expected, e);
        if e != s && e != first {
            assert(expected.contains(e) && w.contains(e));
            assert(w.is_active(e) || expected.state(e) != w.state(e));
        }
    }
}

/// A sequence whose current child has reported `Complete` moves on: after
/// the tick that child is inactive and the next one is active.
pub proof fn lemma_tick_moves_sequence_on(
    w: WorldView,
    s: Entity,
    config: SequenceNode,
    current: usize,
    steps: nat,
)
    requires
        w.wf(),
        runs(w, s, Evaluator::Sequence),
        is_sequence_at(w, s, config, Some(current)),
        current + 1 < w.children(s).len(),
        w.is_active(s),
        w.is_active(w.children(s)[current as int]),
        only_active(w, s, w.children(s)[current as int]),
        w.leaf_result(w.children(s)[current as int]) == Some(LeafNodeResult::Complete),
        w.state(w.children(s)[current as int]).root is None,
        !w.has_control(w.children(s)[current as int]),
        !w.has_control(w.children(s)[current + 1]),
        steps >= 2,
    ensures
        evaluation(w, steps).1 == Ok::<(), Error>(()),
        evaluation(w, steps).0.is_active(s),
        !evaluation(w, steps).0.is_active(w.children(s)[current as int]),
        evaluation(w, steps).0.is_active(w.children(s)[current + 1]),
        only_active(evaluation(w, steps).0, s, w.children(s)[current + 1]),
        is_sequence_at(evaluation(w, steps).0, s, config, Some((current + 1) as usize)),
        evaluation(w, steps).0.leaf_result(w.children(s)[current + 1]) is Some,
        carried_over(w, evaluation(w, steps).0, s, Evaluator::Sequence),
{
    let done = w.children(s)[current as int];
    let next = w.children(s)[current + 1];
    let expected = sequence_step(w, s).0;
    assert(w.node_wf(s.0 as int));
    lemma_leaf_on_frontier(w, s, done);
    lemma_turn_is_step(w, s, Evaluator::Sequence);
    lemma_sequence_moves_on(w, s, config, current);
    assert(next.0 > s.0 && done != next);
    assert(!w.is_active(next));
    let after = turn(w, s, takeable(w, s).unwrap()).0;
    lemma_alike_reads(after, expected, done);
    lemma_alike_reads(after, expected, next);
    lemma_alike_reads(after, expected, s);
    lemma_tick_of_leaf(w, done, s, steps);
    assert forall|e: Entity| #[trigger] after.is_active(e) implies e == s || e == next by {
        lemma_alike_reads(after, expected, e);
        if e != s && e != next {
            assert(expected.contains(e) && w.contains(e));
            assert(w.is_active(e) || expected.state(e) != w.state(e));
        }
    }
}

/// A sequence that does not repeat, on top of its tree, whose last child
/// has reported `Complete`, completes: after the tick neither the sequence
/// nor any of its children is active.
pub proof fn lemma_tick_completes_sequence(
    w: WorldView,
    s: Entity,
    config: SequenceNode,
    current: usize,
    steps: nat,
)
    requires
        w.wf(),
        runs(w, s, Evaluator::Sequence),
        is_sequence_at(w, s, config, Some(current)),
        !config.repeat,
        current + 1 == w.children(s).len(),
        on_top(w, s),
        w.is_active(s),
        w.is_active(w.children(s)[current as int]),
        only_active(w, s, w.children(s)[current as int]),
        w.leaf_result(w.children(s)[current as int]) == Some(LeafNodeResult::Complete),
        w.state(w.children(s)[current as int]).root is None,
        !w.has_control(w.children(s)[current as int]),
        steps >= 2,
    ensures
        evaluation(w, steps).1 == Ok::<(), Error>(()),
        forall|e: Entity| !evaluation(w, steps).0.is_active(e),
        is_sequence_at(evaluation(w, steps).0, s, config, None),
        carried_over(w, evaluation(w, steps).0, s, Evaluator::Sequence),
{
    let done = w.children(s)[current as int];
    let expected = sequence_step(w, s).0;
    assert(w.node_wf(s.0 as int));
    lemma_leaf_on_frontier(w, s, done);
    lemma_turn_is_step(w, s, Evaluator::Sequence);
    lemma_sequence_completes(w, s, config, current);
    let after = turn(w, s, takeable(w, s).unwrap()).0;
    lemma_alike_reads(after, expected, s);
    lemma_tick_of_leaf(w, done, s, steps);
    assert forall|e: Entity| !after.is_active(e) by {
        lemma_alike_reads(after, expected, e);
        if after.is_active(e) {
            assert(w.is_active(e));
        }
    }
}

/// A sequence that repeats, whose last child has reported `Complete`,
/// starts over: after the tick its first child is active again, and the
/// sequence with it.
pub proof fn lemma_tick_repeats_sequence(
    w: WorldView,
    s: Entity,
    config: SequenceNode,
    current: usize,
    steps: nat,
)
    requires
        w.wf(),
        runs(w, s, Evaluator::Sequence),
        is_sequence_at(w, s, config, Some(current)),
        config.repeat,
        current + 1 == w.children(s).len(),
        w.is_active(s),
        w.is_active(w.children(s)[current as int]),
        only_active(w, s, w.children(s)[current as int]),
        w.leaf_result(w.children(s)[current as int]) == Some(LeafNodeResult::Complete),
        w.state(w.children(s)[current as int]).root is None,
        !w.has_control(w.children(s)[current as int]),
        !w.has_control(w.children(s)[0]),
        steps >= 2,
    ensures
        evaluation(w, steps).1 == Ok::<(), Error>(()),
        evaluation(w, steps).0.is_active(s),
        evaluation(w, steps).0.is_active(w.children(s)[0]),
        only_active(evaluation(w, steps).0, s, w.children(s)[0]),
        is_sequence_at(evaluation(w, steps).0, s, config, Some(0)),
        evaluation(w, steps).0.leaf_result(w.children(s)[0]) is Some,
        carried_over(w, evaluation(w, steps).0, s, Evaluator::Sequence),
{
    let done = w.children(s)[current as int];
    let first = w.children(s)[0];
    let expected = sequence_step(w, s).0;
    assert(w.node_wf(s.0 as int));
    lemma_leaf_on_frontier(w, s, done);
    lemma_turn_is_step(w, s, Evaluator::Sequence);
    lemma_sequence_repeats(w, s, config, current);
    assert(first.0 > s.0);
    assert(first == done || !w.is_active(first));
    let after = turn(w, s, takeable(w, s).unwrap()).0;
    lemma_alike_reads(after, expected, first);
    lemma_alike_reads(after, expected, s);
    lemma_tick_of_leaf(w, done, s, steps);
    assert forall|e: Entity| #[trigger] after.is_active(e) implies e == s || e == first by {
        lemma_alike_reads(after, expected, e);
        if e != s && e != first {
            assert(expected.contains(e) && w.contains(e));
            assert(w.is_active(e) || expected.state(e) != w.state(e));
        }
    }
}

/// A time limit that is active alone, whose countdown does not end on this
/// tick, starts its child: after the tick the child is active.
pub proof fn lemma_tick_starts_time_limit(
    w: WorldView,
    t: Entity,
    config: TimeLimitNode,
    state: TimeLimitState,
    steps: nat,
)
    requires
        w.wf(),
        runs(w, t, Evaluator::TimeLimit),
        is_time_limit_at(w, t, config, state),
        state.timer is None || !state.child_activated,
        saturating_sum(limit_elapsed(state), w.delta.total()) < limit_duration(config, state),
        w.is_active(t),
        only_active(w, t, t),
        w.children(t).len() > 0,
        !w.has_control(w.children(t)[0]),
        w.leaf_result(w.children(t)[0]) != Some(LeafNodeResult::Complete),
        steps >= 1,
    ensures
        evaluation(w, steps).1 == Ok::<(), Error>(()),
        evaluation(w, steps).0.is_active(t),
        evaluation(w, steps).0.is_active(w.children(t)[0]),
        only_active(evaluation(w, steps).0, t, w.children(t)[0]),
        evaluation(w, steps).0.leaf_result(w.children(t)[0]) is Some,
        is_time_limit_at(
            evaluation(w, steps).0,
            t,
            config,
            limit_running(config, state, w.delta.total()),
        ),
        carried_over(w, evaluation(w, steps).0, t, Evaluator::TimeLimit),
{
    let child = w.children(t)[0];
    let expected = time_limit_step(w, t).0;
    assert(w.node_wf(t.0 as int));
    lemma_alone_on_frontier(w, t);
    lemma_turn_is_step(w, t, Evaluator::TimeLimit);
    lemma_time_limit_starts_child(w, t, config, state);
    let after = turn(w, t, takeable(w, t).unwrap()).0;
    lemma_alike_reads(after, expected, child);
    lemma_alike_reads(after, expected, t);
    lemma_tick_of_control_node(w, t, steps);
    assert forall|e: Entity| #[trigger] after.is_active(e) implies e == t || e == child by {
        lemma_alike_reads(after, expected, e);
        if e != t && e != child {
            assert(expected.contains(e) && w.contains(e));
            assert(w.is_active(e) || expected.state(e) != w.state(e));
        }
    }
}

/// A time limit on top of its tree whose child has reported `Complete`
/// completes before its deadline: after the tick neither of them is active,
/// and the countdown is dropped.
pub proof fn lemma_tick_completes_time_limit(
    w: WorldView,
    t: Entity,
    config: TimeLimitNode,
    state: TimeLimitState,
    steps: nat,
)
    requires
        w.wf(),
        runs(w, t, Evaluator::TimeLimit),
        is_time_limit_at(w, t, config, state),
        on_top(w, t),
        w.children(t).len() > 0,
        w.is_active(t),
        w.is_active(w.children(t)[0]),
        only_active(w, t, w.children(t)[0]),
        w.leaf_result(w.children(t)[0]) == Some(LeafNodeResult::Complete),
        w.state(w.children(t)[0]).root is None,
        !w.has_control(w.children(t)[0]),
        steps >= 2,
    ensures
        evaluation(w, steps).1 == Ok::<(), Error>(()),
        forall|e: Entity| !evaluation(w, steps).0.is_active(e),
        is_time_limit_at(evaluation(w, steps).0, t, config, limit_idle()),
        carried_over(w, evaluation(w, steps).0, t, Evaluator::TimeLimit),
{
    lemma_time_limit_child_completes(w, t, config, state);
    lemma_tick_ends_time_limit(w, t, config, steps);
}

/// A time limit on top of its tree whose countdown ends on this tick
/// completes, whatever its child reports: after the tick neither of them is
/// active, and the countdown is dropped.
pub proof fn lemma_tick_expires_time_limit(
    w: WorldView,
    t: Entity,
    config: TimeLimitNode,
    state: TimeLimitState,
    steps: nat,
)
    requires
        w.wf(),
        runs(w, t, Evaluator::TimeLimit),
        is_time_limit_at(w, t, config, state),
        on_top(w, t),
        w.children(t).len() > 0,
        saturating_sum(limit_elapsed(state), w.delta.total()) >= limit_duration(config, state),
        w.is_active(t),
        w.is_active(w.children(t)[0]),
        only_active(w, t, w.children(t)[0]),
        w.state(w.children(t)[0]).root is None,
        !w.has_control(w.children(t)[0]),
        steps >= 2,
    ensures
        evaluation(w, steps).1 == Ok::<(), Error>(()),
        forall|e: Entity| !evaluation(w, steps).0.is_active(e),
        is_time_limit_at(evaluation(w, steps).0, t, config, limit_idle()),
        carried_over(w, evaluation(w, steps).0, t, Evaluator::TimeLimit),
{
    lemma_time_limit_expires(w, t, config, state);
    lemma_tick_ends_time_limit(w, t, config, steps);
}

/// The tick on which a time limit on top of its tree completes, with its
/// child as the only other active node.
proof fn lemma_tick_ends_time_limit(w: WorldView, t: Entity, config: TimeLimitNode, steps: nat)
    requires
        w.wf(),
        runs(w, t, Evaluator::TimeLimit),
        on_top(w, t),
        w.children(t).len() > 0,
        w.is_active(t),
        w.is_active(w.children(t)[0]),
        only_active(w, t, w.children(t)[0]),
        w.state(w.children(t)[0]).root is None,
        !w.has_control(w.children(t)[0]),
        steps >= 2,
        time_limit_step(w, t).1 == Ok::<NodeResult, Error>(NodeResult::Complete),
        forall|n: Entity| in_subtree(w, t, n) ==> !time_limit_step(w, t).0.is_active(n),
        forall|n: Entity|
            w.contains(n) && !in_subtree(w, t, n) ==> time_limit_step(w, t).0.state(n) == w.state(
                n,
            ),
        is_time_limit_at(time_limit_step(w, t).0, t, config, limit_idle()),
    ensures
        evaluation(w, steps).1 == Ok::<(), Error>(()),
        forall|e: Entity| !evaluation(w, steps).0.is_active(e),
        is_time_limit_at(evaluation(w, steps).0, t, config, limit_idle()),
        carried_over(w, evaluation(w, steps).0, t, Evaluator::TimeLimit),
{
    let child = w.children(t)[0];
    let expected = time_limit_step(w, t).0;
    assert(w.node_wf(t.0 as int));
    lemma_leaf_on_frontier(w, t, child);
    lemma_turn_is_step(w, t, Evaluator::TimeLimit);
    let after = turn(w, t, takeable(w, t).unwrap()).0;
    lemma_alike_reads(after, expected, t);
    lemma_tick_of_leaf(w, child, t, steps);
    assert forall|e: Entity| !after.is_active(e) by {
        lemma_alike_reads(after, expected, e);
        if after.is_active(e) {
            assert(!in_subtree(w, t, e));
            assert(w.is_active(e));
            lemma_in_subtree_of_child(w, t, 0, child);
        }
    }
}

/// A time limit whose child runs and whose countdown does not end on this
/// tick continues: after the tick both are active as before, and the
/// countdown has run for the frame time more.
pub proof fn lemma_tick_continues_time_limit(
    w: WorldView,
    t: Entity,
    config: TimeLimitNode,
    state: TimeLimitState,
    steps: nat,
)
    requires
        w.wf(),
        runs(w, t, Evaluator::TimeLimit),
        is_time_limit_at(w, t, config, state),
        w.children(t).len() > 0,
        state.timer is Some,
        state.child_activated,
        saturating_sum(limit_elapsed(state), w.delta.total()) < limit_duration(config, state),
        w.is_active(t),
        w.is_active(w.children(t)[0]),
        only_active(w, t, w.children(t)[0]),
        w.leaf_result(w.children(t)[0]) != Some(LeafNodeResult::Complete),
        w.state(w.children(t)[0]).root is None,
        !w.has_control(w.children(t)[0]),
        steps >= 2,
    ensures
        evaluation(w, steps).1 == Ok::<(), Error>(()),
        evaluation(w, steps).0.is_active(t),
        evaluation(w, steps).0.is_active(w.children(t)[0]),
        only_active(evaluation(w, steps).0, t, w.children(t)[0]),
        carried_over(w, evaluation(w, steps).0, t, Evaluator::TimeLimit),
        evaluation(w, steps).0.leaf_result(w.children(t)[0]) == w.leaf_result(w.children(t)[0]),
        is_time_limit_at(
            evaluation(w, steps).0,
            t,
            config,
            limit_running(config, state, w.delta.total()),
        ),
        limit_elapsed(limit_running(config, state, w.delta.total())) == saturating_sum(
            limit_elapsed(state),
            w.delta.total(),
        ),
{
    let child = w.children(t)[0];
    let expected = time_limit_step(w, t).0;
    assert(w.node_wf(t.0 as int));
    lemma_leaf_on_frontier(w, t, child);
    lemma_turn_is_step(w, t, Evaluator::TimeLimit);
    lemma_time_limit_continues(w, t, config, state);
    let after = turn(w, t, takeable(w, t).unwrap()).0;
    lemma_alike_reads(after, expected, child);
    lemma_alike_reads(after, expected, t);
    lemma_tick_of_leaf(w, child, t, steps);
    assert forall|e: Entity| #[trigger] after.is_active(e) implies e == t || e == child by {
        lemma_alike_reads(after, expected, e);
        if e != t && e != child {
            assert(expected.contains(e) && w.contains(e));
            assert(w.is_active(e) || expected.state(e) != w.state(e));
        }
    }
    TimeSpan::lemma_total_of_from_total(saturating_sum(limit_elapsed(state), w.delta.total()));
}

/// A node that is active alone is alone on the frontier.
proof fn lemma_alone_on_frontier(w: WorldView, s: Entity)
    requires
        w.wf(),
        w.is_active(s),
        only_active(w, s, s),
    ensures
        is_frontier(w, s),
        forall|e: Entity| #[trigger] is_frontier(w, e) ==> e == s,
{
    assert(w.node_wf(s.0 as int));
    if has_active_child(w, s) {
        let k = choose|k: int|
            0 <= k < w.children(s).len() && w.is_active(#[trigger] w.children(s)[k]);
        assert(w.children(s)[k].0 > s.0);
    }
}

/// Where a plain child of `s` is the only active node besides `s`, that
/// child is alone on the frontier, with `s` as the parent on record.
proof fn lemma_leaf_on_frontier(w: WorldView, s: Entity, a: Entity)
    requires
        w.wf(),
        w.is_active(s),
        w.is_active(a),
        only_active(w, s, a),
        w.children(s).contains(a),
        !w.has_control(a),
    ensures
        is_frontier(w, a),
        forall|e: Entity| #[trigger] is_frontier(w, e) ==> e == a,
        takeable(w, a) is None,
        w.parent(a) == Some(s),
        a != s,
{
    assert(w.node_wf(s.0 as int));
    assert(w.node_wf(a.0 as int));
    let k = choose|k: int| 0 <= k < w.children(s).len() && w.children(s)[k] == a;
    assert(w.children(s)[k] == a);
    assert(a.0 > s.0);
    if has_active_child(w, a) {
        let j = choose|j: int|
            0 <= j < w.children(a).len() && w.is_active(#[trigger] w.children(a)[j]);
        assert(w.children(a)[j].0 > a.0);
    }
    assert(has_active_child(w, s));
}

} // verus!
