//! Why the walk of a tick keeps a world orderly: what holds of the work
//! stack and of the parents on record from step to step.

use vstd::prelude::*;
use crate::node::{Entity, NodeResult};
use crate::order::{lemma_active_above_below, orderly, pointed, ready, tidy, tidy_at};
use crate::order_steps::{changed_below, kept, lemma_turn_keeps_order};
use crate::paths::children_inactive;
use crate::tick::{
    frontier,
    has_active_child,
    lemma_frontier_is_active,
    parents_at_start,
    recorded,
    takeable,
    turn,
    walk,
    walk_step,
    Step,
};
use crate::time_limit::{
    in_subtree,
    lemma_in_subtree_not_before,
    lemma_in_subtree_same_tree,
    lemma_in_subtree_split,
};
use crate::world::WorldView;

verus! {

/// What lies below a node lies below all that the node lies below.
pub proof fn lemma_in_subtree_chain(w: WorldView, a: Entity, b: Entity, c: Entity)
    requires
        in_subtree(w, a, b),
        in_subtree(w, b, c),
    ensures
        in_subtree(w, a, c),
    decreases c.0,
{
    if c != b && c != a {
        lemma_in_subtree_chain(w, a, b, w.parent(c).unwrap());
    }
}

/// In a tidy world, below an active node, every node above an active node
/// is active.
pub proof fn lemma_active_up(w: WorldView, p: Entity, c: Entity, x: Entity)
    requires
        tidy(w),
        w.is_active(p),
        w.contains(c),
        w.parent(c) == Some(p),
        p.0 < c.0,
        in_subtree(w, c, x),
        w.is_active(x),
    ensures
        w.is_active(c),
    decreases x.0,
{
    if x != c {
        assert(tidy_at(w, x));
        assert(in_subtree(w, p, p));
        assert(in_subtree(w, p, c));
        lemma_in_subtree_chain(w, p, c, x);
        lemma_in_subtree_not_before(w, c, x);
        lemma_active_above_below(w, p, x);
        lemma_active_up(w, p, c, w.parent(x).unwrap());
    }
}

/// The parents on record are sound: a parent is on record for none but a
/// node that is no root, and is the parent of that node.
pub open spec fn record_sound(w: WorldView, parents: Seq<Option<Entity>>) -> bool {
    &&& parents.len() == w.nodes.len()
    &&& forall|n: Entity|
        w.contains(n) ==> (#[trigger] recorded(parents, n) matches Some(p) ==> w.parent(n) == Some(
            p,
        ) && w.state(n).root is None)
}

/// The way up from `x` is on record at `a`: where `a` is `x` or lies above
/// it, is active and is no root, its parent is on record.
pub open spec fn covered(w: WorldView, parents: Seq<Option<Entity>>, x: Entity, a: Entity) -> bool {
    in_subtree(w, a, x) && w.is_active(a) && w.state(a).root is None ==> recorded(parents, a)
        == w.parent(a)
}

/// The way up from `x` is on record.
pub open spec fn record_covers(w: WorldView, parents: Seq<Option<Entity>>, x: Entity) -> bool {
    forall|a: Entity| w.contains(a) ==> #[trigger] covered(w, parents, x, a)
}

/// The work of the walk is in order: the parents on record are sound, every
/// node on the stack is ready for its turn with its way up on record, and no
/// node on the stack lies below another.
pub open spec fn held(w: WorldView, stack: Seq<Entity>, parents: Seq<Option<Entity>>) -> bool {
    &&& record_sound(w, parents)
    &&& forall|i: int|
        0 <= i < stack.len() ==> w.contains(#[trigger] stack[i]) && ready(w, stack[i])
            && record_covers(w, parents, stack[i])
    &&& forall|i: int, j: int|
        0 <= i < stack.len() && 0 <= j < stack.len() && i != j ==> !in_subtree(
            w,
            #[trigger] stack[i],
            #[trigger] stack[j],
        )
}

/// The work below the top of the stack stays in order where the world
/// changes at the top node and below it only.
pub proof fn lemma_held_outside(
    w: WorldView,
    after: WorldView,
    stack: Seq<Entity>,
    parents: Seq<Option<Entity>>,
)
    requires
        w.wf(),
        stack.len() > 0,
        held(w, stack, parents),
        changed_below(w, after, stack.last()),
    ensures
        held(after, stack.drop_last(), parents),
{
    let t = stack.last();
    let rest = stack.drop_last();
    assert forall|n: Entity| after.contains(n) implies (#[trigger] recorded(parents, n) matches Some(
        p,
    ) ==> after.parent(n) == Some(p) && after.state(n).root is None) by {
        assert(kept(w, after, t, n));
    }
    assert forall|i: int| 0 <= i < rest.len() implies after.contains(#[trigger] rest[i]) && ready(
        after,
        rest[i],
    ) && record_covers(after, parents, rest[i]) by {
        let x = rest[i];
        assert(x == stack[i]);
        assert(!in_subtree(w, t, stack[i]));
        assert(!in_subtree(w, stack[i], stack[stack.len() - 1]));
        lemma_ready_outside(w, after, t, x);
        assert forall|a: Entity| after.contains(a) implies #[trigger] covered(
            after,
            parents,
            x,
            a,
        ) by {
            assert(covered(w, parents, x, a));
            assert(kept(w, after, t, a));
            lemma_in_subtree_same_tree(w, after, a, x);
            if in_subtree(w, a, x) && in_subtree(w, t, a) {
                lemma_in_subtree_chain(w, t, a, x);
            }
        }
    }
    assert forall|i: int, j: int|
        0 <= i < rest.len() && 0 <= j < rest.len() && i != j implies !in_subtree(
        after,
        #[trigger] rest[i],
        #[trigger] rest[j],
    ) by {
        assert(!in_subtree(w, stack[i], stack[j]));
        lemma_in_subtree_same_tree(w, after, rest[i], rest[j]);
    }
}

/// A node that neither lies below `t` nor above it stays ready where the
/// world changes at `t` and below it only.
pub proof fn lemma_ready_outside(w: WorldView, after: WorldView, t: Entity, x: Entity)
    requires
        w.wf(),
        w.contains(x),
        ready(w, x),
        changed_below(w, after, t),
        !in_subtree(w, t, x),
        !in_subtree(w, x, t),
    ensures
        ready(after, x),
{
    assert(kept(w, after, t, x));
    assert(w.node_wf(x.0 as int));
    assert forall|k: int|
        0 <= k < after.children(x).len() && after.is_active(
            #[trigger] after.children(x)[k],
        ) implies after.state(after.children(x)[k]).control is None by {
        let m = w.children(x)[k];
        assert(kept(w, after, t, m));
        assert(w.parent(m) == Some(x));
        if in_subtree(w, t, m) {
            if m == t {
                assert(in_subtree(w, x, x));
                assert(in_subtree(w, x, t));
            }
        }
        assert(w.is_active(w.children(x)[k]));
    }
}

/// The work stays in order where the node on top of the stack hands over
/// to its parent on record, after a turn that changed nothing but that node
/// and what lies below it, and left the node inactive or without an
/// evaluator slot.
pub proof fn lemma_held_hands_over(
    w: WorldView,
    after: WorldView,
    stack: Seq<Entity>,
    parents: Seq<Option<Entity>>,
    p: Entity,
)
    requires
        w.wf(),
        tidy(w),
        stack.len() > 0,
        held(w, stack, parents),
        changed_below(w, after, stack.last()),
        recorded(parents, stack.last()) == Some(p),
        after.is_active(stack.last()) ==> after.state(stack.last()).control is None,
    ensures
        held(after, stack.drop_last().push(p), parents),
{
    let t = stack.last();
    let rest = stack.drop_last();
    let work = rest.push(p);
    lemma_held_outside(w, after, stack, parents);
    assert(t == stack[stack.len() - 1]);
    assert(w.contains(t) && ready(w, t) && record_covers(w, parents, t));
    assert(w.parent(t) == Some(p) && w.state(t).root is None);
    assert(w.node_wf(t.0 as int));
    assert(w.node_wf(p.0 as int));
    assert(tidy_at(w, t));
    assert(tidy_at(w, p));
    assert(w.is_active(p));
    assert(in_subtree(w, p, p));
    assert(in_subtree(w, p, t));
    let at = choose|k: int| 0 <= k < w.children(p).len() && w.children(p)[k] == t;
    assert(w.children(p)[at] == t);
    assert(pointed(w.state(p)) == Some(at));
    if in_subtree(w, t, p) {
        lemma_in_subtree_not_before(w, t, p);
    }
    assert(kept(w, after, t, p));
    // The parent is ready: its only active child was the node on top.
    assert forall|k: int|
        0 <= k < after.children(p).len() && after.is_active(
            #[trigger] after.children(p)[k],
        ) implies after.state(after.children(p)[k]).control is None by {
        let m = w.children(p)[k];
        assert(kept(w, after, t, m));
        if m != t {
            assert(w.parent(m) == Some(p));
            assert(!in_subtree(w, t, m));
            assert(w.is_active(w.children(p)[k]));
            assert(k == at);
        }
    }
    // Its way up is that of the node on top.
    assert forall|a: Entity| after.contains(a) implies #[trigger] covered(after, parents, p, a) by {
        assert(covered(w, parents, t, a));
        assert(kept(w, after, t, a));
        lemma_in_subtree_same_tree(w, after, a, p);
        if in_subtree(w, a, p) {
            lemma_in_subtree_chain(w, a, p, t);
            if in_subtree(w, t, a) {
                lemma_in_subtree_chain(w, t, a, p);
            }
        }
    }
    // No other node on the stack lies below it or above it.
    assert forall|i: int| 0 <= i < rest.len() implies !in_subtree(after, rest[i], p) && !in_subtree(
        after,
        p,
        #[trigger] rest[i],
    ) by {
        let x = rest[i];
        assert(x == stack[i]);
        assert(!in_subtree(w, stack[i], stack[stack.len() - 1]));
        assert(!in_subtree(w, stack[stack.len() - 1], stack[i]));
        assert(w.contains(x) && ready(w, x));
        lemma_in_subtree_same_tree(w, after, x, p);
        lemma_in_subtree_same_tree(w, after, p, x);
        if in_subtree(w, x, p) {
            lemma_in_subtree_chain(w, x, p, t);
        }
        if in_subtree(w, p, x) {
            lemma_in_subtree_split(w, p, x);
            let j = choose|j: int|
                0 <= j < w.children(p).len() && in_subtree(w, #[trigger] w.children(p)[j], x);
            let c = w.children(p)[j];
            lemma_active_up(w, p, c, x);
            assert(w.is_active(w.children(p)[j]));
            assert(j == at);
        }
    }
    assert forall|i: int|
        0 <= i < work.len() implies after.contains(#[trigger] work[i]) && ready(after, work[i])
            && record_covers(after, parents, work[i]) by {
        if i < rest.len() {
            assert(work[i] == rest[i]);
        }
    }
    assert forall|i: int, j: int|
        0 <= i < work.len() && 0 <= j < work.len() && i != j implies !in_subtree(
        after,
        #[trigger] work[i],
        #[trigger] work[j],
    ) by {
        if i < rest.len() && j < rest.len() {
            assert(!in_subtree(after, rest[i], rest[j]));
        } else if i < rest.len() {
            assert(!in_subtree(after, rest[i], p));
        } else {
            assert(!in_subtree(after, p, rest[j]));
        }
    }
}

/// The work stays in order where the node on top of the stack queues a
/// child that it has just activated, none of whose children is active, and
/// the node is put on record as the parent of that child.
pub proof fn lemma_held_queues(
    w: WorldView,
    after: WorldView,
    stack: Seq<Entity>,
    parents: Seq<Option<Entity>>,
    q: Entity,
)
    requires
        w.wf(),
        stack.len() > 0,
        held(w, stack, parents),
        changed_below(w, after, stack.last()),
        w.contains(q),
        w.parent(q) == Some(stack.last()),
        w.state(q).root is None,
        after.is_active(q),
        children_inactive(after, q),
    ensures
        held(after, stack.drop_last().push(q), parents.update(q.0 as int, Some(stack.last()))),
{
    let t = stack.last();
    let rest = stack.drop_last();
    let work = rest.push(q);
    let known = parents.update(q.0 as int, Some(t));
    lemma_held_outside(w, after, stack, parents);
    assert(t == stack[stack.len() - 1]);
    assert(w.contains(t) && ready(w, t) && record_covers(w, parents, t));
    assert(w.node_wf(q.0 as int));
    assert(in_subtree(w, t, t));
    assert(in_subtree(w, t, q));
    assert(kept(w, after, t, q));
    assert forall|n: Entity| after.contains(n) implies (#[trigger] recorded(known, n) matches Some(
        p,
    ) ==> after.parent(n) == Some(p) && after.state(n).root is None) by {
        if n != q {
            assert(recorded(known, n) == recorded(parents, n));
        }
    }
    assert forall|a: Entity| after.contains(a) implies #[trigger] covered(after, known, q, a) by {
        assert(covered(w, parents, t, a));
        assert(kept(w, after, t, a));
        lemma_in_subtree_same_tree(w, after, a, q);
        if a != q && in_subtree(w, a, q) {
            assert(in_subtree(w, a, t));
            assert(recorded(known, a) == recorded(parents, a));
            if a != t && in_subtree(w, t, a) {
                lemma_in_subtree_not_before(w, t, a);
                lemma_in_subtree_not_before(w, a, t);
            }
        }
    }
    assert forall|i: int| 0 <= i < rest.len() implies !in_subtree(after, rest[i], q) && !in_subtree(
        after,
        q,
        #[trigger] rest[i],
    ) && record_covers(after, known, rest[i]) by {
        let x = rest[i];
        assert(x == stack[i]);
        assert(!in_subtree(w, stack[i], stack[stack.len() - 1]));
        assert(!in_subtree(w, stack[stack.len() - 1], stack[i]));
        lemma_in_subtree_same_tree(w, after, x, q);
        lemma_in_subtree_same_tree(w, after, q, x);
        if in_subtree(w, q, x) {
            lemma_in_subtree_chain(w, t, q, x);
        }
        assert(record_covers(after, parents, rest[i]));
        assert forall|a: Entity| after.contains(a) implies #[trigger] covered(after, known, x, a) by {
            assert(covered(after, parents, x, a));
            lemma_in_subtree_same_tree(w, after, a, x);
            if a == q && in_subtree(w, q, x) {
                lemma_in_subtree_chain(w, t, q, x);
            }
        }
    }
    assert forall|i: int|
        0 <= i < work.len() implies after.contains(#[trigger] work[i]) && ready(after, work[i])
            && record_covers(after, known, work[i]) by {
        if i < rest.len() {
            assert(work[i] == rest[i]);
        }
    }
    assert forall|i: int, j: int|
        0 <= i < work.len() && 0 <= j < work.len() && i != j implies !in_subtree(
        after,
        #[trigger] work[i],
        #[trigger] work[j],
    ) by {
        if i < rest.len() && j < rest.len() {
            assert(!in_subtree(after, rest[i], rest[j]));
        } else if i < rest.len() {
            assert(!in_subtree(after, rest[i], q));
        } else {
            assert(!in_subtree(after, q, rest[j]));
        }
    }
}

/// A step of the walk keeps an orderly world orderly and the work of the
/// walk in order.
pub proof fn lemma_walk_step_keeps_order(
    w: WorldView,
    stack: Seq<Entity>,
    parents: Seq<Option<Entity>>,
)
    requires
        w.wf(),
        orderly(w),
        held(w, stack, parents),
        stack.len() > 0,
    ensures
        match walk_step(w, stack, parents) {
            Step::Next(next, work, known) => next.wf() && orderly(next) && held(next, work, known),
            Step::Failed(left, _) => left.wf() && orderly(left),
        },
{
    let t = stack.last();
    assert(t == stack[stack.len() - 1]);
    assert(w.contains(t) && ready(w, t));
    match takeable(w, t) {
        None => {
            assert(w.state(t).control is None);
            if let Some(p) = recorded(parents, t) {
                assert forall|n: Entity| w.contains(n) implies #[trigger] kept(w, w, t, n) by {}
                lemma_held_hands_over(w, w, stack, parents, p);
            }
        },
        Some(system) => {
            lemma_turn_keeps_order(w, t);
            let after = turn(w, t, system).0;
            match turn(w, t, system).1 {
                Err(_) => {},
                Ok(NodeResult::QueueNode(q)) => {
                    if after.has_control(q) {
                        lemma_held_queues(w, after, stack, parents, q);
                    } else {
                        lemma_held_outside(w, after, stack, parents);
                    }
                },
                Ok(NodeResult::Complete) => {
                    match recorded(parents, t) {
                        Some(p) => {
                            lemma_held_hands_over(w, after, stack, parents, p);
                        },
                        None => {
                            lemma_held_outside(w, after, stack, parents);
                        },
                    }
                },
                Ok(NodeResult::Continue) => {
                    lemma_held_outside(w, after, stack, parents);
                },
            }
        },
    }
}

/// The walk keeps an orderly world orderly, however it ends.
pub proof fn lemma_walk_keeps_order(
    w: WorldView,
    stack: Seq<Entity>,
    parents: Seq<Option<Entity>>,
    steps: nat,
)
    requires
        w.wf(),
        orderly(w),
        held(w, stack, parents),
    ensures
        orderly(walk(w, stack, parents, steps).0),
    decreases steps,
{
    if stack.len() > 0 && steps > 0 {
        lemma_walk_step_keeps_order(w, stack, parents);
        match walk_step(w, stack, parents) {
            Step::Next(next, work, known) => {
                lemma_walk_keeps_order(next, work, known, (steps - 1) as nat);
            },
            Step::Failed(_, _) => {},
        }
    }
}

/// The nodes of the frontier are listed in the order of their handles.
pub proof fn lemma_frontier_sorted(w: WorldView, n: nat, i: int, j: int)
    requires
        0 <= i < j < frontier(w, n).len(),
        n <= usize::MAX,
    ensures
        frontier(w, n)[i].0 < frontier(w, n)[j].0,
    decreases n,
{
    if n > 0 {
        let rest = frontier(w, (n - 1) as nat);
        if j < rest.len() {
            lemma_frontier_sorted(w, (n - 1) as nat, i, j);
        } else {
            lemma_frontier_is_active(w, (n - 1) as nat, i);
            assert(frontier(w, n) == rest.push(Entity((n - 1) as usize)));
        }
    }
}

/// At the start of a tick in a tidy world the work of the walk is in
/// order.
pub proof fn lemma_held_at_start(w: WorldView)
    requires
        w.wf(),
        tidy(w),
    ensures
        held(w, frontier(w, w.nodes.len()), parents_at_start(w)),
{
    let stack = frontier(w, w.nodes.len());
    let parents = parents_at_start(w);
    assert forall|i: int| 0 <= i < stack.len() implies w.contains(#[trigger] stack[i]) && ready(
        w,
        stack[i],
    ) && record_covers(w, parents, stack[i]) by {
        lemma_frontier_is_active(w, w.nodes.len(), i);
        let x = stack[i];
        assert forall|k: int|
            0 <= k < w.children(x).len() && w.is_active(
                #[trigger] w.children(x)[k],
            ) implies w.state(w.children(x)[k]).control is None by {
            assert(has_active_child(w, x));
        }
    }
    assert forall|i: int, j: int|
        0 <= i < stack.len() && 0 <= j < stack.len() && i != j implies !in_subtree(
        w,
        #[trigger] stack[i],
        #[trigger] stack[j],
    ) by {
        lemma_frontier_is_active(w, w.nodes.len(), i);
        lemma_frontier_is_active(w, w.nodes.len(), j);
        if i < j {
            lemma_frontier_sorted(w, w.nodes.len(), i, j);
        } else {
            lemma_frontier_sorted(w, w.nodes.len(), j, i);
        }
        let top = stack[i];
        let low = stack[j];
        if in_subtree(w, top, low) {
            lemma_in_subtree_split(w, top, low);
            let k = choose|k: int|
                0 <= k < w.children(top).len() && in_subtree(w, #[trigger] w.children(top)[k], low);
            assert(w.node_wf(top.0 as int));
            lemma_active_up(w, top, w.children(top)[k], low);
            assert(w.is_active(w.children(top)[k]));
        }
    }
}

} // verus!
