//! Finding the entity that a tree decides for, from any of its nodes.

use vstd::prelude::*;
use crate::node::{Entity, Error};
use crate::world::{World, WorldView};

verus! {

/// The target of the tree that `e` belongs to: that of `e` itself where it
/// is a root, else that of the nearest root above it. `None` where `e` is
/// not there or the way up ends without a root.
pub open spec fn target_of(w: WorldView, e: Entity) -> Option<Entity>
    decreases e.0,
{
    if !w.contains(e) {
        None
    } else if let Some(root) = w.state(e).root {
        Some(root.target)
    } else if let Some(p) = w.parent(e) {
        if p.0 < e.0 {
            target_of(w, p)
        } else {
            None
        }
    } else {
        None
    }
}

/// The way up from `e`: `e` itself, its parent, and so on to the top.
pub open spec fn path_up(w: WorldView, e: Entity) -> Seq<Entity>
    decreases e.0,
{
    if !w.contains(e) {
        Seq::empty()
    } else if let Some(p) = w.parent(e) {
        if p.0 < e.0 {
            seq![e] + path_up(w, p)
        } else {
            seq![e]
        }
    } else {
        seq![e]
    }
}

/// Resolves targets in one world.
pub struct AiTarget<'a> {
    pub world: &'a World,
}

impl<'a> AiTarget<'a> {
    /// A resolver for the trees of `world`.
    pub fn new(world: &'a World) -> (r: AiTarget<'a>)
        ensures
            r.world == world,
    {
        AiTarget { world }
    }

    /// Returns the target entity of the behavior tree that `entity` is part
    /// of, and `Error::NoRoot` where no node on the way up is a root.
    pub fn get_target(&self, entity: Entity) -> (r: Result<Entity, Error>)
        requires
            self.world@.wf(),
        ensures
            r == match target_of(self.world@, entity) {
                Some(t) => Ok::<Entity, Error>(t),
                None => Err(Error::NoRoot),
            },
    {
        let mut current = entity;
        loop
            invariant
                self.world@.wf(),
                target_of(self.world@, current) == target_of(self.world@, entity),
            decreases current.0,
        {
            match self.world.state(current) {
                Some(state) => {
                    if let Some(root) = state.root {
                        return Ok(root.target);
                    }
                },
                None => {
                    return Err(Error::NoRoot);
                },
            }
            match self.world.parent(current) {
                Some(p) => {
                    assert(self.world@.node_wf(current.0 as int));
                    current = p;
                },
                None => {
                    return Err(Error::NoRoot);
                },
            }
        }
    }
}

/// From the root of a tree the target is the one that the root records.
pub proof fn lemma_target_at_root(w: WorldView, e: Entity)
    requires
        w.contains(e),
        w.state(e).root is Some,
    ensures
        target_of(w, e) == Some(w.state(e).root.unwrap().target),
{
}

/// A node that is no root has the target of its parent.
pub proof fn lemma_target_through_parent(w: WorldView, e: Entity)
    requires
        w.wf(),
        w.contains(e),
        w.state(e).root is None,
        w.parent(e) is Some,
    ensures
        target_of(w, e) == target_of(w, w.parent(e).unwrap()),
{
    assert(w.node_wf(e.0 as int));
}

/// The target is the one recorded by the first root on the way up, and
/// there is a target exactly where there is a root on the way up.
pub proof fn lemma_target_is_nearest_root(w: WorldView, e: Entity)
    requires
        w.wf(),
    ensures
        target_of(w, e) is Some <==> exists|k: int|
            0 <= k < path_up(w, e).len() && w.state(#[trigger] path_up(w, e)[k]).root is Some,
        forall|k: int|
            #![trigger path_up(w, e)[k]]
            0 <= k < path_up(w, e).len() && w.state(path_up(w, e)[k]).root is Some && (forall|
                j: int,
            |
                0 <= j < k ==> w.state(#[trigger] path_up(w, e)[j]).root is None) ==> target_of(
                w,
                e,
            ) == Some(w.state(path_up(w, e)[k]).root.unwrap().target),
        forall|k: int| 0 <= k < path_up(w, e).len() ==> w.contains(#[trigger] path_up(w, e)[k]),
    decreases e.0,
{
    let path = path_up(w, e);
    if w.contains(e) {
        assert(w.node_wf(e.0 as int));
        assert(path[0] == e);
        if let Some(p) = w.parent(e) {
            lemma_target_is_nearest_root(w, p);
            let rest = path_up(w, p);
            assert(path == seq![e] + rest);
            assert forall|k: int| 1 <= k < path.len() implies path[k] == rest[k - 1] by {}
            if w.state(e).root is None {
                if target_of(w, p) is Some {
                    let k = choose|k: int|
                        0 <= k < rest.len() && w.state(#[trigger] rest[k]).root is Some;
                    assert(path[k + 1] == rest[k]);
                }
                if exists|k: int| 0 <= k < path.len() && w.state(#[trigger] path[k]).root is Some {
                    let k = choose|k: int|
                        0 <= k < path.len() && w.state(#[trigger] path[k]).root is Some;
                    assert(k >= 1);
                    assert(rest[k - 1] == path[k]);
                }
                assert forall|k: int|
                    #![trigger path[k]]
                    0 <= k < path.len() && w.state(path[k]).root is Some && (forall|j: int|
                        0 <= j < k ==> w.state(#[trigger] path[j]).root is None) implies target_of(
                    w,
                    e,
                ) == Some(w.state(path[k]).root.unwrap().target) by {
                    assert(k >= 1);
                    assert(rest[k - 1] == path[k]);
                    assert forall|j: int| 0 <= j < k - 1 implies w.state(
                        #[trigger] rest[j],
                    ).root is None by {
                        assert(path[j + 1] == rest[j]);
                    }
                }
            } else {
                assert forall|k: int|
                    #![trigger path[k]]
                    0 <= k < path.len() && w.state(path[k]).root is Some && (forall|j: int|
                        0 <= j < k ==> w.state(#[trigger] path[j]).root is None) implies target_of(
                    w,
                    e,
                ) == Some(w.state(path[k]).root.unwrap().target) by {
                    if k > 0 {
                        assert(w.state(path[0]).root is None);
                    }
                }
            }
        } else {
            assert(path =~= seq![e]);
        }
    }
}

} // verus!
