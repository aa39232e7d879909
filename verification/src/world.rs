//! The arena that holds the nodes of every tree, the registry of evaluators
//! and the time that the last frame took.

use vstd::prelude::*;
use crate::leaf::LeafNodeResult;
use crate::node::{Entity, Evaluator, NodeState, SystemId};
use crate::order::{
    lemma_empty_world_orderly,
    lemma_report_keeps_order,
    lemma_same_nodes_keep_order,
    lemma_spawned_keeps_order,
    lemma_started_keeps_order,
    orderly,
    spawns_in_order,
    starts_in_order,
};
use crate::time::TimeSpan;

verus! {

/// A node as contracts see it: its place in the tree and what it carries.
pub struct NodeView {
    pub parent: Option<Entity>,
    pub children: Seq<Entity>,
    pub state: NodeState,
}

/// A world as contracts see it.
pub struct WorldView {
    /// The nodes, each at the index that its handle holds.
    pub nodes: Seq<NodeView>,
    /// The registered evaluators, each at the index that its handle holds.
    pub systems: Seq<Evaluator>,
    /// The time that the last frame took.
    pub delta: TimeSpan,
}

impl WorldView {
    /// The entity names a node of this world.
    pub open spec fn contains(self, e: Entity) -> bool {
        e.0 < self.nodes.len()
    }

    /// What the node carries.
    pub open spec fn state(self, e: Entity) -> NodeState {
        self.nodes[e.0 as int].state
    }

    /// The parent of the node, where it has one.
    pub open spec fn parent(self, e: Entity) -> Option<Entity> {
        self.nodes[e.0 as int].parent
    }

    /// The children of the node, in their order.
    pub open spec fn children(self, e: Entity) -> Seq<Entity> {
        self.nodes[e.0 as int].children
    }

    /// The node is there and carries the active marker.
    pub open spec fn is_active(self, e: Entity) -> bool {
        self.contains(e) && self.state(e).active
    }

    /// The node is there and carries an evaluator slot, full or empty.
    pub open spec fn has_control(self, e: Entity) -> bool {
        self.contains(e) && self.state(e).control is Some
    }

    /// The leaf result of the node, where it is there and has one.
    pub open spec fn leaf_result(self, e: Entity) -> Option<LeafNodeResult> {
        if self.contains(e) {
            self.state(e).result
        } else {
            None
        }
    }

    /// The world with the state of one node replaced.
    pub open spec fn with_state(self, e: Entity, s: NodeState) -> WorldView {
        WorldView {
            nodes: self.nodes.update(
                e.0 as int,
                NodeView { state: s, ..self.nodes[e.0 as int] },
            ),
            ..self
        }
    }

    /// The world once `e` is active.
    pub open spec fn activate(self, e: Entity) -> WorldView {
        if self.contains(e) {
            self.with_state(e, self.state(e).activated())
        } else {
            self
        }
    }

    /// The world once `e` is inactive.
    pub open spec fn deactivate(self, e: Entity) -> WorldView {
        if self.contains(e) {
            self.with_state(e, self.state(e).deactivated())
        } else {
            self
        }
    }

    /// The world with one more registered evaluator.
    pub open spec fn register(self, system: Evaluator) -> WorldView {
        WorldView { systems: self.systems.push(system), ..self }
    }

    /// The evaluator behind a handle, where the handle is known.
    pub open spec fn system(self, id: SystemId) -> Option<Evaluator> {
        if id.0 < self.systems.len() {
            Some(self.systems[id.0 as int])
        } else {
            None
        }
    }

    /// The world after a node with the given parent and state has been
    /// spawned: the node stands last, its parent lists it as its last child,
    /// and a node that starts out active is treated as one that has just
    /// gained the marker.
    pub open spec fn spawned(self, parent: Option<Entity>, state: NodeState) -> WorldView {
        let id = Entity(self.nodes.len() as usize);
        let entered = if state.active {
            state.added_active()
        } else {
            state
        };
        let fresh = NodeView { parent, children: Seq::empty(), state: entered };
        let linked = match parent {
            Some(p) => self.nodes.update(
                p.0 as int,
                NodeView { children: self.nodes[p.0 as int].children.push(id), ..self.nodes[p.0 as int] },
            ),
            None => self.nodes,
        };
        WorldView { nodes: linked.push(fresh), ..self }
    }

    /// Both worlds hold the same trees: as many nodes, each with the same
    /// parent and the same children.
    pub open spec fn same_tree(self, other: WorldView) -> bool {
        &&& self.nodes.len() == other.nodes.len()
        &&& forall|i: int|
            0 <= i < self.nodes.len() ==> (#[trigger] self.nodes[i]).parent == other.nodes[i].parent
                && self.nodes[i].children == other.nodes[i].children
    }

    /// The links of node `i` are sound: a parent stands before its child and
    /// lists it, a child stands after its parent and names it. The children
    /// are listed in the order of their handles, each once, and can be
    /// counted in a `usize`.
    pub open spec fn node_wf(self, i: int) -> bool {
        let n = self.nodes[i];
        &&& n.children.len() <= usize::MAX
        &&& n.parent matches Some(p) ==> p.0 < i && self.nodes[p.0 as int].children.contains(
            Entity(i as usize),
        )
        &&& forall|k: int|
            0 <= k < n.children.len() ==> i < (#[trigger] n.children[k]).0 < self.nodes.len()
                && self.nodes[n.children[k].0 as int].parent == Some(Entity(i as usize))
        &&& forall|j: int, k: int|
            0 <= j < k < n.children.len() ==> (#[trigger] n.children[j]).0 < (
            #[trigger] n.children[k]).0
    }

    /// The links of every node are sound.
    pub open spec fn wf(self) -> bool {
        &&& self.nodes.len() <= usize::MAX
        &&& forall|i: int| 0 <= i < self.nodes.len() ==> #[trigger] self.node_wf(i)
    }

    /// Spawning under a node that is there keeps the links of every node
    /// sound.
    pub proof fn lemma_spawned_node_wf(self, parent: Option<Entity>, state: NodeState, i: int)
        requires
            self.wf(),
            self.nodes.len() < usize::MAX,
            parent matches Some(p) ==> self.contains(p) && self.children(p).len() < usize::MAX,
            0 <= i <= self.nodes.len(),
        ensures
            self.spawned(parent, state).node_wf(i),
    {
        let after = self.spawned(parent, state);
        let n = self.nodes.len() as int;
        let id = Entity(n as usize);
        let node = after.nodes[i];
        if i < n {
            assert(self.node_wf(i));
            if let Some(q) = node.parent {
                let listed = self.nodes[q.0 as int].children;
                let k = choose|k: int| 0 <= k < listed.len() && listed[k] == Entity(i as usize);
                assert(after.nodes[q.0 as int].children[k] == Entity(i as usize));
            }
            assert forall|k: int| 0 <= k < node.children.len() implies i < (
            #[trigger] node.children[k]).0 < after.nodes.len() && after.nodes[node.children[k].0 as int].parent
                == Some(Entity(i as usize)) by {
                if k < self.nodes[i].children.len() {
                    let c = self.nodes[i].children[k];
                    assert(node.children[k] == c);
                }
            }
        } else {
            if let Some(p) = parent {
                let listed = after.nodes[p.0 as int].children;
                assert(listed[listed.len() - 1] == id);
            }
        }
    }

    /// A world with the same trees as a sound one is sound.
    pub proof fn lemma_same_tree_wf(self, other: WorldView)
        requires
            self.wf(),
            self.same_tree(other),
        ensures
            other.wf(),
    {
        assert forall|i: int| 0 <= i < other.nodes.len() implies #[trigger] other.node_wf(i) by {
            assert(self.node_wf(i));
            let n = other.nodes[i];
            assert(n.children == self.nodes[i].children);
            assert forall|k: int| 0 <= k < n.children.len() implies i < (#[trigger] n.children[k]).0
                < other.nodes.len() && other.nodes[n.children[k].0 as int].parent == Some(
                Entity(i as usize),
            ) by {
                let c = self.nodes[i].children[k];
                assert(self.nodes[c.0 as int].parent == other.nodes[c.0 as int].parent);
            }
            if let Some(p) = n.parent {
                assert(self.nodes[p.0 as int].children == other.nodes[p.0 as int].children);
            }
        }
    }

    /// Worlds that hold the same trees as a third hold the same trees.
    pub proof fn lemma_same_tree_chain(self, mid: WorldView, other: WorldView)
        requires
            self.same_tree(mid),
            mid.same_tree(other),
        ensures
            self.same_tree(other),
    {
        assert forall|i: int| 0 <= i < self.nodes.len() implies (#[trigger] self.nodes[i]).parent
            == other.nodes[i].parent && self.nodes[i].children == other.nodes[i].children by {
            assert(mid.nodes[i].parent == other.nodes[i].parent);
        }
    }

    /// Replacing the state of a node leaves the trees as they are.
    pub proof fn lemma_with_state_same_tree(self, e: Entity, s: NodeState)
        requires
            self.contains(e),
        ensures
            self.same_tree(self.with_state(e, s)),
            self.with_state(e, s).systems == self.systems,
            self.with_state(e, s).delta == self.delta,
    {
    }
}

/// A node as the arena stores it.
struct Slot {
    parent: Option<Entity>,
    children: Vec<Entity>,
    state: NodeState,
}

impl Slot {
    /// The node as contracts see it.
    spec fn shown(self) -> NodeView {
        NodeView { parent: self.parent, children: self.children@, state: self.state }
    }
}

/// The arena of nodes, with the registry of evaluators and the frame time.
pub struct World {
    nodes: Vec<Slot>,
    systems: Vec<Evaluator>,
    delta: TimeSpan,
}

impl View for World {
    type V = WorldView;

    /// The world as contracts see it.
    closed spec fn view(&self) -> WorldView {
        WorldView {
            nodes: Seq::new(self.nodes.len() as nat, |i: int| self.nodes[i].shown()),
            systems: self.systems@,
            delta: self.delta,
        }
    }
}

impl World {
    /// An empty world, in which no time has passed.
    pub fn new() -> (r: World)
        ensures
            r@.wf(),
            r@.nodes.len() == 0,
            r@.systems.len() == 0,
            r@.delta.total() == 0,
            orderly(r@),
    {
        let world = World { nodes: Vec::new(), systems: Vec::new(), delta: TimeSpan::zero() };
        proof {
            lemma_empty_world_orderly(world@);
        }
        world
    }

    /// The number of nodes.
    pub fn len(&self) -> (r: usize)
        ensures
            r == self@.nodes.len(),
    {
        self.nodes.len()
    }

    /// Whether the entity names a node of this world.
    pub fn contains(&self, e: Entity) -> (r: bool)
        ensures
            r == self@.contains(e),
    {
        e.0 < self.nodes.len()
    }

    /// What the node carries; `None` where there is no such node.
    pub fn state(&self, e: Entity) -> (r: Option<NodeState>)
        ensures
            r == if self@.contains(e) {
                Some(self@.state(e))
            } else {
                None
            },
    {
        if e.0 < self.nodes.len() {
            Some(self.nodes[e.0].state)
        } else {
            None
        }
    }

    /// Replaces what the node carries. Returns whether there is such a node;
    /// where there is none, nothing changes.
    pub fn set_state(&mut self, e: Entity, s: NodeState) -> (r: bool)
        ensures
            r == old(self)@.contains(e),
            final(self)@ == if r {
                old(self)@.with_state(e, s)
            } else {
                old(self)@
            },
            old(self)@.wf() ==> final(self)@.wf(),
    {
        if e.0 < self.nodes.len() {
            self.nodes[e.0].state = s;
            proof {
                assert(self@.nodes =~= old(self)@.with_state(e, s).nodes);
                if old(self)@.wf() {
                    old(self)@.lemma_with_state_same_tree(e, s);
                    old(self)@.lemma_same_tree_wf(self@);
                }
            }
            true
        } else {
            false
        }
    }

    /// The parent of the node; `None` where it has none or is not there.
    pub fn parent(&self, e: Entity) -> (r: Option<Entity>)
        ensures
            r == if self@.contains(e) {
                self@.parent(e)
            } else {
                None
            },
    {
        if e.0 < self.nodes.len() {
            self.nodes[e.0].parent
        } else {
            None
        }
    }

    /// The number of children of the node; 0 where it is not there.
    pub fn child_count(&self, e: Entity) -> (r: usize)
        ensures
            r == if self@.contains(e) {
                self@.children(e).len()
            } else {
                0
            },
    {
        if e.0 < self.nodes.len() {
            self.nodes[e.0].children.len()
        } else {
            0
        }
    }

    /// The child of the node at `index`; `None` where there is none.
    pub fn child(&self, e: Entity, index: usize) -> (r: Option<Entity>)
        ensures
            r == if self@.contains(e) && index < self@.children(e).len() {
                Some(self@.children(e)[index as int])
            } else {
                None
            },
    {
        if e.0 < self.nodes.len() {
            if index < self.nodes[e.0].children.len() {
                return Some(self.nodes[e.0].children[index]);
            }
        }
        None
    }

    /// Whether the node is there and active.
    pub fn is_active(&self, e: Entity) -> (r: bool)
        ensures
            r == self@.is_active(e),
    {
        e.0 < self.nodes.len() && self.nodes[e.0].state.active
    }

    /// Whether the node is there and carries an evaluator slot.
    pub fn has_control(&self, e: Entity) -> (r: bool)
        ensures
            r == self@.has_control(e),
    {
        e.0 < self.nodes.len() && self.nodes[e.0].state.control.is_some()
    }

    /// The leaf result of the node, where it is there and has one.
    pub fn leaf_result(&self, e: Entity) -> (r: Option<LeafNodeResult>)
        ensures
            r == self@.leaf_result(e),
    {
        if e.0 < self.nodes.len() {
            self.nodes[e.0].state.result
        } else {
            None
        }
    }

    /// Writes the leaf result of a node that has one. Returns whether it
    /// has; where it has none, nothing changes.
    pub fn set_leaf_result(&mut self, e: Entity, result: LeafNodeResult) -> (r: bool)
        ensures
            r == old(self)@.leaf_result(e) is Some,
            final(self)@ == if r {
                old(self)@.with_state(
                    e,
                    NodeState { result: Some(result), ..old(self)@.state(e) },
                )
            } else {
                old(self)@
            },
            old(self)@.wf() ==> final(self)@.wf(),
            orderly(old(self)@) ==> orderly(final(self)@),
    {
        proof {
            if orderly(self@) && self@.leaf_result(e) is Some {
                lemma_report_keeps_order(self@, e, result);
            }
        }
        match self.state(e) {
            Some(s) => {
                if s.result.is_some() {
                    self.set_state(e, NodeState { result: Some(result), ..s })
                } else {
                    false
                }
            },
            None => false,
        }
    }

    /// Gives the node the active marker. Nothing changes where the node is
    /// active already or is not there.
    pub fn insert_active(&mut self, e: Entity)
        ensures
            final(self)@ == old(self)@.activate(e),
            old(self)@.wf() ==> final(self)@.wf(),
            old(self)@.wf() && orderly(old(self)@) && starts_in_order(old(self)@, e) ==> orderly(
                final(self)@,
            ),
    {
        proof {
            if self@.wf() && orderly(self@) && starts_in_order(self@, e) {
                lemma_started_keeps_order(self@, e);
            }
        }
        match self.state(e) {
            Some(s) => {
                if !s.active {
                    let marked = NodeState { active: true, ..s };
                    self.set_state(e, marked.on_add_active_node());
                } else {
                    assert(self@.nodes =~= self@.activate(e).nodes);
                }
            },
            None => {},
        }
    }

    /// Takes the active marker from the node. Nothing changes where the node
    /// is inactive already or is not there.
    pub fn remove_active(&mut self, e: Entity)
        ensures
            final(self)@ == old(self)@.deactivate(e),
            old(self)@.wf() ==> final(self)@.wf(),
    {
        match self.state(e) {
            Some(s) => {
                if s.active {
                    let unmarked = NodeState { active: false, ..s };
                    self.set_state(e, unmarked.on_remove_active_node());
                } else {
                    assert(self@.nodes =~= self@.deactivate(e).nodes);
                }
            },
            None => {},
        }
    }

    /// Adds an evaluator to the registry and returns its handle.
    pub fn register_system(&mut self, system: Evaluator) -> (r: SystemId)
        ensures
            r.0 == old(self)@.systems.len(),
            final(self)@ == old(self)@.register(system),
            old(self)@.wf() ==> final(self)@.wf(),
            orderly(old(self)@) ==> orderly(final(self)@),
    {
        let id = SystemId(self.systems.len());
        self.systems.push(system);
        proof {
            assert(self@.nodes =~= old(self)@.nodes);
            if old(self)@.wf() {
                old(self)@.lemma_same_tree_wf(self@);
            }
            if orderly(old(self)@) {
                lemma_same_nodes_keep_order(old(self)@, self@);
            }
        }
        id
    }

    /// The evaluator behind a handle; `None` where the handle is unknown.
    pub fn system(&self, id: SystemId) -> (r: Option<Evaluator>)
        ensures
            r == self@.system(id),
    {
        if id.0 < self.systems.len() {
            Some(self.systems[id.0])
        } else {
            None
        }
    }

    /// The time that the last frame took.
    pub fn delta(&self) -> (r: TimeSpan)
        ensures
            r == self@.delta,
    {
        self.delta
    }

    /// Sets the time that the last frame took.
    pub fn set_delta(&mut self, delta: TimeSpan)
        ensures
            final(self)@ == (WorldView { delta, ..old(self)@ }),
            old(self)@.wf() ==> final(self)@.wf(),
            orderly(old(self)@) ==> orderly(final(self)@),
    {
        self.delta = delta;
        proof {
            assert(self@.nodes =~= old(self)@.nodes);
            if old(self)@.wf() {
                old(self)@.lemma_same_tree_wf(self@);
            }
            if orderly(old(self)@) {
                lemma_same_nodes_keep_order(old(self)@, self@);
            }
        }
    }

    /// Adds a node under `parent`, or as a node on its own where `parent` is
    /// `None`, and returns its handle. A parent that is not there gives
    /// `None`, and so does an arena that is full; nothing changes then.
    pub fn spawn(&mut self, parent: Option<Entity>, state: NodeState) -> (r: Option<Entity>)
        requires
            old(self)@.wf(),
        ensures
            final(self)@.wf(),
            r is Some <==> old(self)@.nodes.len() < usize::MAX && (parent matches Some(p)
                ==> old(self)@.contains(p)),
            r is None ==> final(self)@ == old(self)@,
            r matches Some(e) ==> e.0 == old(self)@.nodes.len() && final(self)@ == old(
                self,
            )@.spawned(parent, state),
            orderly(old(self)@) && spawns_in_order(old(self)@, parent, state) ==> orderly(
                final(self)@,
            ),
    {
        proof {
            if orderly(self@) && spawns_in_order(self@, parent, state) && self@.nodes.len()
                < usize::MAX && (parent matches Some(p) ==> self@.contains(p)) {
                lemma_spawned_keeps_order(self@, parent, state);
            }
        }
        let n = self.nodes.len();
        if n == usize::MAX {
            return None;
        }
        let id = Entity(n);
        if let Some(p) = parent {
            if p.0 >= n {
                return None;
            }
            self.nodes[p.0].children.push(id);
        }
        let entered = if state.active {
            state.on_add_active_node()
        } else {
            state
        };
        self.nodes.push(Slot { parent, children: Vec::new(), state: entered });
        proof {
            let before = old(self)@;
            let after = before.spawned(parent, state);
            assert(self@.nodes =~= after.nodes);
            if let Some(p) = parent {
                assert(self.nodes[p.0 as int].children.len() == before.children(p).len() + 1);
            }
            assert forall|i: int| 0 <= i < after.nodes.len() implies #[trigger] after.node_wf(i) by {
                before.lemma_spawned_node_wf(parent, state, i);
            }
        }
        Some(id)
    }
}

} // verus!
