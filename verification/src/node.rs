//! The data that a node of a behavior tree carries.

use vstd::prelude::*;
use crate::leaf::LeafNodeResult;
use crate::time::TimeSpan;

verus! {

/// The handle of a node: its place in the arena of a [`crate::world::World`].
#[derive(Clone, Copy, PartialEq, Eq, Debug, Hash, Structural)]
pub struct Entity(pub usize);

/// What a control node tells the driver after one evaluation.
#[derive(Clone, Copy, PartialEq, Eq, Debug, Structural)]
pub enum NodeResult {
    /// Still running; nothing more happens on this tick.
    Continue,
    /// Finished; the parent gets its turn on the same tick.
    Complete,
    /// The node has activated this child, which is to be evaluated next.
    QueueNode(Entity),
}

/// Why an evaluation failed.
#[derive(Clone, Copy, PartialEq, Eq, Debug, Structural)]
pub enum Error {
    /// No node on the way up from the entity is the root of a tree.
    NoRoot,
    /// A sequence points at a child that it does not have.
    InvalidChildIndex,
    /// A time limit has no child to run.
    MissingChild,
    /// A control node was evaluated without the data of its own kind.
    MissingComponent,
    /// An evaluator handle names no registered evaluator.
    UnknownSystem,
    /// A node without an evaluator sits at the top of a tree.
    NonControlRoot,
    /// The driver ran out of steps before the work stack was empty.
    StepLimit,
}

impl Error {
    /// The text that goes with the error.
    pub open spec fn text(self) -> Seq<char> {
        match self {
            Error::NoRoot => "No BehaviorTreeRoot found in parents"@,
            Error::InvalidChildIndex => "Invalid child index"@,
            Error::MissingChild => "TimeLimitNode requires exactly one child"@,
            Error::MissingComponent => "Control node lacks the data of its kind"@,
            Error::UnknownSystem => "Control node system is not registered"@,
            Error::NonControlRoot => "Non-control node is on root of behavior tree"@,
            Error::StepLimit => "Behavior tree evaluation ran out of steps"@,
        }
    }

    /// The text that goes with the error.
    pub fn message(&self) -> (r: &'static str)
        ensures
            r@ == self.text(),
    {
        match self {
            Error::NoRoot => "No BehaviorTreeRoot found in parents",
            Error::InvalidChildIndex => "Invalid child index",
            Error::MissingChild => "TimeLimitNode requires exactly one child",
            Error::MissingComponent => "Control node lacks the data of its kind",
            Error::UnknownSystem => "Control node system is not registered",
            Error::NonControlRoot => "Non-control node is on root of behavior tree",
            Error::StepLimit => "Behavior tree evaluation ran out of steps",
        }
    }
}

/// Marks the root of a behavior tree and names the entity that the tree
/// decides for.
#[derive(Clone, Copy, PartialEq, Eq, Debug, Structural)]
pub struct BehaviorTreeRoot {
    pub target: Entity,
}

impl BehaviorTreeRoot {
    /// The marker of a root whose tree decides for `target`.
    pub fn new(target: Entity) -> (r: BehaviorTreeRoot)
        ensures
            r.target == target,
    {
        BehaviorTreeRoot { target }
    }
}

/// Control node that runs its children one after the other.
#[derive(Clone, Copy, PartialEq, Eq, Debug, Structural)]
pub struct SequenceNode {
    /// Start over at the first child once the last one has finished.
    pub repeat: bool,
}

/// Where a sequence stands: the index of the child it has activated, `None`
/// before its first evaluation.
#[derive(Clone, Copy, Debug)]
pub struct SequenceState {
    pub current: Option<usize>,
}

impl Default for SequenceState {
    fn default() -> (r: SequenceState)
        ensures
            r.current is None,
    {
        SequenceState { current: None }
    }
}

/// Control node that runs one child until a deadline.
#[derive(Clone, Copy, Debug)]
pub struct TimeLimitNode {
    pub duration: TimeSpan,
}

/// A running one-shot countdown: its length and the time it has run for.
#[derive(Clone, Copy, Debug)]
pub struct Countdown {
    pub duration: TimeSpan,
    pub elapsed: TimeSpan,
}

/// Where a time limit stands: its countdown, `None` until the first
/// evaluation of a cycle, and whether its child has been activated.
#[derive(Clone, Copy, Debug)]
pub struct TimeLimitState {
    pub timer: Option<Countdown>,
    pub child_activated: bool,
}

impl Default for TimeLimitState {
    fn default() -> (r: TimeLimitState)
        ensures
            r.timer is None,
            !r.child_activated,
    {
        TimeLimitState { timer: None, child_activated: false }
    }
}

/// The data of a node's own kind.
#[derive(Clone, Copy, Debug)]
pub enum NodeKind {
    /// A leaf, or a node whose data belongs to someone else.
    Plain,
    Sequence(SequenceNode, SequenceState),
    TimeLimit(TimeLimitNode, TimeLimitState),
}

/// The evaluators that a control node can carry.
#[derive(Clone, Copy, PartialEq, Eq, Debug, Structural)]
pub enum Evaluator {
    Sequence,
    TimeLimit,
}

/// The handle of an evaluator in the registry of a world.
#[derive(Clone, Copy, PartialEq, Eq, Debug, Structural)]
pub struct SystemId(pub usize);

/// An evaluator as a control node holds it: by value until its first run,
/// by handle from then on.
#[derive(Clone, Copy, Debug)]
pub enum ControlNodeSystemInner {
    Uncached(Evaluator),
    Cached(SystemId),
}

/// The evaluator slot of a control node. The slot is empty while its
/// evaluator runs.
#[derive(Clone, Copy, Debug)]
pub struct ControlNodeSystem(pub Option<ControlNodeSystemInner>);

impl ControlNodeSystem {
    /// A slot that holds `system`, not yet registered.
    pub fn new(system: Evaluator) -> (r: ControlNodeSystem)
        ensures
            r == ControlNodeSystem(Some(ControlNodeSystemInner::Uncached(system))),
    {
        ControlNodeSystem(Some(ControlNodeSystemInner::Uncached(system)))
    }
}

/// Everything a node carries besides its place in the tree.
#[derive(Clone, Copy, Debug)]
pub struct NodeState {
    /// The node is part of the path that is being executed.
    pub active: bool,
    /// The leaf result, where the node has one.
    pub result: Option<LeafNodeResult>,
    /// Set on the root of a tree.
    pub root: Option<BehaviorTreeRoot>,
    /// The evaluator slot, on control nodes.
    pub control: Option<ControlNodeSystem>,
    pub kind: NodeKind,
}

impl NodeState {
    /// The state after the node has gained the active marker: a node with
    /// neither a leaf result nor an evaluator gets an `Idle` result.
    pub open spec fn added_active(self) -> NodeState {
        if self.result is None && self.control is None {
            NodeState { result: Some(LeafNodeResult::Idle), ..self }
        } else {
            self
        }
    }

    /// The state after the node has lost the active marker: its leaf result
    /// goes with it.
    pub open spec fn removed_active(self) -> NodeState {
        NodeState { result: None, ..self }
    }

    /// The state once the node is active. Nothing changes where it is
    /// active already.
    pub open spec fn activated(self) -> NodeState {
        if self.active {
            self
        } else {
            NodeState { active: true, ..self }.added_active()
        }
    }

    /// The state once the node is inactive. Nothing changes where it is
    /// inactive already.
    pub open spec fn deactivated(self) -> NodeState {
        if self.active {
            NodeState { active: false, ..self }.removed_active()
        } else {
            self
        }
    }

    /// The state as the start of a tick leaves it: the result of an active
    /// node is `Idle` again.
    pub open spec fn result_reset(self) -> NodeState {
        if self.active && self.result is Some {
            NodeState { result: Some(self.result.unwrap().after_reset()), ..self }
        } else {
            self
        }
    }

    /// The state of a node that carries nothing.
    pub open spec fn bare() -> NodeState {
        NodeState { active: false, result: None, root: None, control: None, kind: NodeKind::Plain }
    }

    /// A node that carries nothing.
    pub fn plain() -> (r: NodeState)
        ensures
            r == NodeState::bare(),
    {
        NodeState { active: false, result: None, root: None, control: None, kind: NodeKind::Plain }
    }

    /// A leaf with an `Idle` result.
    pub fn leaf() -> (r: NodeState)
        ensures
            r == (NodeState { result: Some(LeafNodeResult::Idle), ..NodeState::bare() }),
    {
        NodeState { result: Some(LeafNodeResult::Idle), ..NodeState::plain() }
    }

    /// A sequence before its first evaluation, with its evaluator.
    pub fn sequence(config: SequenceNode) -> (r: NodeState)
        ensures
            r == (NodeState {
                control: Some(
                    ControlNodeSystem(Some(ControlNodeSystemInner::Uncached(Evaluator::Sequence))),
                ),
                kind: NodeKind::Sequence(config, SequenceState { current: None }),
                ..NodeState::bare()
            }),
    {
        NodeState {
            control: Some(ControlNodeSystem::new(Evaluator::Sequence)),
            kind: NodeKind::Sequence(config, SequenceState { current: None }),
            ..NodeState::plain()
        }
    }

    /// A time limit before its first evaluation, with its evaluator.
    pub fn time_limit(config: TimeLimitNode) -> (r: NodeState)
        ensures
            r == (NodeState {
                control: Some(
                    ControlNodeSystem(Some(ControlNodeSystemInner::Uncached(Evaluator::TimeLimit))),
                ),
                kind: NodeKind::TimeLimit(
                    config,
                    TimeLimitState { timer: None, child_activated: false },
                ),
                ..NodeState::bare()
            }),
    {
        NodeState {
            control: Some(ControlNodeSystem::new(Evaluator::TimeLimit)),
            kind: NodeKind::TimeLimit(
                config,
                TimeLimitState { timer: None, child_activated: false },
            ),
            ..NodeState::plain()
        }
    }

    /// The same node, carrying the active marker from the start.
    pub fn with_active(self) -> (r: NodeState)
        ensures
            r == (NodeState { active: true, ..self }),
    {
        NodeState { active: true, ..self }
    }

    /// The same node as the root of a tree that decides for `target`.
    pub fn with_root(self, target: Entity) -> (r: NodeState)
        ensures
            r == (NodeState { root: Some(BehaviorTreeRoot { target }), ..self }),
    {
        NodeState { root: Some(BehaviorTreeRoot::new(target)), ..self }
    }

    /// Runs when a node has gained the active marker.
    pub fn on_add_active_node(self) -> (r: NodeState)
        ensures
            r == self.added_active(),
    {
        if self.result.is_none() && self.control.is_none() {
            NodeState { result: Some(LeafNodeResult::Idle), ..self }
        } else {
            self
        }
    }

    /// Runs when a node has lost the active marker.
    pub fn on_remove_active_node(self) -> (r: NodeState)
        ensures
            r == self.removed_active(),
    {
        NodeState { result: None, ..self }
    }
}

} // verus!
