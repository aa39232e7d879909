//! The status value through which a leaf reports to its parent.

use vstd::prelude::*;

verus! {

/// Active leaf nodes set this to tell their parent how far they are.
#[derive(Clone, Copy, PartialEq, Eq, Debug, Structural)]
pub enum LeafNodeResult {
    /// Not evaluated yet on this tick.
    Idle,
    /// Still running.
    Continue,
    /// Finished; the parent may deactivate the leaf.
    Complete,
}

impl LeafNodeResult {
    /// The value that [`LeafNodeResult::reset`] leaves behind.
    pub open spec fn after_reset(self) -> LeafNodeResult {
        LeafNodeResult::Idle
    }

    /// The value that [`LeafNodeResult::set_continue`] leaves behind.
    pub open spec fn after_set_continue(self) -> LeafNodeResult {
        LeafNodeResult::Continue
    }

    /// The value that [`LeafNodeResult::set_complete`] leaves behind.
    pub open spec fn after_set_complete(self) -> LeafNodeResult {
        LeafNodeResult::Complete
    }

    /// Back to `Idle`, whatever the value was.
    pub fn reset(&mut self)
        ensures
            *final(self) == old(self).after_reset(),
            *final(self) == LeafNodeResult::Idle,
    {
        *self = LeafNodeResult::Idle;
    }

    /// Reports that the leaf is still running.
    pub fn set_continue(&mut self)
        ensures
            *final(self) == old(self).after_set_continue(),
            *final(self) == LeafNodeResult::Continue,
    {
        *self = LeafNodeResult::Continue;
    }

    /// Reports that the leaf has finished.
    pub fn set_complete(&mut self)
        ensures
            *final(self) == old(self).after_set_complete(),
            *final(self) == LeafNodeResult::Complete,
    {
        *self = LeafNodeResult::Complete;
    }

    /// Whether the leaf has finished.
    pub fn is_complete(&self) -> (r: bool)
        ensures
            r == (*self == LeafNodeResult::Complete),
    {
        match self {
            LeafNodeResult::Complete => true,
            _ => false,
        }
    }
}

impl Default for LeafNodeResult {
    fn default() -> (r: LeafNodeResult)
        ensures
            r == LeafNodeResult::Idle,
    {
        LeafNodeResult::Idle
    }
}

/// Resetting a result that is already `Idle` changes nothing.
pub proof fn lemma_reset_idempotent(r: LeafNodeResult)
    requires
        r == LeafNodeResult::Idle,
    ensures
        r.after_reset() == r,
        r.after_reset().after_reset() == r.after_reset(),
{
}

/// A reset right after `set_complete` yields `Idle`, never `Complete`.
pub proof fn lemma_complete_then_reset(r: LeafNodeResult)
    ensures
        r.after_set_complete().after_reset() == LeafNodeResult::Idle,
        r.after_set_complete().after_reset() != LeafNodeResult::Complete,
{
}

} // verus!
