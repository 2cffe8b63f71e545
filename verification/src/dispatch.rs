//! The notification dispatcher: bridges the asynchronous stream of backend
//! notifications into coarse and targeted refresh triggers.
//!
//! Graph invalidations, port changes and execution-context moves all map to
//! one coarse "run a full refresh" trigger; computed-value updates map to a
//! targeted "refresh these expression ids" trigger.  Pending triggers
//! coalesce: any number of coarse triggers collapse into one, while the
//! affected-id sets of targeted triggers accumulate.

use vstd::prelude::*;

use crate::ids::AstNodeId;

verus! {

/// A notification from the backend about the executed graph.
#[derive(Clone, Debug)]
pub enum Notification {
    /// The whole graph may have changed.
    Invalidate,
    /// The port trees of the graph may have changed.
    PortsUpdate,
    /// New computed-value information arrived for these expressions.
    ComputedValueInfo(Vec<AstNodeId>),
    /// Execution entered the node.
    EnteredNode(AstNodeId),
    /// Execution stepped out of the node.
    SteppedOutOfNode(AstNodeId),
}

/// Whether a notification asks for a full refresh rather than a targeted
/// expression refresh.
pub open spec fn asks_full_refresh(n: Notification) -> bool {
    match n {
        Notification::ComputedValueInfo(_) => false,
        _ => true,
    }
}

/// The expression ids a notification asks to refresh.
pub open spec fn affected_expressions(n: Notification) -> Seq<AstNodeId> {
    match n {
        Notification::ComputedValueInfo(ids) => ids@,
        _ => Seq::empty(),
    }
}

/// The pending refresh triggers, coalesced: one bit for "refresh everything"
/// and the accumulated affected-expression ids.
#[derive(Clone, Debug)]
pub struct TriggerQueue {
    pub full_pending: bool,
    pub pending_expressions: Vec<AstNodeId>,
}

impl TriggerQueue {
    /// An empty queue: nothing to refresh.
    pub fn new() -> (r: TriggerQueue)
        ensures
            !r.full_pending,
            r.pending_expressions@ =~= Seq::<AstNodeId>::empty(),
    {
        TriggerQueue { full_pending: false, pending_expressions: Vec::new() }
    }

    /// Record one notification.  Coarse triggers collapse into the single
    /// pending bit; targeted triggers append their affected ids.
    #[verifier::loop_isolation(false)]
    pub fn push(&mut self, n: &Notification)
        ensures
            final(self).full_pending == (old(self).full_pending || asks_full_refresh(*n)),
            final(self).pending_expressions@ =~= old(self).pending_expressions@
                + affected_expressions(*n),
    {
        match n {
            Notification::ComputedValueInfo(ids) => {
                let ghost pre = self.pending_expressions@;
                let mut i: usize = 0;
                while i < ids.len()
                    invariant
                        i <= ids@.len(),
                        self.full_pending == old(self).full_pending,
                        self.pending_expressions@ =~= pre + ids@.take(i as int),
                    decreases ids@.len() - i,
                {
                    self.pending_expressions.push(ids[i]);
                    proof {
                        assert(ids@.take(i as int + 1) =~= ids@.take(i as int).push(
                            ids@[i as int],
                        ));
                    }
                    i += 1;
                }
                proof {
                    assert(ids@.take(ids@.len() as int) =~= ids@);
                }
            },
            _ => {
                self.full_pending = true;
            },
        }
    }

    /// Take the coarse trigger: whether a full refresh is owed.  The pending
    /// bit clears; targeted ids stay.
    pub fn take_full_refresh(&mut self) -> (r: bool)
        ensures
            r == old(self).full_pending,
            !final(self).full_pending,
            final(self).pending_expressions@ == old(self).pending_expressions@,
    {
        let r = self.full_pending;
        self.full_pending = false;
        r
    }

    /// Take the accumulated targeted trigger: the expression ids to refresh.
    /// The set empties; the coarse bit stays.
    pub fn take_expressions(&mut self) -> (r: Vec<AstNodeId>)
        ensures
            r@ == old(self).pending_expressions@,
            final(self).pending_expressions@ =~= Seq::<AstNodeId>::empty(),
            final(self).full_pending == old(self).full_pending,
    {
        let mut r: Vec<AstNodeId> = Vec::new();
        core::mem::swap(&mut r, &mut self.pending_expressions);
        r
    }
}

} // verus!
