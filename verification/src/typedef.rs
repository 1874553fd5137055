//! Shared auxiliary types of the embeddable managers.

use vstd::prelude::*;

verus! {

/// A failure inside a manager operation.  With typed managers the
/// operations cannot fail, so functions returning this error promise `Ok`.
#[derive(Debug, PartialEq, Eq, Structural)]
pub struct RuntimeError;

/// What a manager notifies the host about.
#[derive(Clone, Copy, Debug, PartialEq, Eq, Structural)]
pub enum WorkItemKind {
    StepIssued,
    EffectAvailable,
    EffectExecuted,
}

/// A handle a manager uses to tell the host that work is pending: a sender
/// into the host's work channel.
pub struct WorkItemNotifier {
    pub(crate) sender: crossbeam::channel::Sender<WorkItemKind>,
}

impl WorkItemNotifier {
    /// Wraps a sender into a notifier.
    pub fn from_sender(sender: crossbeam::channel::Sender<WorkItemKind>) -> WorkItemNotifier {
        WorkItemNotifier { sender }
    }

    /// Sends a work notification; a host that is gone ignores it.
    pub fn notify(&self, work_item_kind: WorkItemKind, _priority: bool) {
        let _ = self.sender.send(work_item_kind);
    }
}

} // verus!
