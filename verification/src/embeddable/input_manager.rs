//! The single-value input manager a node embeds: it holds the node's
//! current input and replaces it wholesale when new input arrives.

use crate::typedef::{RuntimeError, WorkItemKind, WorkItemNotifier};
use vstd::prelude::*;

verus! {

/// Holds one input value; setting a new one notifies the host that a step
/// is due.
pub struct InputManager<T> {
    pub(crate) data: T,
    pub(crate) work_item_notifier: Option<WorkItemNotifier>,
}

impl<T> InputManager<T> {
    /// The currently held input.
    pub open(crate) spec fn spec_data(self) -> T {
        self.data
    }

    /// A manager holding the given input, not yet wired to a host.
    pub fn new(data: T) -> (r: InputManager<T>)
        ensures
            r.spec_data() == data,
    {
        InputManager { data, work_item_notifier: None }
    }

    /// Applies a read-only function to the held input.
    pub(crate) fn peek<R, F: Fn(&T) -> R>(&self, peek_fn: F) -> (r: Result<R, RuntimeError>)
        requires
            forall|x: &T| *x == self.spec_data() ==> #[trigger] peek_fn.requires((x,)),
        ensures
            r matches Ok(v) && peek_fn.ensures((&self.spec_data(),), v),
    {
        Ok(peek_fn(&self.data))
    }

    /// Replaces the held input and notifies the host.
    pub(crate) fn set(&mut self, data: T)
        ensures
            final(self).spec_data() == data,
    {
        self.data = data;
        self.notify_work();
    }

    /// Tells the host a step is due.
    pub(crate) fn notify_work(&self) {
        if let Some(work_item_sender) = &self.work_item_notifier {
            work_item_sender.notify(WorkItemKind::StepIssued, true);
        }
    }
}

/// Read access to a node's input manager, handed to effects.
pub struct InputBridge<'a, T> {
    pub(crate) input_manager: &'a mut InputManager<T>,
}

impl<'a, T> InputBridge<'a, T> {
    /// The input held by the wrapped manager.
    pub open(crate) spec fn spec_data(self) -> T {
        self.input_manager.spec_data()
    }

    /// Wraps a manager.
    pub fn new(input_manager: &'a mut InputManager<T>) -> InputBridge<'a, T> {
        InputBridge { input_manager }
    }

    /// Applies a read-only function to the held input.
    pub fn peek<R, F: Fn(&T) -> R>(&mut self, peek_fn: F) -> (r: Result<R, RuntimeError>)
        requires
            forall|x: &T| *x == old(self).spec_data() ==> #[trigger] peek_fn.requires((x,)),
        ensures
            r matches Ok(v) && peek_fn.ensures((&old(self).spec_data(),), v),
    {
        self.input_manager.peek(peek_fn)
    }
}

} // verus!
