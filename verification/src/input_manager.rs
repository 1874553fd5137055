//! The queueing input manager: inputs accumulate in a queue that a step
//! function inspects and rewrites as a whole.

use crate::typedef::{RuntimeError, WorkItemNotifier};
use std::collections::VecDeque;
use vstd::prelude::*;

verus! {

/// A queue of pending inputs plus the handle used to tell the host that
/// something changed.
pub struct InputManager<T> {
    pub(crate) input_queue: VecDeque<T>,
    pub(crate) work_item_notifier: Option<WorkItemNotifier>,
}

impl<T> InputManager<T> {
    /// The queued inputs, oldest first.
    pub open(crate) spec fn spec_queue(self) -> Seq<T> {
        self.input_queue@
    }

    /// The queue as the value handed to peek and rewrite functions.
    pub open(crate) spec fn spec_queue_value(self) -> VecDeque<T> {
        self.input_queue
    }

    /// An empty manager, not yet wired to a host.
    pub fn new() -> (r: InputManager<T>)
        ensures
            r.spec_queue().len() == 0,
    {
        InputManager { input_queue: VecDeque::new(), work_item_notifier: None }
    }

    /// An empty manager that notifies the given handle when inputs change.
    pub fn with_notifier(work_item_notifier: WorkItemNotifier) -> (r: InputManager<T>)
        ensures
            r.spec_queue().len() == 0,
    {
        InputManager { input_queue: VecDeque::new(), work_item_notifier: Some(work_item_notifier) }
    }

    /// Hands the whole queue to a rewriting function and keeps what it
    /// returns, then notifies the host.
    pub fn mutate<R, F: Fn(VecDeque<T>) -> (VecDeque<T>, R)>(&mut self, mutate_fn: F) -> (r:
        Result<R, RuntimeError>)
        requires
            mutate_fn.requires((old(self).spec_queue_value(),)),
        ensures
            r matches Ok(v) && exists|out: (VecDeque<T>, R)|
                #[trigger] mutate_fn.ensures((old(self).spec_queue_value(),), out) && out.0@
                    == final(self).spec_queue() && out.1 == v,
    {
        let mut taken: VecDeque<T> = VecDeque::new();
        core::mem::swap(&mut taken, &mut self.input_queue);
        let (new_queue, result) = mutate_fn(taken);
        proof {
            assert(mutate_fn.ensures((old(self).spec_queue_value(),), (new_queue, result)));
        }
        self.input_queue = new_queue;
        self.notify_change_to_host();
        Ok(result)
    }

    /// Applies a read-only function to the whole queue.
    pub fn peek<R, F: Fn(&VecDeque<T>) -> R>(&self, peek_fn: F) -> (r: Result<R, RuntimeError>)
        requires
            peek_fn.requires((&self.spec_queue_value(),)),
        ensures
            r matches Ok(v) && peek_fn.ensures((&self.spec_queue_value(),), v),
    {
        let result = peek_fn(&self.input_queue);
        Ok(result)
    }

    /// Tells the host the queue changed.
    pub fn notify_change_to_host(&self) {
        if let Some(work_item_sender) = &self.work_item_notifier {
            work_item_sender.notify(crate::typedef::WorkItemKind::StepIssued, true);
        }
    }

    /// Appends an input and notifies the host.
    pub fn push(&mut self, data: T)
        ensures
            final(self).spec_queue() == old(self).spec_queue().push(data),
    {
        self.input_queue.push_back(data);
        self.notify_change_to_host();
    }
}

/// Mutable access to a node's input queue, handed to user code.
pub struct InputManagerBridge<'a, T> {
    pub(crate) input_manager: &'a mut InputManager<T>,
}

impl<'a, T> InputManagerBridge<'a, T> {
    /// The queue held by the wrapped manager.
    pub open(crate) spec fn spec_queue(self) -> Seq<T> {
        self.input_manager.spec_queue()
    }

    /// The queue as the value handed to peek and rewrite functions.
    pub open(crate) spec fn spec_queue_value(self) -> VecDeque<T> {
        self.input_manager.spec_queue_value()
    }

    /// Wraps a manager.
    pub fn new(input_manager: &'a mut InputManager<T>) -> InputManagerBridge<'a, T> {
        InputManagerBridge { input_manager }
    }

    /// Hands the whole queue to a rewriting function and keeps what it
    /// returns.
    pub fn mutate<R, F: Fn(VecDeque<T>) -> (VecDeque<T>, R)>(&mut self, mutate_fn: F) -> (r:
        Result<R, RuntimeError>)
        requires
            mutate_fn.requires((old(self).spec_queue_value(),)),
        ensures
            r matches Ok(v) && exists|out: (VecDeque<T>, R)|
                #[trigger] mutate_fn.ensures((old(self).spec_queue_value(),), out) && out.0@
                    == final(self).spec_queue() && out.1 == v,
    {
        self.input_manager.mutate(mutate_fn)
    }

    /// Applies a read-only function to the whole queue.
    pub fn peek<R, F: Fn(&VecDeque<T>) -> R>(&self, peek_fn: F) -> (r: Result<R, RuntimeError>)
        requires
            peek_fn.requires((&self.spec_queue_value(),)),
        ensures
            r matches Ok(v) && peek_fn.ensures((&self.spec_queue_value(),), v),
    {
        self.input_manager.peek(peek_fn)
    }

    /// How many inputs are queued.
    pub fn queue_len(&self) -> (r: usize)
        ensures
            r == self.spec_queue().len(),
    {
        self.input_manager.input_queue.len()
    }
}

} // verus!
