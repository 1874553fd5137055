//! The parameter manager: a queue of pending parameters and the parameter
//! currently in force.

use vstd::prelude::*;

verus! {

/// Pending parameters, oldest first, and the current one.
pub struct ParamManager<T> {
    pub(crate) param_queue: std::collections::VecDeque<T>,
    pub(crate) current_param: T,
}

impl<T> ParamManager<T> {
    /// The queued parameters, oldest first.
    pub open(crate) spec fn spec_queue(self) -> Seq<T> {
        self.param_queue@
    }

    /// The parameter currently in force.
    pub open(crate) spec fn spec_current(self) -> T {
        self.current_param
    }

    /// A manager with the given current parameter and nothing queued.
    pub fn new(current_param: T) -> (r: ParamManager<T>)
        ensures
            r.spec_current() == current_param,
            r.spec_queue().len() == 0,
    {
        ParamManager { param_queue: std::collections::VecDeque::new(), current_param }
    }

    /// Promotes the oldest queued parameter to current; reports whether
    /// there was one.
    pub(crate) fn consume_queue(&mut self) -> (r: bool)
        ensures
            r == (old(self).spec_queue().len() > 0),
            r ==> final(self).spec_current() == old(self).spec_queue()[0] && final(self).spec_queue() == old(self).spec_queue().drop_first(),
            !r ==> final(self).spec_queue() == old(self).spec_queue()
                && final(self).spec_current() == old(self).spec_current(),
    {
        let first = self.param_queue.pop_front();
        match first {
            Some(first) => {
                self.current_param = first;
                proof {
                    assert(self.param_queue@ =~= old(self).param_queue@.drop_first());
                }
                true
            },
            None => false,
        }
    }

    /// Appends a parameter to the queue.
    pub(crate) fn push(&mut self, data: T)
        ensures
            final(self).spec_queue() == old(self).spec_queue().push(data),
            final(self).spec_current() == old(self).spec_current(),
    {
        self.param_queue.push_back(data);
    }
}

/// Mutable access to a node's parameter queue, handed to user code.
pub struct ParamManagerBridge<'a, T> {
    pub(crate) param_manager: &'a mut ParamManager<T>,
}

impl<'a, T> ParamManagerBridge<'a, T> {
    /// The queue held by the wrapped manager.
    pub open(crate) spec fn spec_queue(self) -> Seq<T> {
        self.param_manager.spec_queue()
    }

    /// The queue as the value handed to rewrite functions.
    pub open(crate) spec fn spec_queue_value(self) -> std::collections::VecDeque<T> {
        self.param_manager.param_queue
    }

    /// The current parameter of the wrapped manager.
    pub open(crate) spec fn spec_current(self) -> T {
        self.param_manager.spec_current()
    }

    /// Wraps a manager.
    pub fn new(param_manager: &'a mut ParamManager<T>) -> ParamManagerBridge<'a, T> {
        ParamManagerBridge { param_manager }
    }

    /// Hands the whole queue to a rewriting function and keeps what it
    /// returns.
    pub fn mutate_queue<R, F: Fn(
        std::collections::VecDeque<T>,
    ) -> (std::collections::VecDeque<T>, R)>(&mut self, mutate_fn: F) -> (r: R)
        requires
            mutate_fn.requires((old(self).spec_queue_value(),)),
        ensures
            exists|out: (std::collections::VecDeque<T>, R)|
                #[trigger] mutate_fn.ensures((old(self).spec_queue_value(),), out) && out.0@
                    == final(self).spec_queue() && out.1 == r,
    {
        let mut taken: std::collections::VecDeque<T> = std::collections::VecDeque::new();
        core::mem::swap(&mut taken, &mut self.param_manager.param_queue);
        let (new_queue, result) = mutate_fn(taken);
        proof {
            assert(mutate_fn.ensures((old(self).spec_queue_value(),), (new_queue, result)));
        }
        self.param_manager.param_queue = new_queue;
        result
    }

    /// How many parameters are queued.
    pub fn queue_len(&self) -> (r: usize)
        ensures
            r == self.spec_queue().len(),
    {
        self.param_manager.param_queue.len()
    }

    /// The parameter currently in force.
    pub fn peek_current_param(&self) -> (r: &T)
        ensures
            *r == self.spec_current(),
    {
        &self.param_manager.current_param
    }
}

} // verus!
