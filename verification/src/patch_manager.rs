//! The patch manager: a double-buffered queue of deferred one-shot
//! operations.  Patches pushed during a cycle land in the next buffer;
//! swapping promotes them, consuming runs and drops them.

use crate::typedef::{WorkItemKind, WorkItemNotifier};
use vstd::prelude::*;

verus! {

/// A deferred one-shot operation a patch manager queues and later applies.
pub trait Patch: Sized {
    /// Applies and consumes the patch.  Patches are user code: the manager
    /// promises nothing about what applying one does.
    fn apply(self);
}

/// The two patch buffers: `current` is consumed, `next` receives pushes
/// until the next swap.
pub struct PatchManager<P: Patch> {
    pub(crate) current: std::collections::VecDeque<P>,
    pub(crate) next: std::collections::VecDeque<P>,
    pub(crate) work_item_notifier: Option<WorkItemNotifier>,
}

impl<P: Patch> PatchManager<P> {
    /// The patches due in this cycle, oldest first.
    pub open(crate) spec fn spec_current(self) -> Seq<P> {
        self.current@
    }

    /// The patches deferred to the next cycle, oldest first.
    pub open(crate) spec fn spec_next(self) -> Seq<P> {
        self.next@
    }

    /// An empty manager, not yet wired to a host.
    pub fn new() -> (r: PatchManager<P>)
        ensures
            r.spec_current().len() == 0,
            r.spec_next().len() == 0,
    {
        PatchManager {
            current: std::collections::VecDeque::new(),
            next: std::collections::VecDeque::new(),
            work_item_notifier: None,
        }
    }

    /// An empty manager that notifies the given handle about pending work.
    pub fn with_notifier(work_item_notifier: WorkItemNotifier) -> (r: PatchManager<P>)
        ensures
            r.spec_current().len() == 0,
            r.spec_next().len() == 0,
    {
        PatchManager {
            current: std::collections::VecDeque::new(),
            next: std::collections::VecDeque::new(),
            work_item_notifier: Some(work_item_notifier),
        }
    }

    /// Throws the current patches away and promotes the next buffer.
    pub fn swap_patch(&mut self)
        ensures
            final(self).spec_current() == old(self).spec_next(),
            final(self).spec_next().len() == 0,
    {
        let mut temp_vec_deque: std::collections::VecDeque<P> =
            std::collections::VecDeque::new();
        core::mem::swap(&mut temp_vec_deque, &mut self.next);
        core::mem::swap(&mut temp_vec_deque, &mut self.current);
    }

    /// Applies and drops every current patch, oldest first.
    pub fn consume_patch(&mut self)
        ensures
            final(self).spec_current().len() == 0,
            final(self).spec_next() == old(self).spec_next(),
    {
        while self.current.len() > 0
            invariant
                self.next@ == old(self).next@,
            decreases self.current@.len(),
        {
            let patch = self.current.pop_front().unwrap();
            patch.apply();
        }
    }

    /// Defers a patch to the next cycle and notifies the host.
    pub fn push_patch(&mut self, patch: P)
        ensures
            final(self).spec_next() == old(self).spec_next().push(patch),
            final(self).spec_current() == old(self).spec_current(),
    {
        self.next.push_back(patch);
        self.notify_change_to_host();
    }

    /// Tells the host patches are pending.
    pub fn notify_change_to_host(&self) {
        if let Some(work_item_sender) = &self.work_item_notifier {
            work_item_sender.notify(WorkItemKind::EffectAvailable, false);
        }
    }
}

} // verus!
