//! The effect manager: a double-buffered queue of deferred operations that
//! run against a node's input and state once the step is over.

use crate::embeddable::input_manager::{InputBridge, InputManager};
use crate::embeddable::state_manager::{StateBridge, StateManager};
use crate::typedef::{WorkItemKind, WorkItemNotifier};
use std::collections::VecDeque;
use vstd::prelude::*;

verus! {

/// What an effect may touch when it runs: the node's input and state.
pub struct EffectOperationBridge<'a, TIn, TState> {
    pub state: StateBridge<'a, TState>,
    pub input: InputBridge<'a, TIn>,
}

impl<'a, TIn, TState> EffectOperationBridge<'a, TIn, TState> {
    /// Bundles input and state access for one effect run.
    pub fn new(
        input: &'a mut InputManager<TIn>,
        state: &'a mut StateManager<TState>,
    ) -> EffectOperationBridge<'a, TIn, TState> {
        EffectOperationBridge {
            input: InputBridge::new(input),
            state: StateBridge::new(state),
        }
    }
}

/// A deferred operation the effect manager queues and later runs.  Effects
/// are user code: the manager promises nothing about what running one does
/// to the input and state it may touch.
pub trait Effect<TIn, TState>: Sized {
    /// Runs and consumes the effect.
    fn run(self, bridge: &mut EffectOperationBridge<TIn, TState>);
}

/// The two effect buffers: `current` is run, `next` receives pushes until
/// the next load.
pub struct EffectManager<E> {
    pub(crate) work_item_notifier: Option<WorkItemNotifier>,
    pub(crate) current: VecDeque<E>,
    pub(crate) next: VecDeque<E>,
}

impl<E> EffectManager<E> {
    /// The effects due in this cycle, oldest first.
    pub open(crate) spec fn spec_current(self) -> Seq<E> {
        self.current@
    }

    /// The effects deferred to the next cycle, oldest first.
    pub open(crate) spec fn spec_next(self) -> Seq<E> {
        self.next@
    }

    /// An empty manager, not yet wired to a host.
    pub fn new() -> (r: EffectManager<E>)
        ensures
            r.spec_current().len() == 0,
            r.spec_next().len() == 0,
    {
        EffectManager {
            work_item_notifier: None,
            current: VecDeque::new(),
            next: VecDeque::new(),
        }
    }

    /// Defers an effect to the next cycle.
    pub(crate) fn push(&mut self, effect: E)
        ensures
            final(self).spec_next() == old(self).spec_next().push(effect),
            final(self).spec_current() == old(self).spec_current(),
    {
        self.next.push_back(effect);
    }

    /// Runs and drops every current effect, oldest first, then promotes the
    /// next buffer.
    pub(crate) fn run_all<TIn, TState>(
        &mut self,
        effect_bridge: &mut EffectOperationBridge<TIn, TState>,
    ) where E: Effect<TIn, TState>
        ensures
            final(self).spec_current() == old(self).spec_next(),
            final(self).spec_next().len() == 0,
    {
        let mut is_executed_at_least_once = false;
        while self.current.len() > 0
            invariant
                self.next@ == old(self).next@,
                self.work_item_notifier == old(self).work_item_notifier,
            decreases self.current@.len(),
        {
            let effect = self.current.pop_front().unwrap();
            effect.run(effect_bridge);
            is_executed_at_least_once = true;
        }
        if is_executed_at_least_once {
            self.notify_work(WorkItemKind::EffectExecuted);
        }
        self.load_next();
    }

    /// Promotes the next buffer into the current one and, when anything is
    /// pending, notifies the host.
    pub(crate) fn load_next(&mut self)
        requires
            old(self).spec_current().len() == 0,
        ensures
            final(self).spec_current() == old(self).spec_next(),
            final(self).spec_next().len() == 0,
    {
        let mut pending: VecDeque<E> = VecDeque::new();
        core::mem::swap(&mut pending, &mut self.next);
        self.current.append(&mut pending);
        proof {
            assert(self.current@ =~= old(self).next@);
        }
        if self.current.len() > 0 {
            self.notify_work(WorkItemKind::EffectAvailable);
        }
    }

    /// Tells the host about effect progress.
    pub(crate) fn notify_work(&self, work_item_kind: WorkItemKind) {
        if let Some(work_item_sender) = &self.work_item_notifier {
            work_item_sender.notify(work_item_kind, false);
        }
    }
}

/// Effect-queue access handed to step functions and workers.
pub struct EffectBridge<'a, E> {
    pub(crate) is_pushed_at_least_once: bool,
    pub(crate) effect_manager: &'a mut EffectManager<E>,
}

impl<'a, E> EffectBridge<'a, E> {
    /// The deferred effects of the wrapped manager.
    pub open(crate) spec fn spec_next(self) -> Seq<E> {
        self.effect_manager.spec_next()
    }

    /// The due effects of the wrapped manager.
    pub open(crate) spec fn spec_current(self) -> Seq<E> {
        self.effect_manager.spec_current()
    }

    /// Whether anything was pushed through this bridge.
    pub open(crate) spec fn spec_pushed(self) -> bool {
        self.is_pushed_at_least_once
    }

    /// Wraps a manager.
    pub fn new(effect_manager: &'a mut EffectManager<E>) -> EffectBridge<'a, E> {
        EffectBridge { is_pushed_at_least_once: false, effect_manager }
    }

    /// Defers an effect to the next cycle.
    pub fn push(&mut self, effect: E)
        ensures
            final(self).spec_next() == old(self).spec_next().push(effect),
            final(self).spec_current() == old(self).spec_current(),
            final(self).spec_pushed(),
    {
        self.effect_manager.push(effect);
        self.is_pushed_at_least_once = true;
    }
}

} // verus!
