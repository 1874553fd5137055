//! Tests for the embeddable managers: input queues, parameters, patches,
//! and named state slots.

use machinetree::embeddable::effect_manager::{EffectBridge, EffectManager};
use machinetree::embeddable::input_manager::{InputBridge, InputManager as SingleInputManager};
use machinetree::embeddable::state_manager::{StateBridge, StateManager};
use machinetree::embeddable::storage_manager::StorageManager;
use machinetree::input_manager::{InputManager, InputManagerBridge};
use machinetree::node_seed::NodeSeed;
use machinetree::param_manager::{ParamManager, ParamManagerBridge};
use machinetree::patch_manager::{Patch, PatchManager};
use machinetree::typedef::{RuntimeError, WorkItemKind, WorkItemNotifier};
use std::collections::VecDeque;
use std::sync::{Arc, Mutex};

#[test]
fn input_queue_push_and_len() {
    let mut manager: InputManager<u32> = InputManager::new();
    manager.push(4);
    manager.push(9);
    let mut bridge = InputManagerBridge::new(&mut manager);
    assert_eq!(bridge.queue_len(), 2);
    let front = bridge.peek(|q: &VecDeque<u32>| *q.front().unwrap());
    assert_eq!(front, Ok(4));
    let drained = bridge.mutate(|mut q: VecDeque<u32>| {
        let first = q.pop_front();
        (q, first)
    });
    assert_eq!(drained, Ok(Some(4)));
    assert_eq!(bridge.queue_len(), 1);
}

#[test]
fn single_input_peek_sees_current_value() {
    let mut manager: SingleInputManager<i64> = SingleInputManager::new(11);
    let mut bridge = InputBridge::new(&mut manager);
    let doubled = bridge.peek(|x: &i64| x * 2);
    assert_eq!(doubled, Ok(22));
}

#[test]
fn param_queue_current_and_len() {
    let mut manager: ParamManager<&'static str> = ParamManager::new("start");
    let mut bridge = ParamManagerBridge::new(&mut manager);
    assert_eq!(*bridge.peek_current_param(), "start");
    assert_eq!(bridge.queue_len(), 0);
    bridge.mutate_queue(|mut q: VecDeque<&'static str>| {
        q.push_back("one");
        q.push_back("two");
        (q, ())
    });
    assert_eq!(bridge.queue_len(), 2);
}

#[test]
fn param_queue_mutate_rewrites_queue() {
    let mut manager: ParamManager<u8> = ParamManager::new(0);
    let mut bridge = ParamManagerBridge::new(&mut manager);
    bridge.mutate_queue(|mut q: VecDeque<u8>| {
        q.push_back(1);
        q.push_back(2);
        (q, ())
    });
    let removed = bridge.mutate_queue(|mut q: VecDeque<u8>| {
        let out = q.pop_back();
        (q, out)
    });
    assert_eq!(removed, Some(2));
    assert_eq!(bridge.queue_len(), 1);
}

/// A patch that bumps a shared counter when applied.
struct CountingPatch {
    counter: Arc<Mutex<u32>>,
}

impl Patch for CountingPatch {
    fn apply(self) {
        *self.counter.lock().unwrap() += 1;
    }
}

#[test]
fn patches_run_once_after_swap() {
    let counter = Arc::new(Mutex::new(0));
    let mut manager: PatchManager<CountingPatch> = PatchManager::new();
    manager.push_patch(CountingPatch { counter: counter.clone() });
    manager.push_patch(CountingPatch { counter: counter.clone() });
    // Pushed patches sit in the next buffer: consuming now runs nothing.
    manager.consume_patch();
    assert_eq!(*counter.lock().unwrap(), 0);
    manager.swap_patch();
    manager.consume_patch();
    assert_eq!(*counter.lock().unwrap(), 2);
    // A second consume does not run them again.
    manager.consume_patch();
    assert_eq!(*counter.lock().unwrap(), 2);
}

#[test]
fn state_slots_default_then_mutate() {
    let mut manager: StateManager<u32> = StateManager::new();
    let key = String::from("hits");
    let mut bridge = StateBridge::new(&mut manager);
    // A slot never written reads as the default.
    let first = bridge.peek(&key, |v: &u32| *v);
    assert_eq!(first, Ok(0));
    let bumped = bridge.mutate(&key, |v: u32| (v + 5, v + 5));
    assert_eq!(bumped, Ok(5));
    let second = bridge.peek(&key, |v: &u32| *v);
    assert_eq!(second, Ok(5));
    // Another key is untouched.
    let other = bridge.peek(&String::from("misses"), |v: &u32| *v);
    assert_eq!(other, Ok(0));
}

#[test]
fn storage_starts_empty() {
    let storage: StorageManager<u16> = StorageManager::new();
    let _ = storage;
}

#[test]
fn effects_can_be_deferred() {
    struct Noop;
    impl machinetree::embeddable::effect_manager::Effect<u8, u8> for Noop {
        fn run(
            self,
            _bridge: &mut machinetree::embeddable::effect_manager::EffectOperationBridge<u8, u8>,
        ) {
        }
    }
    let mut manager: EffectManager<Noop> = EffectManager::new();
    let mut bridge = EffectBridge::new(&mut manager);
    bridge.push(Noop);
    bridge.push(Noop);
}

#[test]
fn node_seed_create_keeps_fields() {
    let seed = NodeSeed::create(8, Some(String::from("slot")), 99u32, ());
    let _ = seed;
}

#[test]
fn notifier_sends_work_kinds() {
    let (sender, receiver) = crossbeam::channel::unbounded();
    let notifier = WorkItemNotifier::from_sender(sender);
    notifier.notify(WorkItemKind::StepIssued, true);
    notifier.notify(WorkItemKind::EffectExecuted, false);
    assert_eq!(receiver.try_recv(), Ok(WorkItemKind::StepIssued));
    assert_eq!(receiver.try_recv(), Ok(WorkItemKind::EffectExecuted));
    assert!(receiver.try_recv().is_err());
}

#[test]
fn input_push_notifies_host() {
    let (sender, receiver) = crossbeam::channel::unbounded();
    let mut manager: InputManager<u8> =
        InputManager::with_notifier(WorkItemNotifier::from_sender(sender));
    manager.push(3);
    assert_eq!(receiver.try_recv(), Ok(WorkItemKind::StepIssued));
}

#[test]
fn patch_push_notifies_host() {
    let (sender, receiver) = crossbeam::channel::unbounded();
    let mut manager: PatchManager<CountingPatch> =
        PatchManager::with_notifier(WorkItemNotifier::from_sender(sender));
    let counter = Arc::new(Mutex::new(0));
    manager.push_patch(CountingPatch { counter });
    assert_eq!(receiver.try_recv(), Ok(WorkItemKind::EffectAvailable));
}

#[test]
fn runtime_error_is_comparable() {
    assert_eq!(RuntimeError, RuntimeError);
}
