//! End-to-end scenarios for the host: reconciliation, key stability,
//! type swaps, context inheritance, self-render signals and stale keys.

use machinetree::embeddable::context_holder::ContextContainer;
use machinetree::key::{Key, Seed};
use machinetree::node::{seed, seed_tagged, Component, SelfRender};
use machinetree::node_host::{NodeControl, NodeHost};
use std::sync::{Arc, Mutex};

/// The countdown component: a node with count `n` produces one child per
/// unit of `n`, each with `n - 1`, and asks to re-render while its own
/// count is positive, decrementing it by one per step.
struct Countdown {
    count: u32,
}

#[derive(Clone)]
struct CountdownInput {
    count: u32,
}

impl Component for Countdown {
    type Input = CountdownInput;

    fn type_tag() -> u64 {
        1
    }

    fn construct(input: &CountdownInput) -> Countdown {
        Countdown { count: input.count }
    }

    fn step(
        &mut self,
        control: &mut NodeControl<Self>,
        _input: &CountdownInput,
    ) -> Vec<Seed<Self>> {
        let current = self.count;
        if self.count > 0 {
            self.count -= 1;
            control.rerender();
        }
        let mut out = Vec::new();
        let mut i = 0u32;
        while i < current {
            out.push(seed::<Countdown>(
                CountdownInput { count: current - 1 },
                format!("c{}", i),
            ));
            i += 1;
        }
        out
    }
}

#[test]
fn countdown_tree() {
    let mut host = NodeHost::<Countdown>::make_root(seed(CountdownInput { count: 3 }, format!("root")));
    // First pass: 1 root + 3 children + 6 grandchildren + 6 great-grandchildren.
    let r1 = host.render();
    assert_eq!(r1.rendered_keys.len(), 16);
    assert_eq!(r1.unrendered_keys.len(), 0);
    assert_eq!(r1.unlinked_node_pairs.len(), 0);
    // Every pass that starts from the root renders strictly fewer nodes
    // than the root pass before it, and the host drains to idle.
    let root = r1.rendered_keys[0];
    let mut prev_root_pass = r1.rendered_keys.len();
    let mut rounds = 0;
    loop {
        let r = host.render();
        if r.rendered_keys.is_empty() && r.unrendered_keys.is_empty() {
            break;
        }
        if r.rendered_keys.first() == Some(&root) {
            assert!(r.rendered_keys.len() < prev_root_pass);
            prev_root_pass = r.rendered_keys.len();
        }
        rounds += 1;
        assert!(rounds < 200);
    }
    let idle = host.render();
    assert_eq!(idle.rendered_keys.len(), 0);
}

/// A parent that always produces the same two children and always asks to
/// be re-rendered, so that repeated renders exercise pure reuse.
struct FixedPair {
    renders: u32,
}

#[derive(Clone)]
enum FixedInput {
    Parent,
    Leaf,
}

impl Component for FixedPair {
    type Input = FixedInput;

    fn type_tag() -> u64 {
        2
    }

    fn construct(_input: &FixedInput) -> FixedPair {
        FixedPair { renders: 0 }
    }

    fn step(&mut self, control: &mut NodeControl<Self>, input: &FixedInput) -> Vec<Seed<Self>> {
        self.renders += 1;
        match input {
            FixedInput::Parent => {
                control.rerender();
                vec![
                    seed_tagged::<FixedPair>(20, FixedInput::Leaf, format!("a")),
                    seed_tagged::<FixedPair>(20, FixedInput::Leaf, format!("b")),
                ]
            },
            FixedInput::Leaf => Vec::new(),
        }
    }
}

#[test]
fn fixed_seed_vector_stabilizes() {
    let mut host = NodeHost::<FixedPair>::make_root(seed(FixedInput::Parent, format!("root")));
    let r1 = host.render();
    assert_eq!(r1.rendered_keys.len(), 3);
    assert_eq!(r1.unlinked_node_pairs.len(), 0);
    let first_children: Vec<Key> = r1.rendered_keys[1..].to_vec();
    // Every later pass reuses exactly the same children: no sprouts, no
    // unlinks.
    for _ in 0..3 {
        let r = host.render();
        assert_eq!(r.rendered_keys.len(), 3);
        assert_eq!(r.unlinked_node_pairs.len(), 0);
        assert_eq!(r.rendered_keys[0], r1.rendered_keys[0]);
        assert_eq!(&r.rendered_keys[1..], &first_children[..]);
    }
}

/// A parent that first produces keys a, b, c and then a, c, b, to show that
/// all three children are reused and sibling order follows seed order.
struct Reorder {
    pass: u32,
}

#[derive(Clone)]
enum ReorderInput {
    Parent,
    Leaf,
}

impl Component for Reorder {
    type Input = ReorderInput;

    fn type_tag() -> u64 {
        3
    }

    fn construct(_input: &ReorderInput) -> Reorder {
        Reorder { pass: 0 }
    }

    fn step(&mut self, control: &mut NodeControl<Self>, input: &ReorderInput) -> Vec<Seed<Self>> {
        match input {
            ReorderInput::Parent => {
                self.pass += 1;
                let keys: Vec<&str> = if self.pass == 1 {
                    control.rerender();
                    vec!["a", "b", "c"]
                } else {
                    vec!["a", "c", "b"]
                };
                keys.into_iter()
                    .map(|k| seed_tagged::<Reorder>(30, ReorderInput::Leaf, k.to_string()))
                    .collect()
            },
            ReorderInput::Leaf => Vec::new(),
        }
    }
}

#[test]
fn key_stability_reorders_siblings() {
    let mut host = NodeHost::<Reorder>::make_root(seed(ReorderInput::Parent, format!("root")));
    let r1 = host.render();
    assert_eq!(r1.rendered_keys.len(), 4);
    let root = r1.rendered_keys[0];
    let (a, b, c) = (r1.rendered_keys[1], r1.rendered_keys[2], r1.rendered_keys[3]);
    let r2 = host.render();
    // No sprouts, no unlinks: the same three keys, rendered in new order.
    assert_eq!(r2.unlinked_node_pairs.len(), 0);
    assert_eq!(r2.rendered_keys, vec![root, a, c, b]);
    // The parent's child list follows the new seed order.
    let children = host.children_of_node(&root).unwrap();
    assert_eq!(children, vec![a, c, b]);
}

/// A parent that produces a child of one class tag and then a child of
/// another class under the same sibling key.
struct Swapper {
    pass: u32,
}

#[derive(Clone)]
enum SwapInput {
    Parent,
    Leaf,
}

impl Component for Swapper {
    type Input = SwapInput;

    fn type_tag() -> u64 {
        4
    }

    fn construct(_input: &SwapInput) -> Swapper {
        Swapper { pass: 0 }
    }

    fn step(&mut self, control: &mut NodeControl<Self>, input: &SwapInput) -> Vec<Seed<Self>> {
        match input {
            SwapInput::Parent => {
                self.pass += 1;
                let tag = if self.pass == 1 {
                    control.rerender();
                    40
                } else {
                    41
                };
                vec![seed_tagged::<Swapper>(tag, SwapInput::Leaf, format!("k"))]
            },
            SwapInput::Leaf => Vec::new(),
        }
    }
}

#[test]
fn type_tag_swap_replaces_node() {
    let mut host = NodeHost::<Swapper>::make_root(seed(SwapInput::Parent, format!("root")));
    let r1 = host.render();
    let root = r1.rendered_keys[0];
    let old_child = r1.rendered_keys[1];
    let r2 = host.render();
    // The old node is unlinked and a fresh node takes the slot.
    assert_eq!(r2.unlinked_node_pairs.len(), 1);
    assert_eq!(r2.unlinked_node_pairs[0].0, old_child);
    let new_child = r2.rendered_keys[1];
    assert_ne!(new_child, old_child);
    assert!(!host.contains_node(&old_child));
    assert!(host.contains_node(&new_child));
    assert_eq!(host.children_of_node(&root).unwrap(), vec![new_child]);
}

/// A parent that first produces two children and then none, to show that an
/// empty seed vector unlinks all current children in one pass.
struct Clearing {
    pass: u32,
}

#[derive(Clone)]
enum ClearInput {
    Parent,
    Mid,
    Leaf,
}

impl Component for Clearing {
    type Input = ClearInput;

    fn type_tag() -> u64 {
        5
    }

    fn construct(_input: &ClearInput) -> Clearing {
        Clearing { pass: 0 }
    }

    fn step(&mut self, control: &mut NodeControl<Self>, input: &ClearInput) -> Vec<Seed<Self>> {
        match input {
            ClearInput::Parent => {
                self.pass += 1;
                if self.pass == 1 {
                    control.rerender();
                    vec![
                        seed_tagged::<Clearing>(50, ClearInput::Mid, format!("m")),
                        seed_tagged::<Clearing>(51, ClearInput::Leaf, format!("x")),
                    ]
                } else {
                    Vec::new()
                }
            },
            ClearInput::Mid => {
                vec![seed_tagged::<Clearing>(51, ClearInput::Leaf, format!("y"))]
            },
            ClearInput::Leaf => Vec::new(),
        }
    }
}

#[test]
fn empty_seed_vector_unlinks_descendants() {
    let mut host = NodeHost::<Clearing>::make_root(seed(ClearInput::Parent, format!("root")));
    let r1 = host.render();
    // root, mid, leaf-x, then mid's leaf-y.
    assert_eq!(r1.rendered_keys.len(), 4);
    let root = r1.rendered_keys[0];
    let mid = r1.rendered_keys[1];
    let x = r1.rendered_keys[2];
    let y = r1.rendered_keys[3];
    let r2 = host.render();
    // All three descendants are gone in one pass.
    assert_eq!(r2.unlinked_node_pairs.len(), 3);
    for k in [mid, x, y] {
        assert!(r2.unlinked_node_pairs.iter().any(|p| p.0 == k));
        assert!(!host.contains_node(&k));
    }
    assert_eq!(host.children_of_node(&root).unwrap(), Vec::<Key>::new());
}

/// A parent that produces two sibling seeds with the same key on every
/// pass.
struct Duplicator;

#[derive(Clone)]
enum DupInput {
    Parent,
    Leaf,
}

impl Component for Duplicator {
    type Input = DupInput;

    fn type_tag() -> u64 {
        6
    }

    fn construct(_input: &DupInput) -> Duplicator {
        Duplicator
    }

    fn step(&mut self, control: &mut NodeControl<Self>, input: &DupInput) -> Vec<Seed<Self>> {
        match input {
            DupInput::Parent => {
                control.rerender();
                vec![
                    seed_tagged::<Duplicator>(60, DupInput::Leaf, format!("dup")),
                    seed_tagged::<Duplicator>(60, DupInput::Leaf, format!("dup")),
                ]
            },
            DupInput::Leaf => Vec::new(),
        }
    }
}

#[test]
fn duplicate_sibling_keys_first_wins_reuse() {
    let mut host = NodeHost::<Duplicator>::make_root(seed(DupInput::Parent, format!("root")));
    let r1 = host.render();
    let root = r1.rendered_keys[0];
    let n1 = r1.rendered_keys[1];
    let n2 = r1.rendered_keys[2];
    // Both seeds produced a node of their own.
    assert_ne!(n1, n2);
    let r2 = host.render();
    let children = host.children_of_node(&root).unwrap();
    assert_eq!(children.len(), 2);
    // The first seed wins the reuse; the second is sprouted fresh.
    assert_eq!(children[0], n2);
    assert_ne!(children[1], n1);
    assert_ne!(children[1], n2);
    assert_eq!(r2.rendered_keys.len(), 3);
}

/// Root sets a context value, a grandchild reads it; on the second pass the
/// intermediate child shadows it with its own value.
struct CtxFamily {
    pass: u32,
}

#[derive(Clone)]
enum CtxInput {
    Root,
    Mid,
    Leaf,
    Val(i32),
}

const CTX_TAG: u64 = 7;

impl Component for CtxFamily {
    type Input = CtxInput;

    fn type_tag() -> u64 {
        7
    }

    fn construct(_input: &CtxInput) -> CtxFamily {
        CtxFamily { pass: 0 }
    }

    fn step(&mut self, control: &mut NodeControl<Self>, input: &CtxInput) -> Vec<Seed<Self>> {
        self.pass += 1;
        match input {
            CtxInput::Root => {
                if self.pass == 1 {
                    control.rerender();
                }
                let mut access = control.use_context();
                access.set_context_at(CTX_TAG, CtxInput::Val(42));
                vec![seed_tagged::<CtxFamily>(70, CtxInput::Mid, format!("mid"))]
            },
            CtxInput::Mid => {
                if self.pass >= 2 {
                    let mut access = control.use_context();
                    access.set_context_at(CTX_TAG, CtxInput::Val(7));
                }
                vec![seed_tagged::<CtxFamily>(71, CtxInput::Leaf, format!("leaf"))]
            },
            CtxInput::Leaf => {
                let expected = if self.pass == 1 {
                    42
                } else {
                    7
                };
                let access = control.use_context();
                match access.get_context_at(CTX_TAG) {
                    Some(CtxInput::Val(v)) => assert_eq!(*v, expected),
                    _ => panic!("context value missing"),
                }
                Vec::new()
            },
            CtxInput::Val(_) => Vec::new(),
        }
    }
}

#[test]
fn context_inheritance_and_shadowing() {
    let mut host = NodeHost::<CtxFamily>::make_root(seed(CtxInput::Root, format!("root")));
    let r1 = host.render();
    assert_eq!(r1.rendered_keys.len(), 3);
    let r2 = host.render();
    assert_eq!(r2.rendered_keys.len(), 3);
}

/// The marker type naming the context slot the `SetGet` component uses.
struct SlotToken;

impl ContextContainer for SlotToken {
    fn container_tag() -> u64 {
        11
    }
}

/// A component that sets a context value and reads it back within the same
/// step.
struct SetGet;

#[derive(Clone)]
enum SetGetInput {
    Only,
    Val(u64),
}

impl Component for SetGet {
    type Input = SetGetInput;

    fn type_tag() -> u64 {
        8
    }

    fn construct(_input: &SetGetInput) -> SetGet {
        SetGet
    }

    fn step(&mut self, control: &mut NodeControl<Self>, _input: &SetGetInput) -> Vec<Seed<Self>> {
        let mut access = control.use_context();
        assert!(!access.has::<SlotToken>());
        let previous = access.set_context::<SlotToken>(SetGetInput::Val(5));
        assert!(previous.is_none());
        assert!(access.has::<SlotToken>());
        match access.get_context::<SlotToken>() {
            Some(SetGetInput::Val(v)) => assert_eq!(*v, 5),
            _ => panic!("value just set must be readable"),
        }
        match access.get_context_at(11) {
            Some(SetGetInput::Val(v)) => assert_eq!(*v, 5),
            _ => panic!("the container tag names the same slot"),
        }
        let replaced = access.set_context_at(11, SetGetInput::Val(6));
        assert!(matches!(replaced, Some(SetGetInput::Val(5))));
        Vec::new()
    }
}

#[test]
fn set_then_get_same_context() {
    let mut host = NodeHost::<SetGet>::make_root(seed(SetGetInput::Only, format!("root")));
    let r = host.render();
    assert_eq!(r.rendered_keys.len(), 1);
}

/// A child that stores its self-render signal in a side channel handed in
/// through its input.
struct Signaling;

#[derive(Clone)]
enum SignalInput {
    Parent(Arc<Mutex<Option<SelfRender>>>),
    Child(Arc<Mutex<Option<SelfRender>>>),
}

impl Component for Signaling {
    type Input = SignalInput;

    fn type_tag() -> u64 {
        9
    }

    fn construct(_input: &SignalInput) -> Signaling {
        Signaling
    }

    fn step(&mut self, control: &mut NodeControl<Self>, input: &SignalInput) -> Vec<Seed<Self>> {
        match input {
            SignalInput::Parent(slot) => {
                vec![seed_tagged::<Signaling>(
                    90,
                    SignalInput::Child(slot.clone()),
                    format!("child"),
                )]
            },
            SignalInput::Child(slot) => {
                *slot.lock().unwrap() = Some(control.self_render());
                Vec::new()
            },
        }
    }
}

#[test]
fn external_self_render_collapses_duplicates() {
    let slot: Arc<Mutex<Option<SelfRender>>> = Arc::new(Mutex::new(None));
    let mut host =
        NodeHost::<Signaling>::make_root(seed(SignalInput::Parent(slot.clone()), format!("root")));
    let r1 = host.render();
    assert_eq!(r1.rendered_keys.len(), 2);
    let child = r1.rendered_keys[1];
    // Converged: no more work.
    assert_eq!(host.render().rendered_keys.len(), 0);
    // Outside code triggers the signal twice; duplicates collapse to one
    // render of exactly the signalled node.
    let signal = slot.lock().unwrap().clone().unwrap();
    assert!(signal.rerender().is_ok());
    assert!(signal.rerender().is_ok());
    host.poll_work();
    let r2 = host.render();
    assert_eq!(r2.rendered_keys, vec![child]);
    let r3 = host.render();
    assert_eq!(r3.rendered_keys.len(), 0);
}

/// A parent that drops its signal-holding child on the second pass.
struct Orphaning {
    pass: u32,
}

impl Component for Orphaning {
    type Input = SignalInput;

    fn type_tag() -> u64 {
        10
    }

    fn construct(_input: &SignalInput) -> Orphaning {
        Orphaning { pass: 0 }
    }

    fn step(&mut self, control: &mut NodeControl<Self>, input: &SignalInput) -> Vec<Seed<Self>> {
        match input {
            SignalInput::Parent(slot) => {
                self.pass += 1;
                if self.pass == 1 {
                    control.rerender();
                    vec![seed_tagged::<Orphaning>(
                        100,
                        SignalInput::Child(slot.clone()),
                        format!("child"),
                    )]
                } else {
                    Vec::new()
                }
            },
            SignalInput::Child(slot) => {
                *slot.lock().unwrap() = Some(control.self_render());
                Vec::new()
            },
        }
    }
}

#[test]
fn stale_key_renders_as_unrendered() {
    let slot: Arc<Mutex<Option<SelfRender>>> = Arc::new(Mutex::new(None));
    let mut host =
        NodeHost::<Orphaning>::make_root(seed(SignalInput::Parent(slot.clone()), format!("root")));
    let r1 = host.render();
    let child = r1.rendered_keys[1];
    let signal = slot.lock().unwrap().clone().unwrap();
    // Second pass drops the child.
    let r2 = host.render();
    assert!(r2.unlinked_node_pairs.iter().any(|p| p.0 == child));
    assert!(!host.contains_node(&child));
    // A stale render request for the unlinked child is reported, not acted
    // on, and the lake is intact.
    assert!(signal.rerender().is_ok());
    host.poll_work();
    let r3 = host.render();
    assert_eq!(r3.unrendered_keys, vec![child]);
    assert_eq!(r3.rendered_keys.len(), 0);
    assert!(!host.contains_node(&child));
}

/// A parent that hands its child a fresh input on every render; the child
/// checks that a reused node always sees the latest input.
struct Refresher {
    renders: u32,
}

#[derive(Clone)]
enum RefreshInput {
    Parent,
    Leaf(u32),
}

impl Component for Refresher {
    type Input = RefreshInput;

    fn type_tag() -> u64 {
        12
    }

    fn construct(_input: &RefreshInput) -> Refresher {
        Refresher { renders: 0 }
    }

    fn step(&mut self, control: &mut NodeControl<Self>, input: &RefreshInput) -> Vec<Seed<Self>> {
        self.renders += 1;
        match input {
            RefreshInput::Parent => {
                if self.renders < 3 {
                    control.rerender();
                }
                vec![seed_tagged::<Refresher>(
                    120,
                    RefreshInput::Leaf(self.renders),
                    format!("leaf"),
                )]
            },
            RefreshInput::Leaf(round) => {
                // The node is reused across renders (its own render count
                // grows), yet the input is replaced every time.
                assert_eq!(*round, self.renders);
                Vec::new()
            },
        }
    }
}

#[test]
fn reused_node_receives_fresh_input() {
    let mut host = NodeHost::<Refresher>::make_root(seed(RefreshInput::Parent, format!("root")));
    let r1 = host.render();
    let leaf = r1.rendered_keys[1];
    let r2 = host.render();
    let r3 = host.render();
    assert_eq!(r2.rendered_keys[1], leaf);
    assert_eq!(r3.rendered_keys[1], leaf);
    assert_eq!(r2.unlinked_node_pairs.len(), 0);
    assert_eq!(r3.unlinked_node_pairs.len(), 0);
}

#[test]
fn node_identity_reports_tag_and_key() {
    let mut host = NodeHost::<Swapper>::make_root(seed(SwapInput::Parent, format!("top")));
    let r1 = host.render();
    let root = r1.rendered_keys[0];
    let child = r1.rendered_keys[1];
    let (root_tag, root_key) = host.node_identity(&root).unwrap();
    assert_eq!(root_tag, Swapper::type_tag());
    assert_eq!(root_key, Some(String::from("top")));
    let (child_tag, child_key) = host.node_identity(&child).unwrap();
    assert_eq!(child_tag, 40);
    assert_eq!(child_key, Some(String::from("k")));
}

#[test]
fn key_index_is_stable_identity() {
    let mut host = NodeHost::<Countdown>::make_root(seed(CountdownInput { count: 1 }, format!("r")));
    let r = host.render();
    let root = r.rendered_keys[0];
    let copy = root;
    assert_eq!(root, copy);
    assert_eq!(root.index(), copy.index());
    assert_ne!(root, r.rendered_keys[1]);
}
