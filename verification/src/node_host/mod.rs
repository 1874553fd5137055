//! The host: the lake, the render work queues, and the control handle a
//! step function receives.
//!
//! The host owns the lake and two ways of feeding it work: a local queue of
//! render items it processes one per `render` call, and an external signal
//! channel whose sender side lives inside installed self-render signals.
//! One `render` call performs a complete downward pass from its starting
//! node: every child produced during the pass is rendered in the same pass,
//! after its parent, while self-rerender requests are deferred to a later
//! call.

pub mod context_access;
pub mod lake;
pub mod render;

use crate::embeddable::context_holder::ContextHolder;
use crate::key::{Key, Seed};
use crate::node::{Component, WorkItem};
use lake::NodeLake;
use render::{
    children_keys_distinct, children_tidy, seeds_keys_distinct, UnlinkedPair,
};
use std::collections::VecDeque;
use vstd::prelude::*;

verus! {

/// Step-time capabilities, scoped to one invocation of a step function.
///
/// The control borrows the lake read-only and owns the rendered node's
/// context holder for the duration of the step, so a step function can read
/// inherited context, write its own, and request a re-render, but cannot
/// touch the lake, its siblings or its parent.
pub struct NodeControl<'a, C: Component> {
    pub(crate) lake: &'a NodeLake<C>,
    pub(crate) current: Key,
    pub(crate) holder: ContextHolder<C::Input>,
    pub(crate) rerender_flag: bool,
}

impl<'a, C: Component> NodeControl<'a, C> {
    /// The control is only ever built around a live node of a structurally
    /// well-formed lake.
    #[verifier::type_invariant]
    closed spec fn type_wf(self) -> bool {
        self.lake.wf_core() && self.lake.contains(self.current)
    }

    /// Whether the step function asked for a re-render of its node.
    pub open(crate) spec fn spec_rerender_requested(self) -> bool {
        self.rerender_flag
    }

    /// The key of the node being stepped.
    pub open(crate) spec fn spec_current(self) -> Key {
        self.current
    }

    /// The context value the stepped node itself holds for a tag.
    pub open(crate) spec fn spec_own_context(self, tag: u64) -> Option<C::Input> {
        self.holder.spec_get(tag)
    }

    /// The lake the control reads.
    pub open(crate) spec fn spec_lake(self) -> NodeLake<C> {
        *self.lake
    }

    /// Flags the current node for another render in a later cycle.
    pub fn rerender(&mut self)
        ensures
            final(self).spec_rerender_requested(),
            final(self).spec_current() == old(self).spec_current(),
            forall|t: u64|
                #[trigger] final(self).spec_own_context(t) == old(self).spec_own_context(t),
    {
        proof {
            use_type_invariant(&*self);
        }
        self.rerender_flag = true;
    }

    /// A working copy of the current node's self-render signal, so a
    /// component can store it aside and trigger itself from outside the
    /// render loop.
    pub fn self_render(&self) -> (r: crate::node::SelfRender)
        ensures
            r.spec_target() == self.spec_lake().self_render_of(
                self.spec_current(),
            ).spec_target(),
    {
        proof {
            use_type_invariant(&*self);
        }
        self.lake.self_render_snapshot(&self.current)
    }

    /// Context access bound to the current node.
    pub fn use_context<'b>(&'b mut self) -> (r: context_access::ContextAccess<'b, 'a, C>) {
        proof {
            use_type_invariant(&*self);
        }
        context_access::ContextAccess { control: self }
    }
}

/// What a step invocation left behind once the control handle is folded
/// away: whether the node asked to be rendered again.
pub struct NodeControlResult {
    pub(crate) rerender_flag: bool,
}

impl NodeControlResult {
    /// Whether the node asked to be rendered again.
    pub open(crate) spec fn spec_rerender(self) -> bool {
        self.rerender_flag
    }
}

/// Whether one of the collected unlinked pairs names the key.
pub open spec fn unlinked_key_listed<C: Component>(pairs: Seq<UnlinkedPair<C>>, j: Key) -> bool {
    exists|pi: int| 0 <= pi < pairs.len() && (#[trigger] pairs[pi]).0 == j
}

/// The key a work item asks to render.
pub(crate) open spec fn work_item_key(w: WorkItem) -> Key {
    match w {
        WorkItem::Render(k) => k,
    }
}

/// Records one externally signalled key for this poll: the key is appended
/// exactly when this poll has not collected it yet, so duplicate signals
/// for one node collapse to a single render item, whatever arrived on the
/// channel.
pub(crate) fn note_signal(sources: &mut Vec<Key>, key: Key)
    ensures
        old(sources)@.contains(key) ==> final(sources)@ == old(sources)@,
        !old(sources)@.contains(key) ==> final(sources)@ == old(sources)@.push(key),
{
    if !render::key_in(sources, &key) {
        sources.push(key);
    }
}

/// The observable outcome of one `render` call: which nodes were rendered,
/// which queued keys had already lost their data, and which nodes were
/// unlinked together with the data they held.
pub struct RenderReport<C: Component> {
    pub unrendered_keys: Vec<Key>,
    pub rendered_keys: Vec<Key>,
    pub unlinked_node_pairs: Vec<UnlinkedPair<C>>,
}

/// The external self-render path: a cloneable sender handed to nodes when
/// their signal is installed, and the receiver the host drains on demand.
pub struct ExternalRenderWorkQueue {
    pub(crate) sender: crossbeam::channel::Sender<Key>,
    pub(crate) receiver: crossbeam::channel::Receiver<Key>,
}

impl ExternalRenderWorkQueue {
    /// A fresh, connected signal channel.
    pub(crate) fn new() -> Self {
        let (sender, receiver) = crossbeam::channel::unbounded();
        ExternalRenderWorkQueue { sender, receiver }
    }
}

/// The host: the lake plus the render work queues.
pub struct NodeHost<C: Component> {
    pub(crate) lake: NodeLake<C>,
    pub(crate) work_queue: VecDeque<WorkItem>,
    pub(crate) external_render_work_queue: ExternalRenderWorkQueue,
    pub(crate) dup_free: Ghost<bool>,
}

impl<C: Component> NodeHost<C> {
    /// Between renders the lake is always structurally well-formed and every
    /// node's payload is in place; and as long as no component has produced
    /// duplicate sibling keys, the tree is fully linked.
    #[verifier::type_invariant]
    closed spec fn type_wf(self) -> bool {
        self.lake.wf_core() && self.lake.data_ok() && (self.dup_free@ ==> self.lake.linked()
            && children_tidy(self.lake))
    }

    /// Whether every seed list any component produced so far had pairwise
    /// distinct sibling keys.  While this holds, the lake is fully linked:
    /// every node's parent lists it as a child.
    pub open(crate) spec fn spec_dup_free(self) -> bool {
        self.dup_free@
    }

    /// The lake as the host currently holds it.
    pub open(crate) spec fn lake_of(self) -> NodeLake<C> {
        self.lake
    }

    /// How many render items sit in the host's own work queue.
    pub open(crate) spec fn spec_queue_len(self) -> nat {
        self.work_queue@.len()
    }

    /// The key of the queued render item at a position.
    pub open(crate) spec fn queued_key(self, i: int) -> Key {
        work_item_key(self.work_queue@[i])
    }

    /// Sprouts the root node from a seed and enqueues its first render.
    pub fn make_root(seed: Seed<C>) -> (host: NodeHost<C>)
        ensures
            host.lake_of().cap() == 1,
            exists|root: Key|
                #![trigger host.lake_of().spec_node(root)]
                host.lake_of().contains(root) && host.lake_of().tag_of(root) == seed.spec_tag()
                    && host.lake_of().key_of(root) == seed.spec_key() && host.lake_of().input_of(
                    root,
                ) == seed.spec_input() && host.lake_of().parent_of(root) is None
                    && host.lake_of().children_of(root).len() == 0 && host.queued_key(0) == root,
            host.spec_queue_len() == 1,
    {
        let mut queue: VecDeque<WorkItem> = VecDeque::new();
        let mut lake: NodeLake<C> = NodeLake::new();
        let node_key = lake.sprout_and_link(seed);
        queue.push_front(WorkItem::Render(node_key));
        proof {
            assert forall|j: Key| lake.contains(j) implies j == node_key by {}
            assert(lake.wf_core());
            assert forall|j: Key| lake.contains(j) implies #[trigger] lake.has_data(j) by {
                assert(j == node_key);
            }
        }
        proof {
            assert forall|j: Key|
                lake.contains(j) && (#[trigger] lake.parent_of(j)).is_some() implies
                lake.contains(lake.parent_of(j).unwrap()) && lake.children_of(
                lake.parent_of(j).unwrap(),
            ).contains(j) by {
                assert(j == node_key);
            }
            assert forall|p: Key| lake.contains(p) implies children_keys_distinct(
                lake,
                #[trigger] lake.children_of(p),
            ) by {
                assert(p == node_key);
                assert(lake.children_of(p).len() == 0);
            }
        }
        NodeHost {
            lake,
            work_queue: queue,
            external_render_work_queue: ExternalRenderWorkQueue::new(),
            dup_free: Ghost(true),
        }
    }

    /// The identity of a live node: its class tag and sibling key.
    pub fn node_identity(&self, k: &Key) -> (r: Option<(u64, Option<String>)>)
        ensures
            match r {
                Some(pair) => self.lake_of().contains(*k) && pair.0 == self.lake_of().tag_of(*k)
                    && crate::key::spec_key_string(pair.1) == self.lake_of().key_of(*k),
                None => !self.lake_of().contains(*k),
            },
    {
        if self.lake.contains_key(k) {
            Some((self.lake.read_tag(k), self.lake.key_clone(k)))
        } else {
            None
        }
    }

    /// Whether a key still resolves to a live node.
    pub fn contains_node(&self, k: &Key) -> (r: bool)
        ensures
            r == self.lake_of().contains(*k),
    {
        self.lake.contains_key(k)
    }

    /// The children of a live node, in sibling order.
    pub fn children_of_node(&self, k: &Key) -> (r: Option<Vec<Key>>)
        ensures
            match r {
                Some(v) => self.lake_of().contains(*k) && v@ == self.lake_of().children_of(*k),
                None => !self.lake_of().contains(*k),
            },
    {
        if self.lake.contains_key(k) {
            Some(self.lake.children_snapshot(k))
        } else {
            None
        }
    }

    /// Pops one work item and processes it: a complete downward render pass
    /// from the popped node.  With no work queued, an empty report.
    ///
    /// A live queue head is rendered and leads the report's rendered list;
    /// a queue head whose node is already gone is reported as the only
    /// unrendered key, with nothing rendered, nothing unlinked and the lake
    /// untouched.  Whatever the components did, the pass keeps every
    /// surviving node's identity, every unlinked node is really gone, the
    /// rest of the queue is kept in order, and every item the pass appends
    /// re-renders a node that was rendered in this pass.
    pub fn render(&mut self) -> (report: RenderReport<C>)
        ensures
            NodeLake::identity_preserved(old(self).lake_of(), final(self).lake_of()),
            final(self).lake_of().wf_core(),
            final(self).lake_of().data_ok(),
            final(self).spec_dup_free() ==> final(self).lake_of().linked(),
            old(self).spec_dup_free() == false ==> final(self).spec_dup_free() == false,
            forall|ri: int|
                0 <= ri < report.rendered_keys@.len() && (
                #[trigger] report.rendered_keys@[ri]).sid() < old(self).lake_of().cap() ==> old(self).lake_of().contains(report.rendered_keys@[ri]),
            forall|ri: int|
                0 <= ri < report.rendered_keys@.len() ==> (
                #[trigger] report.rendered_keys@[ri]).sid() < final(self).lake_of().cap(),
            forall|u: int|
                0 <= u < report.unrendered_keys@.len() && (
                #[trigger] report.unrendered_keys@[u]).sid() < old(self).lake_of().cap()
                    ==> !final(self).lake_of().contains(report.unrendered_keys@[u]),
            forall|pi: int|
                0 <= pi < report.unlinked_node_pairs@.len() ==> !final(self).lake_of().contains(
                    (#[trigger] report.unlinked_node_pairs@[pi]).0,
                ),
            old(self).spec_queue_len() == 0 ==> final(self).lake_of() == old(self).lake_of()
                && final(self).spec_queue_len() == 0 && report.rendered_keys@.len() == 0
                && report.unrendered_keys@.len() == 0 && report.unlinked_node_pairs@.len() == 0,
            old(self).spec_queue_len() > 0 && !old(self).lake_of().contains(
                old(self).queued_key(0),
            ) ==> report.unrendered_keys@.len() == 1 && report.unrendered_keys@[0] == old(self).queued_key(0) && report.rendered_keys@.len() == 0
                && report.unlinked_node_pairs@.len() == 0 && final(self).lake_of() == old(self).lake_of() && final(self).spec_queue_len() + 1 == old(self).spec_queue_len(),
            old(self).spec_queue_len() > 0 && old(self).lake_of().contains(
                old(self).queued_key(0),
            ) ==> report.rendered_keys@.len() > 0 && report.rendered_keys@[0] == old(self).queued_key(0),
            old(self).spec_queue_len() > 0 ==> final(self).spec_queue_len() + 1 >= old(self).spec_queue_len(),
            forall|qi: int|
                0 <= qi && qi + 1 < old(self).spec_queue_len() ==> qi < final(self).spec_queue_len() && #[trigger] final(self).queued_key(qi) == old(self).queued_key(qi + 1),
            forall|qi: int|
                old(self).spec_queue_len() as int - 1 <= qi < final(self).spec_queue_len() && 0
                    <= qi ==> report.rendered_keys@.contains(#[trigger] final(self).queued_key(qi)),
            forall|qi1: int, qi2: int|
                old(self).spec_queue_len() as int - 1 <= qi1 < qi2 < final(self).spec_queue_len()
                    && 0 <= qi1 ==> #[trigger] final(self).queued_key(qi1)
                    != #[trigger] final(self).queued_key(qi2),
            forall|r1: int, r2: int|
                #![trigger report.rendered_keys@[r1], report.rendered_keys@[r2]]
                0 <= r1 < r2 < report.rendered_keys@.len() ==> report.rendered_keys@[r1]
                    != report.rendered_keys@[r2],
            forall|ri: int, ui: int|
                0 <= ri < report.rendered_keys@.len() && 0 <= ui < report.unrendered_keys@.len()
                    ==> #[trigger] report.rendered_keys@[ri]
                    != #[trigger] report.unrendered_keys@[ui],
            forall|u1: int, u2: int|
                #![trigger report.unrendered_keys@[u1], report.unrendered_keys@[u2]]
                0 <= u1 < u2 < report.unrendered_keys@.len() ==> report.unrendered_keys@[u1]
                    != report.unrendered_keys@[u2],
            old(self).spec_queue_len() > 0 && old(self).lake_of().contains(
                old(self).queued_key(0),
            ) && report.rendered_keys@.len() + report.unrendered_keys@.len() < u64::MAX
                ==> forall|ri: int, ci: int|
                #![trigger final(self).lake_of().children_of(report.rendered_keys@[ri])[ci]]
                0 <= ri < report.rendered_keys@.len() && final(self).lake_of().contains(
                    report.rendered_keys@[ri],
                ) && 0 <= ci < final(self).lake_of().children_of(report.rendered_keys@[ri]).len()
                    && final(self).lake_of().contains(
                    final(self).lake_of().children_of(report.rendered_keys@[ri])[ci],
                ) ==> (exists|rj: int|
                    ri < rj < report.rendered_keys@.len() && report.rendered_keys@[rj]
                        == final(self).lake_of().children_of(report.rendered_keys@[ri])[ci])
                    || report.unrendered_keys@.contains(
                    final(self).lake_of().children_of(report.rendered_keys@[ri])[ci],
                ),
            old(self).spec_queue_len() > 0 && old(self).lake_of().contains(
                old(self).queued_key(0),
            ) ==> forall|ri: int, ci1: int, ci2: int, rj1: int, rj2: int|
                #![trigger final(self).lake_of().children_of(report.rendered_keys@[ri])[ci1], final(self).lake_of().children_of(report.rendered_keys@[ri])[ci2], report.rendered_keys@[rj1], report.rendered_keys@[rj2]]
                0 <= ri < report.rendered_keys@.len() && final(self).lake_of().contains(
                    report.rendered_keys@[ri],
                ) && 0 <= ci1 < ci2 < final(self).lake_of().children_of(
                    report.rendered_keys@[ri],
                ).len() && final(self).lake_of().children_of(report.rendered_keys@[ri])[ci1]
                    != final(self).lake_of().children_of(report.rendered_keys@[ri])[ci2] && 0
                    <= rj1 < report.rendered_keys@.len() && 0 <= rj2
                    < report.rendered_keys@.len() && report.rendered_keys@[rj1]
                    == final(self).lake_of().children_of(report.rendered_keys@[ri])[ci1]
                    && report.rendered_keys@[rj2] == final(self).lake_of().children_of(
                    report.rendered_keys@[ri],
                )[ci2] ==> rj1 < rj2,
            report.rendered_keys@.len() + report.unrendered_keys@.len() < u64::MAX ==> forall|
                j: Key,
            |
                #![trigger final(self).lake_of().spec_node(j)]
                old(self).lake_of().contains(j) && !report.rendered_keys@.contains(j)
                    && !report.unrendered_keys@.contains(j) && !unlinked_key_listed(
                    report.unlinked_node_pairs@,
                    j,
                ) ==> final(self).lake_of().contains(j) && final(self).lake_of().spec_node(j)
                    == old(self).lake_of().spec_node(j),
    {
        proof {
            use_type_invariant(&*self);
        }
        let mut q: VecDeque<WorkItem> = VecDeque::new();
        core::mem::swap(&mut q, &mut self.work_queue);
        let work_opt = q.pop_front();
        core::mem::swap(&mut q, &mut self.work_queue);
        let report = match work_opt {
            Some(work) => {
                let x = match work {
                    WorkItem::Render(k) => k,
                };
                proof {
                    assert(x == old(self).queued_key(0));
                    assert(self.work_queue@.len() + 1 == old(self).work_queue@.len());
                    assert forall|qi: int|
                        0 <= qi < self.work_queue@.len() implies #[trigger] self.work_queue@[qi]
                        == old(self).work_queue@[qi + 1] by {}
                }
                let ghost mid = *self;
                let r = self.render_node(x);
                proof {
                    assert(mid.lake == old(self).lake);
                    assert forall|qi: int|
                        0 <= qi && qi + 1 < old(self).spec_queue_len() implies qi < self
                            .spec_queue_len() && #[trigger] self.queued_key(qi) == old(self).queued_key(qi + 1) by {
                        assert(self.queued_key(qi) == mid.queued_key(qi));
                        assert(mid.work_queue@[qi] == old(self).work_queue@[qi + 1]);
                    }
                    assert forall|qi: int|
                        old(self).spec_queue_len() as int - 1 <= qi < self.spec_queue_len() && 0
                            <= qi implies r.rendered_keys@.contains(
                        #[trigger] self.queued_key(qi),
                    ) by {
                        assert(mid.spec_queue_len() <= qi);
                    }
                }
                r
            },
            None => RenderReport {
                unrendered_keys: Vec::new(),
                rendered_keys: Vec::new(),
                unlinked_node_pairs: Vec::new(),
            },
        };
        report
    }

    /// Drains the external signal channel without blocking, collapses
    /// duplicate keys, and appends the signalled nodes to the work queue.
    /// What arrives on the channel is up to other threads; whatever it is,
    /// the lake is untouched, the existing queue is kept, and the appended
    /// render items carry pairwise distinct keys.
    #[verifier::loop_isolation(false)]
    pub fn poll_work(&mut self)
        ensures
            final(self).lake_of() == old(self).lake_of(),
            final(self).spec_queue_len() >= old(self).spec_queue_len(),
            forall|i: int|
                0 <= i < old(self).spec_queue_len() ==> #[trigger] final(self).queued_key(i)
                    == old(self).queued_key(i),
            forall|i1: int, i2: int|
                old(self).spec_queue_len() <= i1 < i2 < final(self).spec_queue_len()
                    ==> (#[trigger] final(self).queued_key(i1)) != (
                #[trigger] final(self).queued_key(i2)),
    {
        proof {
            use_type_invariant(&*self);
        }
        let mut sources: Vec<Key> = Vec::new();
        let budget = self.external_render_work_queue.receiver.len();
        let mut drained: usize = 0;
        while drained < budget
            invariant
                drained <= budget,
                forall|i1: int, i2: int|
                    #![trigger sources@[i1], sources@[i2]]
                    0 <= i1 < i2 < sources@.len() ==> sources@[i1] != sources@[i2],
            decreases budget - drained,
        {
            match self.external_render_work_queue.receiver.try_recv() {
                Ok(key) => {
                    let ghost sv = sources@;
                    note_signal(&mut sources, key);
                    proof {
                        assert forall|i1: int, i2: int|
                            #![trigger sources@[i1], sources@[i2]]
                            0 <= i1 < i2 < sources@.len() implies sources@[i1]
                            != sources@[i2] by {
                            if sources@.len() == sv.len() + 1 && i2 == sources@.len() - 1 {
                                assert(sources@[i1] == sv[i1]);
                                assert(!sv.contains(key));
                            } else {
                                assert(sources@[i1] == sv[i1]);
                                assert(sources@[i2] == sv[i2]);
                            }
                        }
                    }
                },
                Err(_) => {
                    break ;
                },
            }
            drained = drained + 1;
        }
        let mut q: VecDeque<WorkItem> = VecDeque::new();
        core::mem::swap(&mut q, &mut self.work_queue);
        let ghost q0 = q@;
        let n = sources.len();
        let mut i: usize = 0;
        while i < n
            invariant
                n == sources@.len(),
                0 <= i <= n,
                q@.len() == q0.len() + i,
                forall|qi: int| 0 <= qi < q0.len() ==> #[trigger] q@[qi] == q0[qi],
                forall|qi: int|
                    q0.len() <= qi < q@.len() ==> #[trigger] q@[qi] == WorkItem::Render(
                        sources@[qi - q0.len()],
                    ),
            decreases n - i,
        {
            let k = sources[i];
            q.push_back(WorkItem::Render(k));
            i = i + 1;
        }
        core::mem::swap(&mut q, &mut self.work_queue);
        proof {
            assert forall|i1: int, i2: int|
                q0.len() <= i1 < i2 < self.work_queue@.len() implies (
            #[trigger] self.work_queue@[i1]) != (#[trigger] self.work_queue@[i2]) by {
                assert(self.work_queue@[i1] == WorkItem::Render(sources@[i1 - q0.len()]));
                assert(self.work_queue@[i2] == WorkItem::Render(sources@[i2 - q0.len()]));
            }
        }
    }

    /// One complete downward render pass from `node_key`: renders the node,
    /// then every child the pass produced, children after their parents, in
    /// production order.  Self-rerender requests collected during the pass
    /// are appended to the host's queue only once the pass is done, one per
    /// flagged node, and only for nodes this pass rendered.  A start node
    /// whose data is already gone is reported as the only unrendered key
    /// and nothing else happens.
    #[verifier::loop_isolation(false)]
    #[verifier::rlimit(100)]
    #[verifier::spinoff_prover]
    fn render_node(&mut self, node_key: Key) -> (report: RenderReport<C>)
        requires
            old(self).lake.wf_core(),
            old(self).lake.data_ok(),
        ensures
            NodeLake::identity_preserved(old(self).lake, final(self).lake),
            final(self).lake.wf_core(),
            final(self).lake.data_ok(),
            final(self).dup_free@ ==> final(self).lake.linked() && children_tidy(final(self).lake),
            old(self).dup_free@ == false ==> final(self).dup_free@ == false,
            forall|ri: int|
                0 <= ri < report.rendered_keys@.len() && (
                #[trigger] report.rendered_keys@[ri]).sid() < old(self).lake.cap() ==> old(self).lake.contains(report.rendered_keys@[ri]),
            forall|ri: int|
                0 <= ri < report.rendered_keys@.len() ==> (
                #[trigger] report.rendered_keys@[ri]).sid() < final(self).lake.cap(),
            forall|u: int|
                0 <= u < report.unrendered_keys@.len() && (
                #[trigger] report.unrendered_keys@[u]).sid() < old(self).lake.cap() ==> !final(self).lake.contains(report.unrendered_keys@[u]),
            forall|pi: int|
                0 <= pi < report.unlinked_node_pairs@.len() ==> !final(self).lake.contains(
                    (#[trigger] report.unlinked_node_pairs@[pi]).0,
                ),
            !old(self).lake.contains(node_key) ==> report.unrendered_keys@.len() == 1
                && report.unrendered_keys@[0] == node_key && report.rendered_keys@.len() == 0
                && report.unlinked_node_pairs@.len() == 0 && final(self).lake == old(self).lake
                && final(self).spec_queue_len() == old(self).spec_queue_len(),
            old(self).lake.contains(node_key) ==> report.rendered_keys@.len() > 0
                && report.rendered_keys@[0] == node_key,
            final(self).spec_queue_len() >= old(self).spec_queue_len(),
            forall|qi: int|
                0 <= qi < old(self).spec_queue_len() ==> #[trigger] final(self).queued_key(qi)
                    == old(self).queued_key(qi),
            forall|qi: int|
                old(self).spec_queue_len() <= qi < final(self).spec_queue_len()
                    ==> report.rendered_keys@.contains(#[trigger] final(self).queued_key(qi)),
            forall|qi1: int, qi2: int|
                old(self).spec_queue_len() <= qi1 < qi2 < final(self).spec_queue_len()
                    ==> #[trigger] final(self).queued_key(qi1) != #[trigger] final(self).queued_key(qi2),
            forall|r1: int, r2: int|
                #![trigger report.rendered_keys@[r1], report.rendered_keys@[r2]]
                0 <= r1 < r2 < report.rendered_keys@.len() ==> report.rendered_keys@[r1]
                    != report.rendered_keys@[r2],
            forall|ri: int, ui: int|
                0 <= ri < report.rendered_keys@.len() && 0 <= ui < report.unrendered_keys@.len()
                    ==> #[trigger] report.rendered_keys@[ri]
                    != #[trigger] report.unrendered_keys@[ui],
            forall|u1: int, u2: int|
                #![trigger report.unrendered_keys@[u1], report.unrendered_keys@[u2]]
                0 <= u1 < u2 < report.unrendered_keys@.len() ==> report.unrendered_keys@[u1]
                    != report.unrendered_keys@[u2],
            old(self).lake.contains(node_key) && report.rendered_keys@.len()
                + report.unrendered_keys@.len() < u64::MAX ==> forall|ri: int, ci: int|
                #![trigger final(self).lake.children_of(report.rendered_keys@[ri])[ci]]
                0 <= ri < report.rendered_keys@.len() && final(self).lake.contains(
                    report.rendered_keys@[ri],
                ) && 0 <= ci < final(self).lake.children_of(report.rendered_keys@[ri]).len()
                    && final(self).lake.contains(
                    final(self).lake.children_of(report.rendered_keys@[ri])[ci],
                ) ==> (exists|rj: int|
                    ri < rj < report.rendered_keys@.len() && report.rendered_keys@[rj]
                        == final(self).lake.children_of(report.rendered_keys@[ri])[ci])
                    || report.unrendered_keys@.contains(
                    final(self).lake.children_of(report.rendered_keys@[ri])[ci],
                ),
            old(self).lake.contains(node_key) ==> forall|
                ri: int,
                ci1: int,
                ci2: int,
                rj1: int,
                rj2: int,
            |
                #![trigger final(self).lake.children_of(report.rendered_keys@[ri])[ci1], final(self).lake.children_of(report.rendered_keys@[ri])[ci2], report.rendered_keys@[rj1], report.rendered_keys@[rj2]]
                0 <= ri < report.rendered_keys@.len() && final(self).lake.contains(
                    report.rendered_keys@[ri],
                ) && 0 <= ci1 < ci2 < final(self).lake.children_of(
                    report.rendered_keys@[ri],
                ).len() && final(self).lake.children_of(report.rendered_keys@[ri])[ci1]
                    != final(self).lake.children_of(report.rendered_keys@[ri])[ci2] && 0 <= rj1
                    < report.rendered_keys@.len() && 0 <= rj2 < report.rendered_keys@.len()
                    && report.rendered_keys@[rj1] == final(self).lake.children_of(
                    report.rendered_keys@[ri],
                )[ci1] && report.rendered_keys@[rj2] == final(self).lake.children_of(
                    report.rendered_keys@[ri],
                )[ci2] ==> rj1 < rj2,
            report.rendered_keys@.len() + report.unrendered_keys@.len() < u64::MAX ==> forall|
                j: Key,
            |
                #![trigger final(self).lake.spec_node(j)]
                old(self).lake.contains(j) && !report.rendered_keys@.contains(j)
                    && !report.unrendered_keys@.contains(j) && !unlinked_key_listed(
                    report.unlinked_node_pairs@,
                    j,
                ) ==> final(self).lake.contains(j) && final(self).lake.spec_node(j)
                    == old(self).lake.spec_node(j),
    {
        proof {
            use_type_invariant(&*self);
        }
        let mut report = RenderReport {
            unrendered_keys: Vec::new(),
            rendered_keys: Vec::new(),
            unlinked_node_pairs: Vec::new(),
        };
        let mut lake = NodeLake::<C>::new();
        core::mem::swap(&mut lake, &mut self.lake);
        let ghost lake0 = lake;
        let ghost mut dup_ok = self.dup_free@;
        proof {
            assert(children_tidy(self.lake));
        }
        let mut next_local_queue: VecDeque<Key> = VecDeque::new();
        next_local_queue.push_back(node_key);
        let mut next_global_queue: VecDeque<WorkItem> = VecDeque::new();
        let mut fuel: u64 = u64::MAX;
        while next_local_queue.len() > 0 && fuel > 0
            invariant
                lake.wf_core(),
                lake.data_ok(),
                lake.cap() >= lake0.cap(),
                dup_ok ==> lake.linked() && children_tidy(lake),
                self.dup_free@ == false ==> dup_ok == false,
                NodeLake::identity_preserved(lake0, lake),
                NodeLake::dead_stay_dead(lake0, lake),
                forall|ri: int|
                    0 <= ri < report.rendered_keys@.len() && (
                    #[trigger] report.rendered_keys@[ri]).sid() < lake0.cap() ==> lake0.contains(
                        report.rendered_keys@[ri],
                    ),
                forall|ri: int|
                    0 <= ri < report.rendered_keys@.len() ==> (
                    #[trigger] report.rendered_keys@[ri]).sid() < lake.cap(),
                forall|u: int|
                    0 <= u < report.unrendered_keys@.len() && (
                    #[trigger] report.unrendered_keys@[u]).sid() < lake0.cap() ==> !lake.contains(
                        report.unrendered_keys@[u],
                    ),
                forall|pi: int|
                    0 <= pi < report.unlinked_node_pairs@.len() ==> !lake.contains(
                        (#[trigger] report.unlinked_node_pairs@[pi]).0,
                    ) && (report.unlinked_node_pairs@[pi]).0.sid() < lake.cap(),
                !lake0.contains(node_key) ==> lake == lake0 && report.rendered_keys@.len() == 0
                    && report.unlinked_node_pairs@.len() == 0 && next_global_queue@.len() == 0 && (
                report.unrendered_keys@.len() == 0 && next_local_queue@.len() == 1
                    && next_local_queue@[0] == node_key && fuel == u64::MAX
                    || report.unrendered_keys@.len() == 1 && report.unrendered_keys@[0] == node_key
                    && next_local_queue@.len() == 0),
                lake0.contains(node_key) ==> (report.rendered_keys@.len() > 0
                    && report.rendered_keys@[0] == node_key) || (report.rendered_keys@.len() == 0
                    && report.unrendered_keys@.len() == 0 && report.unlinked_node_pairs@.len() == 0
                    && next_global_queue@.len() == 0 && lake == lake0
                    && next_local_queue@.len() == 1 && next_local_queue@[0] == node_key
                    && fuel == u64::MAX),
                forall|gi: int|
                    0 <= gi < next_global_queue@.len() ==> report.rendered_keys@.contains(
                        work_item_key(#[trigger] next_global_queue@[gi]),
                    ),
                fuel + report.rendered_keys@.len() + report.unrendered_keys@.len() == u64::MAX,
                forall|j: Key|
                    #![trigger lake.spec_node(j)]
                    lake0.contains(j) && !report.rendered_keys@.contains(j)
                        && !report.unrendered_keys@.contains(j) && !next_local_queue@.contains(j)
                        && !unlinked_key_listed(report.unlinked_node_pairs@, j)
                        ==> lake.contains(j) && lake.spec_node(j) == lake0.spec_node(j),
                forall|g1: int, g2: int|
                    #![trigger next_global_queue@[g1], next_global_queue@[g2]]
                    0 <= g1 < g2 < next_global_queue@.len() ==> work_item_key(
                        next_global_queue@[g1],
                    ) != work_item_key(next_global_queue@[g2]),
                forall|q1: int, q2: int|
                    #![trigger next_local_queue@[q1], next_local_queue@[q2]]
                    0 <= q1 < q2 < next_local_queue@.len() ==> next_local_queue@[q1]
                        != next_local_queue@[q2],
                forall|qi: int, ri: int|
                    0 <= qi < next_local_queue@.len() && 0 <= ri < report.rendered_keys@.len()
                        ==> #[trigger] next_local_queue@[qi]
                        != #[trigger] report.rendered_keys@[ri],
                forall|qi: int, ui: int|
                    0 <= qi < next_local_queue@.len() && 0 <= ui < report.unrendered_keys@.len()
                        ==> #[trigger] next_local_queue@[qi]
                        != #[trigger] report.unrendered_keys@[ui],
                forall|ri: int, ui: int|
                    0 <= ri < report.rendered_keys@.len() && 0 <= ui
                        < report.unrendered_keys@.len() ==> #[trigger] report.rendered_keys@[ri]
                        != #[trigger] report.unrendered_keys@[ui],
                forall|r1: int, r2: int|
                    #![trigger report.rendered_keys@[r1], report.rendered_keys@[r2]]
                    0 <= r1 < r2 < report.rendered_keys@.len() ==> report.rendered_keys@[r1]
                        != report.rendered_keys@[r2],
                forall|u1: int, u2: int|
                    #![trigger report.unrendered_keys@[u1], report.unrendered_keys@[u2]]
                    0 <= u1 < u2 < report.unrendered_keys@.len() ==> report.unrendered_keys@[u1]
                        != report.unrendered_keys@[u2],
                lake0.contains(node_key) ==> forall|ui: int|
                    0 <= ui < report.unrendered_keys@.len() ==> !lake.contains(
                        #[trigger] report.unrendered_keys@[ui],
                    ) && report.unrendered_keys@[ui].sid() < lake.cap(),
                lake0.contains(node_key) ==> forall|qi: int|
                    0 <= qi < next_local_queue@.len() ==> (#[trigger] next_local_queue@[qi]).sid()
                        < lake.cap() && next_local_queue@[qi].sid() >= node_key.sid(),
                lake0.contains(node_key) ==> forall|ri: int|
                    0 <= ri < report.rendered_keys@.len()
                        ==> (#[trigger] report.rendered_keys@[ri]).sid() >= node_key.sid(),
                lake0.contains(node_key) ==> forall|qi: int|
                    0 <= qi < next_local_queue@.len() ==> #[trigger] next_local_queue@[qi]
                        == node_key || (lake.contains(next_local_queue@[qi]) ==> lake.parent_of(
                        next_local_queue@[qi],
                    ).is_some() && report.rendered_keys@.contains(
                        lake.parent_of(next_local_queue@[qi]).unwrap(),
                    )),
                lake0.contains(node_key) ==> forall|ri: int|
                    0 <= ri < report.rendered_keys@.len() && lake.contains(
                        #[trigger] report.rendered_keys@[ri],
                    ) && lake.parent_of(report.rendered_keys@[ri]).is_some()
                        ==> report.rendered_keys@.contains(
                        lake.parent_of(report.rendered_keys@[ri]).unwrap(),
                    ) || report.rendered_keys@[ri] == node_key,
                lake0.contains(node_key) ==> forall|ri: int, ci: int|
                    #![trigger lake.children_of(report.rendered_keys@[ri])[ci]]
                    0 <= ri < report.rendered_keys@.len() && lake.contains(
                        report.rendered_keys@[ri],
                    ) && 0 <= ci < lake.children_of(report.rendered_keys@[ri]).len()
                        && lake.contains(lake.children_of(report.rendered_keys@[ri])[ci]) ==> (
                    exists|rj: int|
                        ri < rj < report.rendered_keys@.len() && report.rendered_keys@[rj]
                            == lake.children_of(report.rendered_keys@[ri])[ci])
                        || report.unrendered_keys@.contains(
                        lake.children_of(report.rendered_keys@[ri])[ci],
                    ) || next_local_queue@.contains(
                        lake.children_of(report.rendered_keys@[ri])[ci],
                    ),
                lake0.contains(node_key) ==> forall|ri: int, ci1: int, ci2: int, rj1: int, rj2: int|
                    #![trigger lake.children_of(report.rendered_keys@[ri])[ci1], lake.children_of(report.rendered_keys@[ri])[ci2], report.rendered_keys@[rj1], report.rendered_keys@[rj2]]
                    0 <= ri < report.rendered_keys@.len() && lake.contains(
                        report.rendered_keys@[ri],
                    ) && 0 <= ci1 < ci2 < lake.children_of(report.rendered_keys@[ri]).len()
                        && lake.children_of(report.rendered_keys@[ri])[ci1] != lake.children_of(
                        report.rendered_keys@[ri],
                    )[ci2] && 0 <= rj1 < report.rendered_keys@.len() && 0 <= rj2
                        < report.rendered_keys@.len() && report.rendered_keys@[rj1]
                        == lake.children_of(report.rendered_keys@[ri])[ci1]
                        && report.rendered_keys@[rj2] == lake.children_of(
                        report.rendered_keys@[ri],
                    )[ci2] ==> rj1 < rj2,
                lake0.contains(node_key) ==> forall|ri: int, ci1: int, ci2: int, rj2: int, qi: int|
                    #![trigger lake.children_of(report.rendered_keys@[ri])[ci1], lake.children_of(report.rendered_keys@[ri])[ci2], report.rendered_keys@[rj2], next_local_queue@[qi]]
                    0 <= ri < report.rendered_keys@.len() && lake.contains(
                        report.rendered_keys@[ri],
                    ) && 0 <= ci1 < ci2 < lake.children_of(report.rendered_keys@[ri]).len()
                        && lake.children_of(report.rendered_keys@[ri])[ci1] != lake.children_of(
                        report.rendered_keys@[ri],
                    )[ci2] && 0 <= rj2 < report.rendered_keys@.len()
                        && report.rendered_keys@[rj2] == lake.children_of(
                        report.rendered_keys@[ri],
                    )[ci2] && 0 <= qi < next_local_queue@.len() ==> next_local_queue@[qi]
                        != lake.children_of(report.rendered_keys@[ri])[ci1],
                lake0.contains(node_key) ==> forall|ri: int, ci1: int, ci2: int, qi1: int, qi2: int|
                    #![trigger lake.children_of(report.rendered_keys@[ri])[ci1], lake.children_of(report.rendered_keys@[ri])[ci2], next_local_queue@[qi1], next_local_queue@[qi2]]
                    0 <= ri < report.rendered_keys@.len() && lake.contains(
                        report.rendered_keys@[ri],
                    ) && 0 <= ci1 < ci2 < lake.children_of(report.rendered_keys@[ri]).len()
                        && lake.children_of(report.rendered_keys@[ri])[ci1] != lake.children_of(
                        report.rendered_keys@[ri],
                    )[ci2] && 0 <= qi1 < next_local_queue@.len() && 0 <= qi2
                        < next_local_queue@.len() && next_local_queue@[qi1] == lake.children_of(
                        report.rendered_keys@[ri],
                    )[ci1] && next_local_queue@[qi2] == lake.children_of(
                        report.rendered_keys@[ri],
                    )[ci2] ==> qi1 < qi2,
            decreases fuel,
        {
            fuel = fuel - 1;
            let ghost qv_start = next_local_queue@;
            let ghost rv_old = report.rendered_keys@;
            let ghost uv_old = report.unrendered_keys@;
            let current = match next_local_queue.pop_front() {
                Some(k) => k,
                None => {
                    break ;
                },
            };
            proof {
                assert(current == qv_start[0]);
                assert(next_local_queue@ == qv_start.subrange(1, qv_start.len() as int));
                assert(!rv_old.contains(current)) by {
                    if rv_old.contains(current) {
                        let w = choose|w: int| 0 <= w < rv_old.len() && rv_old[w] == current;
                        assert(qv_start[0] != rv_old[w]);
                    }
                }
                assert(!uv_old.contains(current)) by {
                    if uv_old.contains(current) {
                        let w = choose|w: int| 0 <= w < uv_old.len() && uv_old[w] == current;
                        assert(qv_start[0] != uv_old[w]);
                    }
                }
            }
            if !lake.contains_key(&current) {
                report.unrendered_keys.push(current);
                proof {
                    assert(report.unrendered_keys@ == uv_old.push(current));
                    assert forall|q1: int, q2: int|
                        #![trigger next_local_queue@[q1], next_local_queue@[q2]]
                        0 <= q1 < q2 < next_local_queue@.len() implies next_local_queue@[q1]
                        != next_local_queue@[q2] by {
                        assert(next_local_queue@[q1] == qv_start[q1 + 1]);
                        assert(next_local_queue@[q2] == qv_start[q2 + 1]);
                    }
                    assert forall|qi: int, ri: int|
                        0 <= qi < next_local_queue@.len() && 0 <= ri
                            < report.rendered_keys@.len() implies #[trigger] next_local_queue@[qi]
                        != #[trigger] report.rendered_keys@[ri] by {
                        assert(next_local_queue@[qi] == qv_start[qi + 1]);
                    }
                    assert forall|qi: int, ui: int|
                        0 <= qi < next_local_queue@.len() && 0 <= ui
                            < report.unrendered_keys@.len() implies #[trigger] next_local_queue@[qi]
                        != #[trigger] report.unrendered_keys@[ui] by {
                        assert(next_local_queue@[qi] == qv_start[qi + 1]);
                        if ui < uv_old.len() {
                            assert(report.unrendered_keys@[ui] == uv_old[ui]);
                        } else {
                            assert(report.unrendered_keys@[ui] == qv_start[0]);
                        }
                    }
                    assert forall|ri: int, ui: int|
                        0 <= ri < report.rendered_keys@.len() && 0 <= ui
                            < report.unrendered_keys@.len() implies
                        #[trigger] report.rendered_keys@[ri]
                        != #[trigger] report.unrendered_keys@[ui] by {
                        if ui >= uv_old.len() {
                            assert(report.unrendered_keys@[ui] == current);
                            assert(report.rendered_keys@[ri] != current);
                        } else {
                            assert(report.unrendered_keys@[ui] == uv_old[ui]);
                        }
                    }
                    assert forall|u1: int, u2: int|
                        #![trigger report.unrendered_keys@[u1], report.unrendered_keys@[u2]]
                        0 <= u1 < u2 < report.unrendered_keys@.len() implies
                        report.unrendered_keys@[u1] != report.unrendered_keys@[u2] by {
                        assert(report.unrendered_keys@[u1] == uv_old[u1]);
                        if u2 >= uv_old.len() {
                            assert(report.unrendered_keys@[u2] == current);
                            assert(uv_old[u1] != current);
                        } else {
                            assert(report.unrendered_keys@[u2] == uv_old[u2]);
                        }
                    }
                    if lake0.contains(node_key) {
                        assert(qv_start[0].sid() < lake.cap());
                        assert forall|ui: int|
                            0 <= ui < report.unrendered_keys@.len() implies !lake.contains(
                            #[trigger] report.unrendered_keys@[ui],
                        ) && report.unrendered_keys@[ui].sid() < lake.cap() by {
                            if ui < uv_old.len() {
                                assert(report.unrendered_keys@[ui] == uv_old[ui]);
                            } else {
                                assert(report.unrendered_keys@[ui] == current);
                            }
                        }
                        assert forall|qi: int|
                            0 <= qi < next_local_queue@.len() implies (
                        #[trigger] next_local_queue@[qi]).sid() < lake.cap()
                            && next_local_queue@[qi].sid() >= node_key.sid() by {
                            assert(next_local_queue@[qi] == qv_start[qi + 1]);
                        }
                        assert forall|qi: int|
                            0 <= qi < next_local_queue@.len() implies
                            #[trigger] next_local_queue@[qi] == node_key || (lake.contains(
                            next_local_queue@[qi],
                        ) ==> lake.parent_of(next_local_queue@[qi]).is_some()
                            && report.rendered_keys@.contains(
                            lake.parent_of(next_local_queue@[qi]).unwrap(),
                        )) by {
                            assert(next_local_queue@[qi] == qv_start[qi + 1]);
                        }
                        assert forall|ri: int, ci: int|
                            #![trigger lake.children_of(report.rendered_keys@[ri])[ci]]
                            0 <= ri < report.rendered_keys@.len() && lake.contains(
                                report.rendered_keys@[ri],
                            ) && 0 <= ci < lake.children_of(report.rendered_keys@[ri]).len()
                                && lake.contains(
                                lake.children_of(report.rendered_keys@[ri])[ci],
                            ) implies (exists|rj: int|
                                ri < rj < report.rendered_keys@.len()
                                    && report.rendered_keys@[rj] == lake.children_of(
                                    report.rendered_keys@[ri],
                                )[ci]) || report.unrendered_keys@.contains(
                                lake.children_of(report.rendered_keys@[ri])[ci],
                            ) || next_local_queue@.contains(
                                lake.children_of(report.rendered_keys@[ri])[ci],
                            ) by {
                            let c = lake.children_of(report.rendered_keys@[ri])[ci];
                            assert(lake.children_of(rv_old[ri])[ci] == c);
                            if exists|rj: int|
                                ri < rj < rv_old.len() && rv_old[rj] == c {
                                let rj = choose|rj: int|
                                    ri < rj < rv_old.len() && rv_old[rj] == c;
                                assert(report.rendered_keys@[rj] == c);
                            } else if uv_old.contains(c) {
                                let w = choose|w: int|
                                    0 <= w < uv_old.len() && uv_old[w] == c;
                                assert(report.unrendered_keys@[w] == c);
                                assert(report.unrendered_keys@.contains(c));
                            } else {
                                assert(qv_start.contains(c));
                                let w = choose|w: int|
                                    0 <= w < qv_start.len() && qv_start[w] == c;
                                if w == 0 {
                                    assert(report.unrendered_keys@[uv_old.len() as int] == c);
                                    assert(report.unrendered_keys@.contains(c));
                                } else {
                                    assert(next_local_queue@[w - 1] == c);
                                    assert(next_local_queue@.contains(c));
                                }
                            }
                        }
                        assert forall|j: Key|
                            #![trigger lake.spec_node(j)]
                            lake0.contains(j) && !report.rendered_keys@.contains(j)
                                && !report.unrendered_keys@.contains(j)
                                && !next_local_queue@.contains(j)
                                && !unlinked_key_listed(report.unlinked_node_pairs@, j)
                                implies lake.contains(j) && lake.spec_node(j)
                                == lake0.spec_node(j) by {
                            assert(j != current) by {
                                if j == current {
                                    assert(report.unrendered_keys@[uv_old.len() as int]
                                        == current);
                                }
                            }
                            assert(!uv_old.contains(j)) by {
                                if uv_old.contains(j) {
                                    let w = choose|w: int|
                                        0 <= w < uv_old.len() && uv_old[w] == j;
                                    assert(report.unrendered_keys@[w] == j);
                                }
                            }
                            assert(!qv_start.contains(j)) by {
                                if qv_start.contains(j) {
                                    let w = choose|w: int|
                                        0 <= w < qv_start.len() && qv_start[w] == j;
                                    assert(w != 0);
                                    assert(next_local_queue@[w - 1] == j);
                                }
                            }
                        }
                        assert forall|ri: int, ci1: int, ci2: int, rj2: int, qi: int|
                            #![trigger lake.children_of(report.rendered_keys@[ri])[ci1], lake.children_of(report.rendered_keys@[ri])[ci2], report.rendered_keys@[rj2], next_local_queue@[qi]]
                            0 <= ri < report.rendered_keys@.len() && lake.contains(
                                report.rendered_keys@[ri],
                            ) && 0 <= ci1 < ci2 < lake.children_of(
                                report.rendered_keys@[ri],
                            ).len() && lake.children_of(report.rendered_keys@[ri])[ci1]
                                != lake.children_of(report.rendered_keys@[ri])[ci2] && 0 <= rj2
                                < report.rendered_keys@.len() && report.rendered_keys@[rj2]
                                == lake.children_of(report.rendered_keys@[ri])[ci2] && 0 <= qi
                                < next_local_queue@.len() implies next_local_queue@[qi]
                            != lake.children_of(report.rendered_keys@[ri])[ci1] by {
                            assert(next_local_queue@[qi] == qv_start[qi + 1]);
                        }
                        assert forall|ri: int, ci1: int, ci2: int, qi1: int, qi2: int|
                            #![trigger lake.children_of(report.rendered_keys@[ri])[ci1], lake.children_of(report.rendered_keys@[ri])[ci2], next_local_queue@[qi1], next_local_queue@[qi2]]
                            0 <= ri < report.rendered_keys@.len() && lake.contains(
                                report.rendered_keys@[ri],
                            ) && 0 <= ci1 < ci2 < lake.children_of(
                                report.rendered_keys@[ri],
                            ).len() && lake.children_of(report.rendered_keys@[ri])[ci1]
                                != lake.children_of(report.rendered_keys@[ri])[ci2] && 0 <= qi1
                                < next_local_queue@.len() && 0 <= qi2 < next_local_queue@.len()
                                && next_local_queue@[qi1] == lake.children_of(
                                report.rendered_keys@[ri],
                            )[ci1] && next_local_queue@[qi2] == lake.children_of(
                                report.rendered_keys@[ri],
                            )[ci2] implies qi1 < qi2 by {
                            assert(next_local_queue@[qi1] == qv_start[qi1 + 1]);
                            assert(next_local_queue@[qi2] == qv_start[qi2 + 1]);
                        }
                    }
                }
                continue ;
            }
            proof {
                if !lake0.contains(node_key) {
                    assert(current == node_key);
                    assert(false);
                }
            }
            let ghost qv_rest = next_local_queue@;
            let ghost l_in = lake;
            let (new_seeds, node_control_result) = render::run_step_fn(&mut lake, current);
            proof {
                dup_ok = dup_ok && seeds_keys_distinct(new_seeds@);
                if dup_ok {
                    assert forall|j: Key|
                        lake.contains(j) && (#[trigger] lake.parent_of(j)).is_some() implies
                        lake.contains(lake.parent_of(j).unwrap()) && lake.children_of(
                        lake.parent_of(j).unwrap(),
                    ).contains(j) by {
                        if j != current {
                            assert(lake.spec_node(j) == l_in.spec_node(j));
                        }
                        assert(lake.parent_of(j) == l_in.parent_of(j));
                        let pj = lake.parent_of(j).unwrap();
                        assert(l_in.contains(pj) && l_in.children_of(pj).contains(j));
                        if pj != current {
                            assert(lake.spec_node(pj) == l_in.spec_node(pj));
                        }
                        assert(lake.children_of(pj) == l_in.children_of(pj));
                    }
                    assert(lake.linked());
                    assert forall|pt: Key| lake.contains(pt) implies children_keys_distinct(
                        lake,
                        #[trigger] lake.children_of(pt),
                    ) by {
                        assert(l_in.contains(pt));
                        assert(lake.children_of(pt) == l_in.children_of(pt));
                        assert(children_keys_distinct(l_in, l_in.children_of(pt)));
                        let kids = l_in.children_of(pt);
                        assert forall|i1: int, i2: int|
                            #![trigger kids[i1], kids[i2]]
                            0 <= i1 < i2 < kids.len() && lake.contains(kids[i1]) && lake.contains(
                                kids[i2],
                            ) implies lake.key_of(kids[i1]) != lake.key_of(kids[i2]) by {
                            assert(lake.key_of(kids[i1]) == l_in.key_of(kids[i1]));
                            assert(lake.key_of(kids[i2]) == l_in.key_of(kids[i2]));
                        }
                    }
                    assert(children_tidy(lake));
                }
            }
            let ghost l_stepped = lake;
            let ghost seeds_view = new_seeds@;
            let (new_nodes, unused_nodes) = render::reconcile(
                &mut lake,
                &self.external_render_work_queue.sender,
                &current,
                new_seeds,
            );
            let ghost l_rec = lake;
            proof {
                lemma_link_preconditions(l_stepped, l_rec, current, new_nodes@);
            }
            render::link_children_to_lake(&mut lake, &current, &new_nodes);
            let ghost l_linked = lake;
            let ghost unused_view = unused_nodes@;
            let mut pairs = render::unlink_unused_nodes(&mut lake, unused_nodes);
            proof {
                if dup_ok {
                    assert(children_keys_distinct(
                        l_stepped,
                        l_stepped.children_of(current),
                    ));
                    lemma_linked_restore(
                        l_in,
                        l_stepped,
                        l_rec,
                        l_linked,
                        lake,
                        current,
                        new_nodes@,
                        unused_view,
                        seeds_view,
                    );
                }
                lemma_pass_composition(
                    lake0,
                    l_in,
                    l_stepped,
                    l_rec,
                    l_linked,
                    lake,
                    current,
                    report.unrendered_keys@,
                    report.unlinked_node_pairs@,
                    pairs@,
                );
                assert(l_stepped.cap() == l_in.cap());
                assert(l_linked.cap() == l_rec.cap());
                assert(lake.cap() == l_linked.cap());
                assert(lake.cap() >= l_in.cap());
                assert(qv_start[0].sid() >= node_key.sid());
                assert forall|i: int|
                    0 <= i < new_nodes@.len() implies (#[trigger] new_nodes@[i]) != current
                    && new_nodes@[i].sid() >= node_key.sid() && new_nodes@[i].sid()
                    < lake.cap() by {
                    let n = new_nodes@[i];
                    assert(current.sid() < n.sid());
                    assert(l_rec.contains(n));
                }
                assert forall|i: int, ri: int|
                    0 <= i < new_nodes@.len() && 0 <= ri < rv_old.len() implies
                    #[trigger] new_nodes@[i] != #[trigger] rv_old[ri] by {
                    let n = new_nodes@[i];
                    if n == rv_old[ri] {
                        if n.sid() >= l_stepped.cap() {
                            assert(rv_old[ri].sid() < l_in.cap());
                        } else {
                            assert(l_stepped.contains(n) && l_stepped.parent_of(n) == Some(
                                current,
                            ));
                            assert(n != current);
                            assert(l_in.contains(n));
                            assert(l_in.spec_node(n) == l_stepped.spec_node(n));
                            assert(l_in.parent_of(n) == Some(current));
                            assert(rv_old.contains(current) || rv_old[ri] == node_key);
                            assert(!rv_old.contains(current));
                            assert(n.sid() > current.sid() >= node_key.sid());
                        }
                    }
                }
                assert forall|i: int, ui: int|
                    0 <= i < new_nodes@.len() && 0 <= ui < uv_old.len() implies
                    #[trigger] new_nodes@[i] != #[trigger] uv_old[ui] by {
                    let n = new_nodes@[i];
                    if n == uv_old[ui] {
                        assert(!l_in.contains(uv_old[ui]) && uv_old[ui].sid() < l_in.cap());
                        if n.sid() >= l_stepped.cap() {
                        } else {
                            assert(l_stepped.contains(n));
                            assert(l_in.contains(n));
                        }
                    }
                }
                assert forall|i: int, qi: int|
                    0 <= i < new_nodes@.len() && 0 <= qi < qv_rest.len() implies
                    #[trigger] new_nodes@[i] != #[trigger] qv_rest[qi] by {
                    let n = new_nodes@[i];
                    if n == qv_rest[qi] {
                        assert(qv_rest[qi] == qv_start[qi + 1]);
                        assert(qv_start[qi + 1].sid() < l_in.cap());
                        if n.sid() >= l_stepped.cap() {
                        } else {
                            assert(l_stepped.contains(n) && l_stepped.parent_of(n) == Some(
                                current,
                            ));
                            assert(n != current);
                            assert(l_in.contains(n));
                            assert(l_in.spec_node(n) == l_stepped.spec_node(n));
                            assert(l_in.parent_of(n) == Some(current));
                            assert(n.sid() > current.sid() >= node_key.sid());
                            assert(n != node_key);
                            assert(qv_start[qi + 1] == node_key || (l_in.contains(
                                qv_start[qi + 1],
                            ) ==> l_in.parent_of(qv_start[qi + 1]).is_some()
                                && rv_old.contains(l_in.parent_of(qv_start[qi + 1]).unwrap())));
                            assert(rv_old.contains(current));
                            assert(!rv_old.contains(current));
                        }
                    }
                }
            }
            let ghost pairs_this = pairs@;
            let ghost rep_pairs_pre = report.unlinked_node_pairs@;
            report.unlinked_node_pairs.append(&mut pairs);
            proof {
                assert(report.unlinked_node_pairs@ =~= rep_pairs_pre + pairs_this);
            }
            proof {
                if current.sid() < lake0.cap() {
                    assert(l_in.contains(current));
                    if !lake0.contains(current) {
                        assert(!l_in.contains(current));
                    }
                }
                assert(l_in.contains(current));
                assert(current.sid() < l_in.cap());
                assert(l_in.cap() <= lake.cap());
            }
            let ghost rendered_pre = report.rendered_keys@;
            report.rendered_keys.push(current);
            proof {
                assert(report.rendered_keys@.last() == current);
                assert(report.rendered_keys@.contains(current));
                assert forall|gi: int|
                    0 <= gi < next_global_queue@.len() implies report.rendered_keys@.contains(
                    work_item_key(#[trigger] next_global_queue@[gi]),
                ) by {
                    let k = work_item_key(next_global_queue@[gi]);
                    assert(rendered_pre.contains(k));
                    let w = choose|w: int|
                        0 <= w < rendered_pre.len() && #[trigger] rendered_pre[w] == k;
                    assert(report.rendered_keys@[w] == rendered_pre[w]);
                }
            }
            let ghost gv_pre = next_global_queue@;
            if node_control_result.rerender_flag {
                next_global_queue.push_back(WorkItem::Render(current));
                proof {
                    assert forall|g1: int, g2: int|
                        #![trigger next_global_queue@[g1], next_global_queue@[g2]]
                        0 <= g1 < g2 < next_global_queue@.len() implies work_item_key(
                        next_global_queue@[g1],
                    ) != work_item_key(next_global_queue@[g2]) by {
                        assert(next_global_queue@[g1] == gv_pre[g1]);
                        if g2 == gv_pre.len() {
                            assert(next_global_queue@[g2] == WorkItem::Render(current));
                            assert(rv_old.contains(work_item_key(gv_pre[g1])));
                            let w = choose|w: int|
                                0 <= w < rv_old.len() && rv_old[w] == work_item_key(gv_pre[g1]);
                            assert(rv_old[w] != current);
                        } else {
                            assert(next_global_queue@[g2] == gv_pre[g2]);
                        }
                    }
                }
            }
            let mut ki: usize = 0;
            let nn = new_nodes.len();
            while ki < nn
                invariant
                    nn == new_nodes@.len(),
                    0 <= ki <= nn,
                    next_local_queue@ == qv_rest + new_nodes@.subrange(0, ki as int),
                decreases nn - ki,
            {
                next_local_queue.push_back(new_nodes[ki]);
                proof {
                    assert(next_local_queue@ =~= qv_rest + new_nodes@.subrange(0, ki + 1));
                }
                ki = ki + 1;
            }
            proof {
                assert(next_local_queue@ =~= qv_rest + new_nodes@);
                let ghost rv_new = report.rendered_keys@;
                assert(rv_new == rv_old.push(current));
                assert(rv_new[rv_old.len() as int] == current);
                assert forall|q1: int, q2: int|
                    #![trigger next_local_queue@[q1], next_local_queue@[q2]]
                    0 <= q1 < q2 < next_local_queue@.len() implies next_local_queue@[q1]
                    != next_local_queue@[q2] by {
                    if q2 < qv_rest.len() {
                        assert(next_local_queue@[q1] == qv_start[q1 + 1]);
                        assert(next_local_queue@[q2] == qv_start[q2 + 1]);
                    } else if q1 < qv_rest.len() {
                        assert(next_local_queue@[q1] == qv_rest[q1]);
                        assert(next_local_queue@[q2] == new_nodes@[q2 - qv_rest.len()]);
                    } else {
                        assert(next_local_queue@[q1] == new_nodes@[q1 - qv_rest.len()]);
                        assert(next_local_queue@[q2] == new_nodes@[q2 - qv_rest.len()]);
                    }
                }
                assert forall|qi: int, ri: int|
                    0 <= qi < next_local_queue@.len() && 0 <= ri < rv_new.len() implies
                    #[trigger] next_local_queue@[qi] != #[trigger] rv_new[ri] by {
                    if qi < qv_rest.len() {
                        assert(next_local_queue@[qi] == qv_start[qi + 1]);
                        if ri < rv_old.len() {
                            assert(rv_new[ri] == rv_old[ri]);
                        } else {
                            assert(rv_new[ri] == current);
                            assert(qv_start[0] != qv_start[qi + 1]);
                        }
                    } else {
                        assert(next_local_queue@[qi] == new_nodes@[qi - qv_rest.len()]);
                        if ri < rv_old.len() {
                            assert(rv_new[ri] == rv_old[ri]);
                        } else {
                            assert(rv_new[ri] == current);
                        }
                    }
                }
                assert forall|qi: int, ui: int|
                    0 <= qi < next_local_queue@.len() && 0 <= ui
                        < report.unrendered_keys@.len() implies #[trigger] next_local_queue@[qi]
                    != #[trigger] report.unrendered_keys@[ui] by {
                    assert(report.unrendered_keys@[ui] == uv_old[ui]);
                    if qi < qv_rest.len() {
                        assert(next_local_queue@[qi] == qv_start[qi + 1]);
                    } else {
                        assert(next_local_queue@[qi] == new_nodes@[qi - qv_rest.len()]);
                    }
                }
                assert forall|ri: int, ui: int|
                    0 <= ri < rv_new.len() && 0 <= ui < report.unrendered_keys@.len() implies
                    #[trigger] rv_new[ri] != #[trigger] report.unrendered_keys@[ui] by {
                    assert(report.unrendered_keys@[ui] == uv_old[ui]);
                    if ri < rv_old.len() {
                        assert(rv_new[ri] == rv_old[ri]);
                    } else {
                        assert(rv_new[ri] == current);
                        assert(uv_old[ui] != current);
                    }
                }
                assert forall|r1: int, r2: int|
                    #![trigger rv_new[r1], rv_new[r2]]
                    0 <= r1 < r2 < rv_new.len() implies rv_new[r1] != rv_new[r2] by {
                    assert(rv_new[r1] == rv_old[r1]);
                    if r2 < rv_old.len() {
                        assert(rv_new[r2] == rv_old[r2]);
                    } else {
                        assert(rv_new[r2] == current);
                        assert(rv_old[r1] != current);
                    }
                }
                assert forall|ui: int|
                    0 <= ui < report.unrendered_keys@.len() implies !lake.contains(
                    #[trigger] report.unrendered_keys@[ui],
                ) && report.unrendered_keys@[ui].sid() < lake.cap() by {
                    let u = report.unrendered_keys@[ui];
                    assert(u == uv_old[ui]);
                    assert(!l_in.contains(u) && u.sid() < l_in.cap());
                    if lake.contains(u) {
                        assert(l_linked.contains(u));
                        assert(l_rec.contains(u));
                        assert(l_stepped.contains(u) || u.sid() >= l_stepped.cap());
                        assert(l_in.contains(u) == l_stepped.contains(u));
                    }
                }
                assert forall|qi: int|
                    0 <= qi < next_local_queue@.len() implies (
                #[trigger] next_local_queue@[qi]).sid() < lake.cap()
                    && next_local_queue@[qi].sid() >= node_key.sid() by {
                    if qi < qv_rest.len() {
                        assert(next_local_queue@[qi] == qv_start[qi + 1]);
                        assert(qv_start[qi + 1].sid() < l_in.cap());
                    } else {
                        assert(next_local_queue@[qi] == new_nodes@[qi - qv_rest.len()]);
                    }
                }
                assert forall|ri: int|
                    0 <= ri < rv_new.len() implies (#[trigger] rv_new[ri]).sid()
                    >= node_key.sid() by {
                    if ri < rv_old.len() {
                        assert(rv_new[ri] == rv_old[ri]);
                    } else {
                        assert(rv_new[ri] == current);
                        assert(qv_start[0].sid() >= node_key.sid());
                    }
                }
                assert forall|qi: int|
                    0 <= qi < next_local_queue@.len() implies #[trigger] next_local_queue@[qi]
                    == node_key || (lake.contains(next_local_queue@[qi]) ==> lake.parent_of(
                    next_local_queue@[qi],
                ).is_some() && rv_new.contains(
                    lake.parent_of(next_local_queue@[qi]).unwrap(),
                )) by {
                    let q = next_local_queue@[qi];
                    if qi >= qv_rest.len() {
                        assert(q == new_nodes@[qi - qv_rest.len()]);
                        if lake.contains(q) {
                            assert(lake.spec_node(q) == l_linked.spec_node(q));
                            assert(l_linked.parent_of(q) == Some(current));
                            assert(rv_new.contains(current));
                        }
                    } else if q != node_key {
                        assert(q == qv_rest[qi]);
                        assert(q == qv_start[qi + 1]);
                        if lake.contains(q) {
                            assert(!new_nodes@.contains(q)) by {
                                if new_nodes@.contains(q) {
                                    let w = choose|w: int|
                                        0 <= w < new_nodes@.len() && new_nodes@[w] == q;
                                    assert(new_nodes@[w] != qv_rest[qi]);
                                }
                            }
                            assert(q != current);
                            assert(lake.spec_node(q) == l_linked.spec_node(q));
                            assert(l_linked.contains(q) && l_rec.contains(q));
                            assert(q.sid() < l_in.cap());
                            assert(l_stepped.contains(q));
                            assert(l_in.contains(q));
                            assert(l_linked.spec_node(q) == l_rec.spec_node(q));
                            assert(l_rec.spec_node(q).relations == l_stepped.spec_node(
                                q,
                            ).relations);
                            assert(l_stepped.spec_node(q) == l_in.spec_node(q));
                            assert(lake.parent_of(q) == l_in.parent_of(q));
                            assert(qv_start[qi + 1] == node_key || (l_in.contains(
                                qv_start[qi + 1],
                            ) ==> l_in.parent_of(qv_start[qi + 1]).is_some()
                                && rv_old.contains(l_in.parent_of(qv_start[qi + 1]).unwrap())));
                            let pq = lake.parent_of(q).unwrap();
                            assert(rv_old.contains(pq));
                            let w = choose|w: int| 0 <= w < rv_old.len() && rv_old[w] == pq;
                            assert(rv_new[w] == pq);
                            assert(rv_new.contains(pq));
                        }
                    }
                }
                assert forall|ri: int|
                    0 <= ri < rv_new.len() && lake.contains(#[trigger] rv_new[ri])
                        && lake.parent_of(rv_new[ri]).is_some() implies rv_new.contains(
                    lake.parent_of(rv_new[ri]).unwrap(),
                ) || rv_new[ri] == node_key by {
                    let x = rv_new[ri];
                    if x != node_key {
                        if ri < rv_old.len() {
                            assert(x == rv_old[ri]);
                            assert(x.sid() < l_in.cap());
                            assert(x != current);
                            assert(!new_nodes@.contains(x)) by {
                                if new_nodes@.contains(x) {
                                    let w = choose|w: int|
                                        0 <= w < new_nodes@.len() && new_nodes@[w] == x;
                                    assert(new_nodes@[w] != rv_old[ri]);
                                }
                            }
                            assert(lake.spec_node(x) == l_linked.spec_node(x));
                            assert(l_linked.contains(x) && l_rec.contains(x));
                            assert(l_stepped.contains(x));
                            assert(l_in.contains(x));
                            assert(l_linked.spec_node(x) == l_rec.spec_node(x));
                            assert(l_rec.spec_node(x).relations == l_stepped.spec_node(
                                x,
                            ).relations);
                            assert(l_stepped.spec_node(x) == l_in.spec_node(x));
                            assert(lake.parent_of(x) == l_in.parent_of(x));
                            assert(rv_old.contains(l_in.parent_of(rv_old[ri]).unwrap())
                                || rv_old[ri] == node_key);
                            let px = lake.parent_of(x).unwrap();
                            assert(rv_old.contains(px));
                            let w = choose|w: int| 0 <= w < rv_old.len() && rv_old[w] == px;
                            assert(rv_new[w] == px);
                            assert(rv_new.contains(px));
                        } else {
                            assert(x == current);
                            assert(lake.spec_node(x) == l_linked.spec_node(x));
                            assert(l_linked.parent_of(current) == l_rec.parent_of(current));
                            assert(l_rec.spec_node(current).relations == l_stepped.spec_node(
                                current,
                            ).relations);
                            assert(l_stepped.spec_node(current).relations == l_in.spec_node(
                                current,
                            ).relations);
                            assert(lake.parent_of(current) == l_in.parent_of(current));
                            assert(qv_start[0] == node_key || (l_in.contains(qv_start[0])
                                ==> l_in.parent_of(qv_start[0]).is_some() && rv_old.contains(
                                l_in.parent_of(qv_start[0]).unwrap(),
                            )));
                            assert(current != node_key);
                            let px = lake.parent_of(current).unwrap();
                            assert(rv_old.contains(px));
                            let w = choose|w: int| 0 <= w < rv_old.len() && rv_old[w] == px;
                            assert(rv_new[w] == px);
                            assert(rv_new.contains(px));
                        }
                    }
                }
                assert forall|ri: int, ci: int|
                    #![trigger lake.children_of(rv_new[ri])[ci]]
                    0 <= ri < rv_new.len() && lake.contains(rv_new[ri]) && 0 <= ci
                        < lake.children_of(rv_new[ri]).len() && lake.contains(
                        lake.children_of(rv_new[ri])[ci],
                    ) implies (exists|rj: int|
                        ri < rj < rv_new.len() && rv_new[rj] == lake.children_of(rv_new[ri])[ci])
                        || report.unrendered_keys@.contains(lake.children_of(rv_new[ri])[ci])
                        || next_local_queue@.contains(lake.children_of(rv_new[ri])[ci]) by {
                    let x = rv_new[ri];
                    let c = lake.children_of(x)[ci];
                    if ri == rv_old.len() {
                        assert(x == current);
                        assert(lake.spec_node(current) == l_linked.spec_node(current));
                        assert(lake.children_of(current) == new_nodes@);
                        assert(next_local_queue@[qv_rest.len() + ci] == c);
                        assert(next_local_queue@.contains(c));
                    } else {
                        assert(x == rv_old[ri]);
                        assert(x.sid() < l_in.cap());
                        assert(x != current);
                        assert(!new_nodes@.contains(x)) by {
                            if new_nodes@.contains(x) {
                                let w = choose|w: int|
                                    0 <= w < new_nodes@.len() && new_nodes@[w] == x;
                                assert(new_nodes@[w] != rv_old[ri]);
                            }
                        }
                        assert(lake.spec_node(x) == l_linked.spec_node(x));
                        assert(l_linked.contains(x) && l_rec.contains(x));
                        assert(l_stepped.contains(x));
                        assert(l_in.contains(x));
                        assert(l_linked.spec_node(x) == l_rec.spec_node(x));
                        assert(l_rec.spec_node(x).relations == l_stepped.spec_node(x).relations);
                        assert(l_stepped.spec_node(x) == l_in.spec_node(x));
                        assert(lake.children_of(x) == l_in.children_of(x));
                        assert(l_in.children_of(rv_old[ri])[ci] == c);
                        assert(c.sid() < l_in.cap());
                        assert(l_linked.contains(c) && l_rec.contains(c));
                        assert(l_stepped.contains(c));
                        assert(l_in.contains(c));
                        if exists|rj: int| ri < rj < rv_old.len() && rv_old[rj] == c {
                            let rj = choose|rj: int| ri < rj < rv_old.len() && rv_old[rj] == c;
                            assert(rv_new[rj] == c);
                        } else if uv_old.contains(c) {
                            let w = choose|w: int| 0 <= w < uv_old.len() && uv_old[w] == c;
                            assert(report.unrendered_keys@[w] == c);
                            assert(report.unrendered_keys@.contains(c));
                        } else {
                            assert(qv_start.contains(c));
                            let w = choose|w: int| 0 <= w < qv_start.len() && qv_start[w] == c;
                            if w == 0 {
                                assert(c == current);
                                assert(rv_new[rv_old.len() as int] == c);
                            } else {
                                assert(next_local_queue@[w - 1] == qv_rest[w - 1]);
                                assert(next_local_queue@[w - 1] == c);
                                assert(next_local_queue@.contains(c));
                            }
                        }
                    }
                }
                assert forall|j: Key|
                    #![trigger lake.spec_node(j)]
                    lake0.contains(j) && !rv_new.contains(j)
                        && !report.unrendered_keys@.contains(j)
                        && !next_local_queue@.contains(j)
                        && !unlinked_key_listed(report.unlinked_node_pairs@, j) implies
                    lake.contains(j) && lake.spec_node(j) == lake0.spec_node(j) by {
                    assert(j != current) by {
                        if j == current {
                            assert(rv_new[rv_old.len() as int] == current);
                        }
                    }
                    assert(!rv_old.contains(j)) by {
                        if rv_old.contains(j) {
                            let w = choose|w: int| 0 <= w < rv_old.len() && rv_old[w] == j;
                            assert(rv_new[w] == j);
                        }
                    }
                    assert(!new_nodes@.contains(j)) by {
                        if new_nodes@.contains(j) {
                            let w = choose|w: int|
                                0 <= w < new_nodes@.len() && new_nodes@[w] == j;
                            assert(next_local_queue@[qv_rest.len() + w] == j);
                        }
                    }
                    assert(!qv_start.contains(j)) by {
                        if qv_start.contains(j) {
                            let w = choose|w: int| 0 <= w < qv_start.len() && qv_start[w] == j;
                            assert(w != 0);
                            assert(next_local_queue@[w - 1] == qv_rest[w - 1]);
                            assert(next_local_queue@[w - 1] == j);
                        }
                    }
                    assert(!unlinked_key_listed(rep_pairs_pre, j)) by {
                        if unlinked_key_listed(rep_pairs_pre, j) {
                            let pi = choose|pi: int|
                                0 <= pi < rep_pairs_pre.len() && (#[trigger] rep_pairs_pre[pi]).0
                                    == j;
                            assert(report.unlinked_node_pairs@[pi] == rep_pairs_pre[pi]);
                            assert(unlinked_key_listed(report.unlinked_node_pairs@, j));
                        }
                    }
                    assert(!unlinked_key_listed(pairs_this, j)) by {
                        if unlinked_key_listed(pairs_this, j) {
                            let pi = choose|pi: int|
                                0 <= pi < pairs_this.len() && (#[trigger] pairs_this[pi]).0 == j;
                            assert(report.unlinked_node_pairs@[rep_pairs_pre.len() + pi]
                                == pairs_this[pi]);
                            assert(unlinked_key_listed(report.unlinked_node_pairs@, j));
                        }
                    }
                    assert(l_in.contains(j) && l_in.spec_node(j) == lake0.spec_node(j));
                    assert(l_stepped.contains(j));
                    assert(l_stepped.spec_node(j) == l_in.spec_node(j));
                    assert(l_rec.spec_node(j) == l_stepped.spec_node(j));
                    assert(l_rec.contains(j));
                    assert(l_linked.spec_node(j) == l_rec.spec_node(j));
                    assert(l_linked.contains(j));
                    assert(lake.contains(j)) by {
                        if !lake.contains(j) {
                            let pi = choose|pi: int|
                                0 <= pi < pairs_this.len() && (#[trigger] pairs_this[pi]).0 == j;
                            assert(unlinked_key_listed(pairs_this, j));
                        }
                    }
                    assert(lake.spec_node(j) == l_linked.spec_node(j));
                }
                assert forall|ri: int, ci: int|
                    #![trigger l_in.children_of(rv_old[ri])[ci]]
                    0 <= ri < rv_old.len() && l_in.contains(rv_old[ri]) && 0 <= ci
                        < l_in.children_of(rv_old[ri]).len() implies !new_nodes@.contains(
                    l_in.children_of(rv_old[ri])[ci],
                ) by {
                    let c = l_in.children_of(rv_old[ri])[ci];
                    assert(c.sid() < l_in.cap());
                    if new_nodes@.contains(c) {
                        let w = choose|w: int| 0 <= w < new_nodes@.len() && new_nodes@[w] == c;
                        let n = new_nodes@[w];
                        assert(n.sid() >= l_stepped.cap() || (l_stepped.contains(n)
                            && l_stepped.parent_of(n) == Some(current)));
                        assert(n.sid() < l_in.cap());
                        assert(l_stepped.contains(n));
                        assert(l_in.contains(n));
                        assert(n != current);
                        assert(l_in.spec_node(n) == l_stepped.spec_node(n));
                        assert(l_in.parent_of(n) == Some(current));
                        assert(l_in.parent_of(c) == Some(rv_old[ri]));
                        assert(rv_old[ri] != current);
                    }
                }
                assert forall|ri: int, ci1: int, ci2: int, rj1: int, rj2: int|
                    #![trigger lake.children_of(rv_new[ri])[ci1], lake.children_of(rv_new[ri])[ci2], rv_new[rj1], rv_new[rj2]]
                    0 <= ri < rv_new.len() && lake.contains(rv_new[ri]) && 0 <= ci1 < ci2
                        < lake.children_of(rv_new[ri]).len() && lake.children_of(rv_new[ri])[ci1]
                        != lake.children_of(rv_new[ri])[ci2] && 0 <= rj1 < rv_new.len() && 0
                        <= rj2 < rv_new.len() && rv_new[rj1] == lake.children_of(rv_new[ri])[ci1]
                        && rv_new[rj2] == lake.children_of(rv_new[ri])[ci2] implies rj1 < rj2 by {
                    let x = rv_new[ri];
                    let c1 = lake.children_of(x)[ci1];
                    let c2 = lake.children_of(x)[ci2];
                    if ri == rv_old.len() {
                        assert(x == current);
                        assert(lake.spec_node(current) == l_linked.spec_node(current));
                        assert(lake.children_of(current) == new_nodes@);
                        assert(next_local_queue@[qv_rest.len() + ci1] == c1);
                        assert(next_local_queue@[qv_rest.len() + ci1] != rv_new[rj1]);
                    } else {
                        assert(x == rv_old[ri]);
                        assert(x.sid() < l_in.cap());
                        assert(x != current);
                        assert(!new_nodes@.contains(x)) by {
                            if new_nodes@.contains(x) {
                                let w = choose|w: int|
                                    0 <= w < new_nodes@.len() && new_nodes@[w] == x;
                                assert(new_nodes@[w] != rv_old[ri]);
                            }
                        }
                        assert(lake.spec_node(x) == l_linked.spec_node(x));
                        assert(l_linked.contains(x) && l_rec.contains(x));
                        assert(l_stepped.contains(x));
                        assert(l_in.contains(x));
                        assert(l_linked.spec_node(x) == l_rec.spec_node(x));
                        assert(l_rec.spec_node(x).relations == l_stepped.spec_node(x).relations);
                        assert(l_stepped.spec_node(x) == l_in.spec_node(x));
                        assert(lake.children_of(x) == l_in.children_of(x));
                        assert(l_in.children_of(rv_old[ri])[ci1] == c1);
                        assert(l_in.children_of(rv_old[ri])[ci2] == c2);
                        if rj1 == rv_old.len() {
                            assert(rv_new[rj1] == current);
                            if rj2 < rv_old.len() {
                                assert(rv_new[rj2] == rv_old[rj2]);
                                assert(rv_old[rj2] == c2);
                                assert(qv_start[0] != l_in.children_of(rv_old[ri])[ci1]);
                            }
                        } else if rj2 < rv_old.len() {
                            assert(rv_new[rj1] == rv_old[rj1]);
                            assert(rv_new[rj2] == rv_old[rj2]);
                            assert(rv_old[rj1] == c1);
                            assert(rv_old[rj2] == c2);
                        } else {
                            assert(rj1 < rv_old.len());
                        }
                    }
                }
                assert forall|ri: int, ci1: int, ci2: int, rj2: int, qi: int|
                    #![trigger lake.children_of(rv_new[ri])[ci1], lake.children_of(rv_new[ri])[ci2], rv_new[rj2], next_local_queue@[qi]]
                    0 <= ri < rv_new.len() && lake.contains(rv_new[ri]) && 0 <= ci1 < ci2
                        < lake.children_of(rv_new[ri]).len() && lake.children_of(rv_new[ri])[ci1]
                        != lake.children_of(rv_new[ri])[ci2] && 0 <= rj2 < rv_new.len()
                        && rv_new[rj2] == lake.children_of(rv_new[ri])[ci2] && 0 <= qi
                        < next_local_queue@.len() implies next_local_queue@[qi]
                    != lake.children_of(rv_new[ri])[ci1] by {
                    let x = rv_new[ri];
                    let c1 = lake.children_of(x)[ci1];
                    let c2 = lake.children_of(x)[ci2];
                    if ri == rv_old.len() {
                        assert(x == current);
                        assert(lake.spec_node(current) == l_linked.spec_node(current));
                        assert(lake.children_of(current) == new_nodes@);
                        assert(next_local_queue@[qv_rest.len() + ci2] == c2);
                        assert(next_local_queue@[qv_rest.len() + ci2] != rv_new[rj2]);
                    } else {
                        assert(x == rv_old[ri]);
                        assert(x.sid() < l_in.cap());
                        assert(x != current);
                        assert(!new_nodes@.contains(x)) by {
                            if new_nodes@.contains(x) {
                                let w = choose|w: int|
                                    0 <= w < new_nodes@.len() && new_nodes@[w] == x;
                                assert(new_nodes@[w] != rv_old[ri]);
                            }
                        }
                        assert(lake.spec_node(x) == l_linked.spec_node(x));
                        assert(l_linked.contains(x) && l_rec.contains(x));
                        assert(l_stepped.contains(x));
                        assert(l_in.contains(x));
                        assert(l_linked.spec_node(x) == l_rec.spec_node(x));
                        assert(l_rec.spec_node(x).relations == l_stepped.spec_node(x).relations);
                        assert(l_stepped.spec_node(x) == l_in.spec_node(x));
                        assert(lake.children_of(x) == l_in.children_of(x));
                        assert(l_in.children_of(rv_old[ri])[ci1] == c1);
                        assert(l_in.children_of(rv_old[ri])[ci2] == c2);
                        assert(!new_nodes@.contains(c1));
                        if qi < qv_rest.len() {
                            assert(next_local_queue@[qi] == qv_start[qi + 1]);
                            if rj2 == rv_old.len() {
                                assert(rv_new[rj2] == current);
                                assert(qv_start[0] == current);
                                if qv_start[qi + 1] == c1 {
                                    assert(qi + 1 < 0);
                                }
                            } else {
                                assert(rv_new[rj2] == rv_old[rj2]);
                                assert(rv_old[rj2] == c2);
                                assert(qv_start[qi + 1] != l_in.children_of(rv_old[ri])[ci1]);
                            }
                        } else {
                            assert(next_local_queue@[qi] == new_nodes@[qi - qv_rest.len()]);
                            if next_local_queue@[qi] == c1 {
                                assert(new_nodes@.contains(c1));
                            }
                        }
                    }
                }
                assert forall|ri: int, ci1: int, ci2: int, qi1: int, qi2: int|
                    #![trigger lake.children_of(rv_new[ri])[ci1], lake.children_of(rv_new[ri])[ci2], next_local_queue@[qi1], next_local_queue@[qi2]]
                    0 <= ri < rv_new.len() && lake.contains(rv_new[ri]) && 0 <= ci1 < ci2
                        < lake.children_of(rv_new[ri]).len() && lake.children_of(rv_new[ri])[ci1]
                        != lake.children_of(rv_new[ri])[ci2] && 0 <= qi1 < next_local_queue@.len()
                        && 0 <= qi2 < next_local_queue@.len() && next_local_queue@[qi1]
                        == lake.children_of(rv_new[ri])[ci1] && next_local_queue@[qi2]
                        == lake.children_of(rv_new[ri])[ci2] implies qi1 < qi2 by {
                    let x = rv_new[ri];
                    let c1 = lake.children_of(x)[ci1];
                    let c2 = lake.children_of(x)[ci2];
                    if ri == rv_old.len() {
                        assert(x == current);
                        assert(lake.spec_node(current) == l_linked.spec_node(current));
                        assert(lake.children_of(current) == new_nodes@);
                        assert(next_local_queue@[qv_rest.len() + ci1] == c1);
                        assert(next_local_queue@[qv_rest.len() + ci2] == c2);
                        assert(qi1 == qv_rest.len() + ci1) by {
                            if qi1 < qv_rest.len() + ci1 {
                                assert(next_local_queue@[qi1] != next_local_queue@[qv_rest.len()
                                    + ci1]);
                            }
                            if qi1 > qv_rest.len() + ci1 {
                                assert(next_local_queue@[qv_rest.len() + ci1]
                                    != next_local_queue@[qi1]);
                            }
                        }
                        assert(qi2 == qv_rest.len() + ci2) by {
                            if qi2 < qv_rest.len() + ci2 {
                                assert(next_local_queue@[qi2] != next_local_queue@[qv_rest.len()
                                    + ci2]);
                            }
                            if qi2 > qv_rest.len() + ci2 {
                                assert(next_local_queue@[qv_rest.len() + ci2]
                                    != next_local_queue@[qi2]);
                            }
                        }
                    } else {
                        assert(x == rv_old[ri]);
                        assert(x.sid() < l_in.cap());
                        assert(x != current);
                        assert(!new_nodes@.contains(x)) by {
                            if new_nodes@.contains(x) {
                                let w = choose|w: int|
                                    0 <= w < new_nodes@.len() && new_nodes@[w] == x;
                                assert(new_nodes@[w] != rv_old[ri]);
                            }
                        }
                        assert(lake.spec_node(x) == l_linked.spec_node(x));
                        assert(l_linked.contains(x) && l_rec.contains(x));
                        assert(l_stepped.contains(x));
                        assert(l_in.contains(x));
                        assert(l_linked.spec_node(x) == l_rec.spec_node(x));
                        assert(l_rec.spec_node(x).relations == l_stepped.spec_node(x).relations);
                        assert(l_stepped.spec_node(x) == l_in.spec_node(x));
                        assert(lake.children_of(x) == l_in.children_of(x));
                        assert(l_in.children_of(rv_old[ri])[ci1] == c1);
                        assert(l_in.children_of(rv_old[ri])[ci2] == c2);
                        assert(!new_nodes@.contains(c1));
                        assert(!new_nodes@.contains(c2));
                        assert(qi1 < qv_rest.len()) by {
                            if qi1 >= qv_rest.len() {
                                assert(next_local_queue@[qi1] == new_nodes@[qi1
                                    - qv_rest.len()]);
                                assert(new_nodes@.contains(c1));
                            }
                        }
                        assert(qi2 < qv_rest.len()) by {
                            if qi2 >= qv_rest.len() {
                                assert(next_local_queue@[qi2] == new_nodes@[qi2
                                    - qv_rest.len()]);
                                assert(new_nodes@.contains(c2));
                            }
                        }
                        assert(next_local_queue@[qi1] == qv_start[qi1 + 1]);
                        assert(next_local_queue@[qi2] == qv_start[qi2 + 1]);
                    }
                }
            }
        }
        proof {
            self.dup_free@ = dup_ok;
        }
        core::mem::swap(&mut lake, &mut self.lake);
        let mut q: VecDeque<WorkItem> = VecDeque::new();
        core::mem::swap(&mut q, &mut self.work_queue);
        let ghost q0 = q@;
        let ghost appended = next_global_queue@;
        let mut next_global_queue = next_global_queue;
        q.append(&mut next_global_queue);
        core::mem::swap(&mut q, &mut self.work_queue);
        proof {
            assert(self.work_queue@ =~= q0 + appended);
            assert forall|qi: int|
                q0.len() <= qi < self.work_queue@.len() implies report.rendered_keys@.contains(
                #[trigger] self.queued_key(qi),
            ) by {
                assert(self.work_queue@[qi] == appended[qi - q0.len()]);
            }
            assert forall|qi1: int, qi2: int|
                q0.len() <= qi1 < qi2 < self.work_queue@.len() implies
                #[trigger] self.queued_key(qi1) != #[trigger] self.queued_key(qi2) by {
                assert(self.work_queue@[qi1] == appended[qi1 - q0.len()]);
                assert(self.work_queue@[qi2] == appended[qi2 - q0.len()]);
            }
            if report.rendered_keys@.len() + report.unrendered_keys@.len() < u64::MAX {
                assert(next_local_queue@.len() == 0);
                assert forall|j: Key|
                    #![trigger self.lake.spec_node(j)]
                    lake0.contains(j) && !report.rendered_keys@.contains(j)
                        && !report.unrendered_keys@.contains(j) && !unlinked_key_listed(
                        report.unlinked_node_pairs@,
                        j,
                    ) implies self.lake.contains(j) && self.lake.spec_node(j)
                    == lake0.spec_node(j) by {
                    assert(!next_local_queue@.contains(j));
                }
            }
            if lake0.contains(node_key) && report.rendered_keys@.len()
                + report.unrendered_keys@.len() < u64::MAX {
                assert(next_local_queue@.len() == 0);
                assert forall|ri: int, ci: int|
                    #![trigger self.lake.children_of(report.rendered_keys@[ri])[ci]]
                    0 <= ri < report.rendered_keys@.len() && self.lake.contains(
                        report.rendered_keys@[ri],
                    ) && 0 <= ci < self.lake.children_of(report.rendered_keys@[ri]).len()
                        && self.lake.contains(
                        self.lake.children_of(report.rendered_keys@[ri])[ci],
                    ) implies (exists|rj: int|
                        ri < rj < report.rendered_keys@.len() && report.rendered_keys@[rj]
                            == self.lake.children_of(report.rendered_keys@[ri])[ci])
                        || report.unrendered_keys@.contains(
                        self.lake.children_of(report.rendered_keys@[ri])[ci],
                    ) by {
                    let c = self.lake.children_of(report.rendered_keys@[ri])[ci];
                    assert(!next_local_queue@.contains(c));
                }
            }
            assert forall|qi: int|
                0 <= qi < q0.len() implies #[trigger] self.queued_key(qi) == work_item_key(
                q0[qi],
            ) by {
                assert(self.work_queue@[qi] == q0[qi]);
            }
        }
        report
    }
}

/// The reconciled children satisfy what linking requires of them: all live,
/// all strictly younger than their parent, pairwise distinct, each either
/// already claimed by this parent or brand new, and none of them listed as
/// a live child of any other node.
proof fn lemma_link_preconditions<C: Component>(
    pre: NodeLake<C>,
    post: NodeLake<C>,
    node_key: Key,
    news: Seq<Key>,
)
    requires
        pre.wf_core(),
        pre.contains(node_key),
        post.wf_core(),
        NodeLake::grows(pre, post),
        NodeLake::keeps_shell(pre, post),
        NodeLake::fresh_clean(pre, post),
        forall|i: int|
            0 <= i < news.len() ==> post.contains(#[trigger] news[i]) && node_key.sid()
                < news[i].sid(),
        forall|i: int|
            0 <= i < news.len() ==> (pre.children_of(node_key).contains(#[trigger] news[i])
                && pre.contains(news[i]) && pre.parent_of(news[i]) == Some(node_key))
                || news[i].sid() >= pre.cap(),
        forall|i1: int, i2: int|
            #![trigger news[i1], news[i2]]
            0 <= i1 < i2 < news.len() ==> news[i1] != news[i2],
    ensures
        forall|i: int|
            0 <= i < news.len() ==> (post.parent_of(#[trigger] news[i]) is None || post.parent_of(
                news[i],
            ) == Some(node_key)),
        forall|p: Key, ci: int, i: int|
            post.contains(p) && p != node_key && 0 <= ci < post.children_of(p).len() && 0 <= i
                < news.len() && post.contains(#[trigger] post.children_of(p)[ci])
                ==> post.children_of(p)[ci] != #[trigger] news[i],
{
    assert forall|i: int|
        0 <= i < news.len() implies (post.parent_of(#[trigger] news[i]) is None || post.parent_of(
        news[i],
    ) == Some(node_key)) by {
        if news[i].sid() >= pre.cap() {
            assert(post.parent_of(news[i]) is None);
        } else {
            assert(pre.contains(news[i]));
            assert((post.spec_node(news[i])).relations == pre.spec_node(news[i]).relations);
            assert(post.parent_of(news[i]) == pre.parent_of(news[i]));
        }
    }
    assert forall|p: Key, ci: int, i: int|
        post.contains(p) && p != node_key && 0 <= ci < post.children_of(p).len() && 0 <= i
            < news.len() && post.contains(#[trigger] post.children_of(p)[ci]) implies
        post.children_of(p)[ci] != #[trigger] news[i] by {
        let c = post.children_of(p)[ci];
        if c == news[i] {
            assert(post.parent_of(c) == Some(p));
            if news[i].sid() >= pre.cap() {
                assert(post.parent_of(news[i]) is None);
            } else {
                assert(pre.contains(news[i]));
                assert((post.spec_node(news[i])).relations == pre.spec_node(news[i]).relations);
                assert(post.parent_of(news[i]) == pre.parent_of(news[i]));
                assert(pre.parent_of(news[i]) == Some(node_key));
            }
        }
    }
}

/// Restores full linkage after one node's render: provided every seed list
/// so far had pairwise distinct sibling keys, relinking the reconciled
/// children and unlinking the unused ones leaves every surviving node
/// listed by its parent, and every child list free of duplicate keys.
#[verifier::rlimit(100)]
#[verifier::spinoff_prover]
proof fn lemma_linked_restore<C: Component>(
    l_in: NodeLake<C>,
    l_stepped: NodeLake<C>,
    l_rec: NodeLake<C>,
    l_linked: NodeLake<C>,
    l_out: NodeLake<C>,
    current: Key,
    news: Seq<Key>,
    unused: Seq<Key>,
    orig: Seq<Seed<C>>,
)
    requires
        l_in.wf_core(),
        l_in.contains(current),
        l_in.linked(),
        children_tidy(l_in),
        seeds_keys_distinct(orig),
        // step phase
        NodeLake::same_but(l_in, l_stepped, current),
        l_stepped.spec_node(current).relations == l_in.spec_node(current).relations,
        l_stepped.wf_core(),
        l_stepped.linked(),
        children_tidy(l_stepped),
        // reconcile phase
        NodeLake::grows(l_stepped, l_rec),
        NodeLake::keeps_shell(l_stepped, l_rec),
        NodeLake::fresh_clean(l_stepped, l_rec),
        forall|i: int|
            0 <= i < news.len() ==> l_rec.contains(#[trigger] news[i]) && l_rec.key_of(news[i])
                == orig[i].spec_key() && current.sid() < news[i].sid(),
        news.len() == orig.len(),
        forall|i: int|
            0 <= i < news.len() ==> (l_stepped.children_of(current).contains(#[trigger] news[i])
                && l_stepped.contains(news[i]) && l_stepped.parent_of(news[i]) == Some(current))
                || news[i].sid() >= l_stepped.cap(),
        forall|i1: int, i2: int|
            #![trigger news[i1], news[i2]]
            0 <= i1 < i2 < news.len() ==> news[i1] != news[i2],
        forall|u: int|
            0 <= u < unused.len() ==> l_stepped.children_of(current).contains(#[trigger] unused[u])
                && l_stepped.contains(unused[u]) && l_stepped.parent_of(unused[u]) == Some(
                current,
            ),
        // coverage and disjointness, from the distinct-keys guard
        forall|ci: int|
            0 <= ci < l_stepped.children_of(current).len() && l_stepped.contains(
                #[trigger] l_stepped.children_of(current)[ci],
            ) ==> news.contains(l_stepped.children_of(current)[ci]) || unused.contains(
                l_stepped.children_of(current)[ci],
            ),
        forall|u: int, i: int|
            0 <= u < unused.len() && 0 <= i < news.len() ==> #[trigger] unused[u]
                != #[trigger] news[i],
        // link phase
        l_linked.cap() == l_rec.cap(),
        forall|j: Key| #[trigger] l_linked.contains(j) == l_rec.contains(j),
        l_linked.children_of(current) == news,
        l_linked.parent_of(current) == l_rec.parent_of(current),
        forall|i: int|
            0 <= i < news.len() ==> l_linked.parent_of(#[trigger] news[i]) == Some(current),
        forall|j: Key|
            l_rec.contains(j) && j != current && !news.contains(j)
                ==> #[trigger] l_linked.spec_node(j) == l_rec.spec_node(j),
        forall|j: Key|
            l_rec.contains(j) ==> #[trigger] l_linked.tag_of(j) == l_rec.tag_of(j)
                && l_linked.key_of(j) == l_rec.key_of(j),
        forall|j: Key|
            l_rec.contains(j) && j != current ==> #[trigger] l_linked.children_of(j)
                == l_rec.children_of(j),
        // unlink phase
        NodeLake::shrinks(l_linked, l_out),
        forall|u: int| 0 <= u < unused.len() ==> !l_out.contains(#[trigger] unused[u]),
        forall|p: Key, ci: int|
            l_linked.contains(p) && !l_out.contains(p) && 0 <= ci < l_linked.children_of(p).len()
                ==> !l_out.contains(#[trigger] l_linked.children_of(p)[ci]),
        forall|j: Key|
            #![trigger l_linked.contains(j), l_out.contains(j)]
            l_linked.contains(j) && !l_out.contains(j) ==> exists|u: int|
                0 <= u < unused.len() && j.sid() >= (#[trigger] unused[u]).sid(),
    ensures
        l_out.linked(),
        children_tidy(l_out),
{
    // the rendered node itself survives the unlink
    assert(l_stepped.contains(current));
    assert(l_rec.contains(current));
    assert(l_linked.contains(current));
    if !l_out.contains(current) {
        let u = choose|u: int|
            0 <= u < unused.len() && current.sid() >= (#[trigger] unused[u]).sid();
        assert(l_stepped.parent_of(unused[u]) == Some(current));
        assert(current.sid() < unused[u].sid());
        assert(false);
    }
    assert forall|j: Key|
        l_out.contains(j) && (#[trigger] l_out.parent_of(j)).is_some() implies l_out.contains(
        l_out.parent_of(j).unwrap(),
    ) && l_out.children_of(l_out.parent_of(j).unwrap()).contains(j) by {
        assert(l_linked.contains(j));
        assert(l_out.spec_node(j) == l_linked.spec_node(j));
        let pj = l_out.parent_of(j).unwrap();
        if news.contains(j) {
            let i = choose|i: int| 0 <= i < news.len() && #[trigger] news[i] == j;
            assert(l_linked.parent_of(news[i]) == Some(current));
            assert(pj == current);
            assert(l_out.spec_node(current) == l_linked.spec_node(current));
            assert(l_out.children_of(current) == news);
            assert(l_out.children_of(current).contains(j));
        } else if j == current {
            assert(l_linked.parent_of(current) == l_rec.parent_of(current));
            assert((l_rec.spec_node(current)).relations == l_stepped.spec_node(current).relations);
            assert(l_rec.parent_of(current) == l_stepped.parent_of(current));
            assert(l_stepped.parent_of(current) == l_in.parent_of(current));
            assert(l_in.contains(pj) && l_in.children_of(pj).contains(j));
            assert(pj != current);
            // the parent's child list is untouched by every phase
            assert(l_stepped.spec_node(pj) == l_in.spec_node(pj));
            assert(l_stepped.contains(pj));
            assert(l_rec.contains(pj));
            assert((l_rec.spec_node(pj)).relations == l_stepped.spec_node(pj).relations);
            assert(!news.contains(pj)) by {
                if news.contains(pj) {
                    let i = choose|i: int| 0 <= i < news.len() && #[trigger] news[i] == pj;
                    assert(current.sid() < news[i].sid());
                    assert(l_in.parents_ordered());
                    assert(l_in.parent_of(current) == Some(pj));
                    assert(pj.sid() < current.sid());
                }
            }
            assert(l_linked.spec_node(pj) == l_rec.spec_node(pj));
            assert(l_linked.children_of(pj) == l_in.children_of(pj));
            if !l_out.contains(pj) {
                let ci = choose|ci: int|
                    0 <= ci < l_in.children_of(pj).len() && #[trigger] l_in.children_of(pj)[ci]
                        == current;
                assert(l_linked.children_of(pj)[ci] == current);
                assert(!l_out.contains(current));
                assert(false);
            }
            assert(l_out.spec_node(pj) == l_linked.spec_node(pj));
            assert(l_out.children_of(pj).contains(j));
        } else {
            // an untouched node: its parent link predates the pass
            assert(l_linked.spec_node(j) == l_rec.spec_node(j));
            if j.sid() >= l_stepped.cap() {
                assert(l_rec.parent_of(j) is None);
                assert(false);
            }
            assert(l_stepped.contains(j));
            assert((l_rec.spec_node(j)).relations == l_stepped.spec_node(j).relations);
            assert(l_stepped.parent_of(j) == Some(pj));
            assert(l_stepped.contains(pj) && l_stepped.children_of(pj).contains(j));
            if pj == current {
                let ci = choose|ci: int|
                    0 <= ci < l_stepped.children_of(current).len()
                        && #[trigger] l_stepped.children_of(current)[ci] == j;
                assert(news.contains(j) || unused.contains(j));
                assert(unused.contains(j));
                let u = choose|u: int| 0 <= u < unused.len() && #[trigger] unused[u] == j;
                assert(!l_out.contains(j));
                assert(false);
            } else {
                assert(l_rec.contains(pj));
                assert((l_rec.spec_node(pj)).relations == l_stepped.spec_node(pj).relations);
                assert(l_linked.children_of(pj) == l_rec.children_of(pj));
                assert(l_linked.children_of(pj) == l_stepped.children_of(pj));
                if !l_out.contains(pj) {
                    let ci = choose|ci: int|
                        0 <= ci < l_stepped.children_of(pj).len()
                            && #[trigger] l_stepped.children_of(pj)[ci] == j;
                    assert(l_linked.children_of(pj)[ci] == j);
                    assert(!l_out.contains(j));
                    assert(false);
                }
                assert(l_out.spec_node(pj) == l_linked.spec_node(pj));
                assert(l_out.children_of(pj).contains(j));
            }
        }
    }
    assert forall|pt: Key| l_out.contains(pt) implies children_keys_distinct(
        l_out,
        #[trigger] l_out.children_of(pt),
    ) by {
        assert(l_linked.contains(pt));
        assert(l_out.spec_node(pt) == l_linked.spec_node(pt));
        let kids = l_out.children_of(pt);
        if pt == current {
            assert(kids == news);
            assert forall|i1: int, i2: int|
                #![trigger kids[i1], kids[i2]]
                0 <= i1 < i2 < kids.len() && l_out.contains(kids[i1]) && l_out.contains(
                    kids[i2],
                ) implies l_out.key_of(kids[i1]) != l_out.key_of(kids[i2]) by {
                assert(l_out.spec_node(news[i1]) == l_linked.spec_node(news[i1]));
                assert(l_out.spec_node(news[i2]) == l_linked.spec_node(news[i2]));
                assert(l_rec.contains(news[i1]) && l_rec.contains(news[i2]));
                assert(l_linked.tag_of(news[i1]) == l_rec.tag_of(news[i1]));
                assert(l_linked.tag_of(news[i2]) == l_rec.tag_of(news[i2]));
                assert(l_linked.key_of(news[i1]) == l_rec.key_of(news[i1]));
                assert(l_linked.key_of(news[i2]) == l_rec.key_of(news[i2]));
                assert(l_rec.key_of(news[i1]) == orig[i1].spec_key());
                assert(l_rec.key_of(news[i2]) == orig[i2].spec_key());
                assert(orig[i1].spec_key() != orig[i2].spec_key());
            }
        } else {
            assert(l_rec.contains(pt));
            assert(l_linked.children_of(pt) == l_rec.children_of(pt));
            if pt.sid() >= l_stepped.cap() {
                assert(l_rec.children_of(pt).len() == 0);
            } else {
                assert(l_stepped.contains(pt));
                assert((l_rec.spec_node(pt)).relations == l_stepped.spec_node(pt).relations);
                assert(kids == l_stepped.children_of(pt));
                assert(children_keys_distinct(l_stepped, l_stepped.children_of(pt)));
                assert forall|i1: int, i2: int|
                    #![trigger kids[i1], kids[i2]]
                    0 <= i1 < i2 < kids.len() && l_out.contains(kids[i1]) && l_out.contains(
                        kids[i2],
                    ) implies l_out.key_of(kids[i1]) != l_out.key_of(kids[i2]) by {
                    assert(l_linked.contains(kids[i1]) && l_linked.contains(kids[i2]));
                    assert(l_out.spec_node(kids[i1]) == l_linked.spec_node(kids[i1]));
                    assert(l_out.spec_node(kids[i2]) == l_linked.spec_node(kids[i2]));
                    assert(l_rec.contains(kids[i1]) && l_rec.contains(kids[i2]));
                    assert(l_linked.tag_of(kids[i1]) == l_rec.tag_of(kids[i1]));
                    assert(l_linked.tag_of(kids[i2]) == l_rec.tag_of(kids[i2]));
                    assert(l_linked.key_of(kids[i1]) == l_rec.key_of(kids[i1]));
                    assert(l_linked.key_of(kids[i2]) == l_rec.key_of(kids[i2]));
                    assert(l_stepped.children_bounded());
                    assert(kids[i1].sid() < l_stepped.cap());
                    assert(kids[i2].sid() < l_stepped.cap());
                    assert(l_stepped.contains(kids[i1]) && l_stepped.contains(kids[i2]));
                    assert(l_rec.key_of(kids[i1]) == l_stepped.key_of(kids[i1]));
                    assert(l_rec.key_of(kids[i2]) == l_stepped.key_of(kids[i2]));
                }
            }
        }
    }
}

/// Composes the per-phase frames of one node's render into the facts the
/// pass loop carries: identity is preserved, removed identities are never
/// resurrected, and every reported unlinked pair is really gone.
proof fn lemma_pass_composition<C: Component>(
    lake0: NodeLake<C>,
    l_in: NodeLake<C>,
    l_stepped: NodeLake<C>,
    l_rec: NodeLake<C>,
    l_linked: NodeLake<C>,
    l_out: NodeLake<C>,
    current: Key,
    unrendered: Seq<Key>,
    old_pairs: Seq<UnlinkedPair<C>>,
    new_pairs: Seq<UnlinkedPair<C>>,
)
    requires
        lake0.cap() <= l_in.cap(),
        NodeLake::identity_preserved(lake0, l_in),
        NodeLake::dead_stay_dead(lake0, l_in),
        forall|u: int|
            0 <= u < unrendered.len() && (#[trigger] unrendered[u]).sid() < lake0.cap()
                ==> !l_in.contains(unrendered[u]),
        forall|pi: int|
            0 <= pi < old_pairs.len() ==> !l_in.contains((#[trigger] old_pairs[pi]).0)
                && (old_pairs[pi]).0.sid() < l_in.cap(),
        NodeLake::same_but(l_in, l_stepped, current),
        l_stepped.tag_of(current) == l_in.tag_of(current),
        l_stepped.key_of(current) == l_in.key_of(current),
        l_in.contains(current),
        NodeLake::grows(l_stepped, l_rec),
        NodeLake::keeps_shell(l_stepped, l_rec),
        l_linked.cap() == l_rec.cap(),
        forall|j: Key| #[trigger] l_linked.contains(j) == l_rec.contains(j),
        forall|j: Key|
            l_rec.contains(j) ==> #[trigger] l_linked.tag_of(j) == l_rec.tag_of(j)
                && l_linked.key_of(j) == l_rec.key_of(j),
        NodeLake::shrinks(l_linked, l_out),
        forall|pi: int|
            0 <= pi < new_pairs.len() ==> !l_out.contains((#[trigger] new_pairs[pi]).0)
                && l_linked.contains((new_pairs[pi]).0),
    ensures
        l_out.cap() >= lake0.cap(),
        NodeLake::identity_preserved(lake0, l_out),
        NodeLake::dead_stay_dead(lake0, l_out),
        forall|u: int|
            0 <= u < unrendered.len() && (#[trigger] unrendered[u]).sid() < lake0.cap()
                ==> !l_out.contains(unrendered[u]),
        forall|pi: int|
            0 <= pi < old_pairs.len() ==> !l_out.contains((#[trigger] old_pairs[pi]).0)
                && (old_pairs[pi]).0.sid() < l_out.cap(),
        forall|pi: int|
            0 <= pi < new_pairs.len() ==> !l_out.contains((#[trigger] new_pairs[pi]).0)
                && (new_pairs[pi]).0.sid() < l_out.cap(),
{
    assert(l_stepped.cap() == l_in.cap());
    assert(l_out.cap() == l_linked.cap());
    assert forall|j: Key|
        lake0.contains(j) && l_out.contains(j) implies #[trigger] l_out.tag_of(j) == lake0.tag_of(
        j,
    ) && l_out.key_of(j) == lake0.key_of(j) by {
        assert(l_linked.contains(j));
        assert(l_out.spec_node(j) == l_linked.spec_node(j));
        assert(l_rec.contains(j));
        assert(l_linked.tag_of(j) == l_rec.tag_of(j));
        assert(lake0.contains(j) && j.sid() < lake0.cap());
        if !l_stepped.contains(j) {
            assert(!l_in.contains(j));
            assert(!lake0.contains(j));
            assert(false);
        }
        assert((l_rec.spec_node(j)).type_tag == l_stepped.spec_node(j).type_tag);
        assert(l_rec.key_of(j) == l_stepped.key_of(j));
        if j != current {
            assert(l_stepped.spec_node(j) == l_in.spec_node(j));
        }
        assert(l_in.contains(j));
        assert(l_in.tag_of(j) == lake0.tag_of(j));
        assert(l_in.key_of(j) == lake0.key_of(j));
    }
    assert forall|k: Key|
        k.sid() < lake0.cap() && !lake0.contains(k) implies !(#[trigger] l_out.contains(k)) by {
        assert(!l_in.contains(k));
        assert(l_in.contains(k) == l_stepped.contains(k));
        if l_rec.contains(k) {
            assert(l_stepped.contains(k) || k.sid() >= l_stepped.cap());
            assert(false);
        }
        assert(!l_linked.contains(k));
        if l_out.contains(k) {
            assert(l_linked.contains(k));
        }
    }
    assert forall|u: int|
        0 <= u < unrendered.len() && (#[trigger] unrendered[u]).sid() < lake0.cap() implies
        !l_out.contains(unrendered[u]) by {
        let k = unrendered[u];
        assert(!l_in.contains(k));
        assert(l_in.contains(k) == l_stepped.contains(k));
        if l_rec.contains(k) {
            assert(l_stepped.contains(k) || k.sid() >= l_stepped.cap());
            assert(false);
        }
        if l_out.contains(k) {
            assert(l_linked.contains(k));
        }
    }
    assert forall|pi: int|
        0 <= pi < old_pairs.len() implies !l_out.contains((#[trigger] old_pairs[pi]).0) && (
    old_pairs[pi]).0.sid() < l_out.cap() by {
        let k = old_pairs[pi].0;
        assert(!l_in.contains(k));
        assert(l_in.contains(k) == l_stepped.contains(k));
        if l_rec.contains(k) {
            assert(l_stepped.contains(k) || k.sid() >= l_stepped.cap());
            assert(false);
        }
        if l_out.contains(k) {
            assert(l_linked.contains(k));
        }
        assert(l_in.cap() <= l_out.cap());
    }
    assert forall|pi: int|
        0 <= pi < new_pairs.len() implies !l_out.contains((#[trigger] new_pairs[pi]).0) && (
    new_pairs[pi]).0.sid() < l_out.cap() by {
        assert(l_linked.contains(new_pairs[pi].0));
    }
}

} // verus!
