//! The node lake: shared storage for all live nodes.
//!
//! The lake owns every node's data, keyed by stable identity.  A slot is
//! allocated when a seed is sprouted and set aside for good when the node is
//! unlinked; slot indices are never reused, so a `Key` stays meaningful
//! forever and upgrading an old key is a plain lookup.  Parent and child
//! links are stored as keys, which keep nothing alive: pruning is the render
//! engine's responsibility.

use crate::embeddable::context_holder::ContextHolder;
use crate::key::{spec_key_string, Key, RawData, Seed};
use crate::node::{Component, SelfRender};
use vstd::prelude::*;

verus! {

/// A node's place in the tree: its children in sibling order and its
/// parent, if any.  Both sides are plain keys and may dangle; liveness is
/// decided by the lake.
pub struct NodeRelations {
    pub(crate) children: Vec<Key>,
    pub(crate) parent: Option<Key>,
}

/// Everything the lake stores for one node: the immutable identity (class
/// tag and sibling key), the self-render signal, the mutable render payload
/// (input and component state), the context holder, and the relations
/// block.  The payload is absent exactly while the node's own step function
/// runs, which takes it out and puts it back.
pub struct NodeData<C: Component> {
    pub(crate) type_tag: u64,
    pub(crate) key: Option<String>,
    pub(crate) self_render: SelfRender,
    pub(crate) data: Option<RawData<C>>,
    pub(crate) context: ContextHolder<C::Input>,
    pub(crate) relations: NodeRelations,
}

/// How many slots of a slot sequence are occupied.
pub open(crate) spec fn count_some<C: Component>(s: Seq<Option<NodeData<C>>>) -> nat
    decreases s.len(),
{
    if s.len() == 0 {
        0
    } else {
        count_some(s.drop_last()) + if s.last().is_some() {
            1nat
        } else {
            0nat
        }
    }
}

/// Clearing an occupied slot lowers the occupied count by one.
proof fn lemma_count_clear<C: Component>(s: Seq<Option<NodeData<C>>>, i: int)
    requires
        0 <= i < s.len(),
        s[i].is_some(),
    ensures
        count_some(s.update(i, None::<NodeData<C>>)) + 1 == count_some(s),
    decreases s.len(),
{
    let t = s.update(i, None::<NodeData<C>>);
    if i == s.len() - 1 {
        assert(t.drop_last() =~= s.drop_last());
    } else {
        lemma_count_clear(s.drop_last(), i);
        assert(t.drop_last() =~= s.drop_last().update(i, None::<NodeData<C>>));
        assert(t.last() == s.last());
    }
}

/// Appending a slot adds its occupancy to the count.
proof fn lemma_count_push<C: Component>(s: Seq<Option<NodeData<C>>>, v: Option<NodeData<C>>)
    ensures
        count_some(s.push(v)) == count_some(s) + if v.is_some() {
            1nat
        } else {
            0nat
        },
{
    assert(s.push(v).drop_last() =~= s);
    assert(s.push(v).last() == v);
}

/// Updating a slot in place with another occupied slot keeps the count.
proof fn lemma_count_replace<C: Component>(
    s: Seq<Option<NodeData<C>>>,
    i: int,
    v: NodeData<C>,
)
    requires
        0 <= i < s.len(),
        s[i].is_some(),
    ensures
        count_some(s.update(i, Some(v))) == count_some(s),
    decreases s.len(),
{
    let t = s.update(i, Some(v));
    if i == s.len() - 1 {
        assert(t.drop_last() =~= s.drop_last());
    } else {
        lemma_count_replace(s.drop_last(), i, v);
        assert(t.drop_last() =~= s.drop_last().update(i, Some(v)));
        assert(t.last() == s.last());
    }
}

impl<C: Component> NodeData<C> {
    /// The class tag of this node.
    pub open(crate) spec fn spec_tag(self) -> u64 {
        self.type_tag
    }

    /// The sibling key of this node.
    pub open(crate) spec fn spec_sibling_key(self) -> Option<Seq<char>> {
        spec_key_string(self.key)
    }

    /// The class tag of this node: immutable for the node's lifetime.
    pub fn node_type_tag(&self) -> (r: u64)
        ensures
            r == self.spec_tag(),
    {
        self.type_tag
    }

    /// A copy of this node's sibling key: immutable for the node's
    /// lifetime.
    pub fn node_key_string(&self) -> (r: Option<String>)
        ensures
            spec_key_string(r) == self.spec_sibling_key(),
    {
        match &self.key {
            None => None,
            Some(s) => Some(s.clone()),
        }
    }
}

/// The lake itself: one slot per identity ever sprouted.
pub struct NodeLake<C: Component> {
    pub(crate) slots: Vec<Option<NodeData<C>>>,
}

impl<C: Component> NodeLake<C> {
    /// The number of identities ever handed out; also the next fresh slot
    /// index.
    pub open(crate) spec fn cap(self) -> int {
        self.slots@.len() as int
    }

    /// Whether the key's node is in the lake.
    pub open(crate) spec fn contains(self, k: Key) -> bool {
        0 <= k.sid() < self.cap() && self.slots@[k.sid()].is_some()
    }

    /// The node stored for a key.
    pub open(crate) spec fn spec_node(self, k: Key) -> NodeData<C>
        recommends
            self.contains(k),
    {
        self.slots@[k.sid()].unwrap()
    }

    /// The number of live nodes.
    pub open(crate) spec fn population(self) -> nat {
        count_some(self.slots@)
    }

    /// The component-class tag of a node.
    pub open(crate) spec fn tag_of(self, k: Key) -> u64 {
        self.spec_node(k).type_tag
    }

    /// The sibling key of a node.
    pub open(crate) spec fn key_of(self, k: Key) -> Option<Seq<char>> {
        spec_key_string(self.spec_node(k).key)
    }

    /// The children of a node, in sibling order.
    pub open(crate) spec fn children_of(self, k: Key) -> Seq<Key> {
        self.spec_node(k).relations.children@
    }

    /// The parent link of a node.
    pub open(crate) spec fn parent_of(self, k: Key) -> Option<Key> {
        self.spec_node(k).relations.parent
    }

    /// Whether the node's render payload is in place (it is taken out only
    /// while the node's own step function runs).
    pub open(crate) spec fn has_data(self, k: Key) -> bool {
        self.spec_node(k).data.is_some()
    }

    /// The current input of a node.
    pub open(crate) spec fn input_of(self, k: Key) -> C::Input {
        self.spec_node(k).data.unwrap().input
    }

    /// The component state of a node.
    pub open(crate) spec fn state_of(self, k: Key) -> C {
        self.spec_node(k).data.unwrap().state
    }

    /// The context value a node stores for a tag.
    pub open(crate) spec fn context_of(self, k: Key, tag: u64) -> Option<C::Input> {
        self.spec_node(k).context.spec_get(tag)
    }

    /// The self-render signal of a node.
    pub open(crate) spec fn self_render_of(self, k: Key) -> SelfRender {
        self.spec_node(k).self_render
    }

    /// Identity (class tag and sibling key) of every node present in both
    /// lakes is the same.  This is how the runtime states that a node's
    /// `type_id` and `key` are immutable across its lifetime.
    pub open spec fn identity_preserved(pre: NodeLake<C>, post: NodeLake<C>) -> bool {
        forall|j: Key|
            pre.contains(j) && post.contains(j) ==> #[trigger] post.tag_of(j) == pre.tag_of(j)
                && post.key_of(j) == pre.key_of(j)
    }

    /// Child links never point at or past the allocation frontier.
    pub open spec fn children_bounded(self) -> bool {
        forall|p: Key, i: int|
            self.contains(p) && 0 <= i < self.children_of(p).len() ==> (
            #[trigger] self.children_of(p)[i]).sid() < self.cap()
    }

    /// A parent is always older (smaller slot index) than its child, which
    /// rules out cycles along parent links.
    pub open spec fn parents_ordered(self) -> bool {
        forall|j: Key|
            self.contains(j) && (#[trigger] self.parent_of(j)).is_some() ==> self.parent_of(
                j,
            ).unwrap().sid() < j.sid()
    }

    /// A live node listed among a live node's children has that node as its
    /// parent: a node is claimed by at most one parent, the one that linked
    /// it.
    pub open spec fn children_claimed(self) -> bool {
        forall|p: Key, i: int|
            self.contains(p) && 0 <= i < self.children_of(p).len() && self.contains(
                #[trigger] self.children_of(p)[i],
            ) ==> self.parent_of(self.children_of(p)[i]) == Some(p)
    }

    /// The structural well-formedness that holds of the lake at every point
    /// between render phases, whatever seeds components produce.
    pub open spec fn wf_core(self) -> bool {
        self.children_bounded() && self.parents_ordered() && self.children_claimed()
    }

    /// Every live node has its render payload in place.
    pub open spec fn data_ok(self) -> bool {
        forall|j: Key| self.contains(j) ==> #[trigger] self.has_data(j)
    }

    /// Every live node with a parent link is listed among that parent's
    /// children: the tree is fully linked, with no orphaned entries.
    pub open spec fn linked(self) -> bool {
        forall|j: Key|
            self.contains(j) && (#[trigger] self.parent_of(j)).is_some() ==> self.contains(
                self.parent_of(j).unwrap(),
            ) && self.children_of(self.parent_of(j).unwrap()).contains(j)
    }

    /// A key that named no node and lies below the allocation frontier
    /// names no node in the second lake either: identities are never
    /// resurrected, because fresh nodes always take indices at the frontier
    /// and the frontier only grows.
    pub open spec fn dead_stay_dead(pre: NodeLake<C>, post: NodeLake<C>) -> bool {
        forall|k: Key|
            k.sid() < pre.cap() && !pre.contains(k) ==> !(#[trigger] post.contains(k))
    }

    /// The second lake extends the first: nothing was removed, and anything
    /// new sits at or past the first lake's allocation frontier.
    pub open spec fn grows(pre: NodeLake<C>, post: NodeLake<C>) -> bool {
        &&& post.cap() >= pre.cap()
        &&& forall|j: Key| pre.contains(j) ==> #[trigger] post.contains(j)
        &&& forall|j: Key|
            #[trigger] post.contains(j) ==> pre.contains(j) || j.sid() >= pre.cap()
    }

    /// Every node of the first lake kept its relations, identity, context
    /// and component state in the second (only inputs and self-render
    /// signals may differ): this is reconciliation's frame.
    pub open(crate) spec fn keeps_shell(pre: NodeLake<C>, post: NodeLake<C>) -> bool {
        forall|j: Key|
            pre.contains(j) ==> (#[trigger] post.spec_node(j)).relations == pre.spec_node(
                j,
            ).relations && post.spec_node(j).type_tag == pre.spec_node(j).type_tag
                && post.key_of(j) == pre.key_of(j) && post.spec_node(j).context
                == pre.spec_node(j).context && post.spec_node(j).data.is_some() == pre.spec_node(
                j,
            ).data.is_some() && (pre.spec_node(j).data.is_some() ==> post.spec_node(
                j,
            ).data.unwrap().state == pre.spec_node(j).data.unwrap().state)
    }

    /// Every node past the first lake's frontier is freshly sprouted: no
    /// children and no parent yet.
    pub open spec fn fresh_clean(pre: NodeLake<C>, post: NodeLake<C>) -> bool {
        forall|j: Key|
            #![trigger post.spec_node(j)]
            post.contains(j) && j.sid() >= pre.cap() ==> post.children_of(j).len() == 0
                && post.parent_of(j) is None
    }

    /// The three reconciliation-frame relations compose.
    pub(crate) proof fn lemma_evolve_trans(a: NodeLake<C>, b: NodeLake<C>, c: NodeLake<C>)
        requires
            Self::grows(a, b),
            Self::keeps_shell(a, b),
            Self::fresh_clean(a, b),
            Self::grows(b, c),
            Self::keeps_shell(b, c),
            Self::fresh_clean(b, c),
        ensures
            Self::grows(a, c),
            Self::keeps_shell(a, c),
            Self::fresh_clean(a, c),
    {
        assert forall|j: Key| #[trigger] c.contains(j) implies a.contains(j) || j.sid() >= a.cap() by {
            if !a.contains(j) {
                assert(!b.contains(j) || j.sid() >= a.cap());
            }
        }
        assert forall|j: Key|
            a.contains(j) implies (#[trigger] c.spec_node(j)).relations == a.spec_node(
            j,
        ).relations && c.spec_node(j).type_tag == a.spec_node(j).type_tag && c.key_of(j)
            == a.key_of(j) && c.spec_node(j).context == a.spec_node(j).context
            && c.spec_node(j).data.is_some() == a.spec_node(j).data.is_some() && (a.spec_node(
            j,
        ).data.is_some() ==> c.spec_node(j).data.unwrap().state == a.spec_node(
            j,
        ).data.unwrap().state) by {
            assert(b.contains(j));
            assert((b.spec_node(j)).relations == a.spec_node(j).relations);
            assert((c.spec_node(j)).relations == b.spec_node(j).relations);
        }
        assert forall|j: Key|
            #![trigger c.spec_node(j)]
            c.contains(j) && j.sid() >= a.cap() implies c.children_of(j).len() == 0
                && c.parent_of(j) is None by {
            if j.sid() >= b.cap() {
                assert(c.spec_node(j) == c.spec_node(j));
            } else if b.contains(j) {
                assert(b.spec_node(j) == b.spec_node(j));
                assert(b.children_of(j).len() == 0 && b.parent_of(j) is None);
                assert((c.spec_node(j)).relations == b.spec_node(j).relations);
            }
        }
    }

    /// Growing the lake with clean fresh nodes that carry data preserves
    /// structural well-formedness.
    pub(crate) proof fn lemma_wf_core_grow(pre: NodeLake<C>, post: NodeLake<C>)
        requires
            pre.wf_core(),
            pre.data_ok(),
            Self::grows(pre, post),
            Self::keeps_shell(pre, post),
            Self::fresh_clean(pre, post),
            forall|j: Key|
                #[trigger] post.contains(j) && j.sid() >= pre.cap() ==> post.has_data(j),
        ensures
            post.wf_core(),
            post.data_ok(),
    {
        assert forall|j: Key|
            #![trigger post.spec_node(j)]
            pre.contains(j) implies post.parent_of(j) == pre.parent_of(j) && post.children_of(j)
                == pre.children_of(j) by {
            assert((post.spec_node(j)).relations == pre.spec_node(j).relations);
        }
        assert forall|p: Key, i: int|
            post.contains(p) && 0 <= i < post.children_of(p).len() implies (
        #[trigger] post.children_of(p)[i]).sid() < post.cap() by {
            if pre.contains(p) {
                assert(post.children_of(p) == pre.children_of(p));
                assert(pre.children_of(p)[i].sid() < pre.cap());
            }
        }
        assert forall|j: Key|
            post.contains(j) && (#[trigger] post.parent_of(j)).is_some() implies post.parent_of(
            j,
        ).unwrap().sid() < j.sid() by {
            if pre.contains(j) {
                assert(post.parent_of(j) == pre.parent_of(j));
            }
        }
        assert forall|p: Key, i: int|
            post.contains(p) && 0 <= i < post.children_of(p).len() && post.contains(
                #[trigger] post.children_of(p)[i],
            ) implies post.parent_of(post.children_of(p)[i]) == Some(p) by {
            if pre.contains(p) {
                assert(post.children_of(p) == pre.children_of(p));
                let c = pre.children_of(p)[i];
                assert(c.sid() < pre.cap());
                assert(pre.contains(c));
                assert(pre.parent_of(c) == Some(p));
                assert(post.parent_of(c) == pre.parent_of(c));
            }
        }
        assert forall|j: Key| post.contains(j) implies #[trigger] post.has_data(j) by {
            if pre.contains(j) {
                assert(pre.has_data(j));
                assert(post.spec_node(j).data.is_some() == pre.spec_node(j).data.is_some());
            }
        }
    }

    /// The second lake holds a subset of the first lake's nodes, each
    /// untouched: the only difference is that some nodes were removed.
    pub open spec fn shrinks(pre: NodeLake<C>, post: NodeLake<C>) -> bool {
        post.cap() == pre.cap() && forall|j: Key|
            #[trigger] post.contains(j) ==> pre.contains(j) && post.spec_node(j) == pre.spec_node(
                j,
            )
    }

    /// `shrinks` composes.
    pub(crate) proof fn lemma_shrinks_trans(a: NodeLake<C>, b: NodeLake<C>, c: NodeLake<C>)
        requires
            Self::shrinks(a, b),
            Self::shrinks(b, c),
        ensures
            Self::shrinks(a, c),
    {
        assert forall|j: Key| #[trigger] c.contains(j) implies a.contains(j) && c.spec_node(j)
            == a.spec_node(j) by {
            assert(b.contains(j));
        }
    }

    /// Structural well-formedness only depends on the domain and on the
    /// relations blocks: a change that keeps both keeps `wf_core`.
    pub(crate) proof fn lemma_wf_core_same_relations(pre: NodeLake<C>, post: NodeLake<C>)
        requires
            pre.wf_core(),
            post.cap() == pre.cap(),
            forall|j: Key| #[trigger] post.contains(j) == pre.contains(j),
            forall|j: Key|
                pre.contains(j) ==> #[trigger] post.spec_node(j).relations == pre.spec_node(
                    j,
                ).relations,
        ensures
            post.wf_core(),
    {
        assert forall|p: Key, i: int|
            post.contains(p) && 0 <= i < post.children_of(p).len() implies (
        #[trigger] post.children_of(p)[i]).sid() < post.cap() by {
            assert(post.children_of(p) == pre.children_of(p));
        }
        assert forall|j: Key|
            post.contains(j) && (#[trigger] post.parent_of(j)).is_some() implies post.parent_of(
            j,
        ).unwrap().sid() < j.sid() by {
            assert(post.parent_of(j) == pre.parent_of(j));
        }
        assert forall|p: Key, i: int|
            post.contains(p) && 0 <= i < post.children_of(p).len() && post.contains(
                #[trigger] post.children_of(p)[i],
            ) implies post.parent_of(post.children_of(p)[i]) == Some(p) by {
            assert(post.children_of(p) == pre.children_of(p));
            assert(post.parent_of(pre.children_of(p)[i]) == pre.parent_of(pre.children_of(p)[i]));
        }
    }

    /// Removing nodes, while leaving every surviving node untouched, keeps
    /// `wf_core` and `data_ok`.
    pub(crate) proof fn lemma_wf_core_removal(pre: NodeLake<C>, post: NodeLake<C>)
        requires
            pre.wf_core(),
            pre.data_ok(),
            post.cap() == pre.cap(),
            forall|j: Key|
                #[trigger] post.contains(j) ==> pre.contains(j) && post.spec_node(j)
                    == pre.spec_node(j),
        ensures
            post.wf_core(),
            post.data_ok(),
    {
        assert forall|p: Key, i: int|
            post.contains(p) && 0 <= i < post.children_of(p).len() implies (
        #[trigger] post.children_of(p)[i]).sid() < post.cap() by {
            assert(post.children_of(p) == pre.children_of(p));
        }
        assert forall|j: Key|
            post.contains(j) && (#[trigger] post.parent_of(j)).is_some() implies post.parent_of(
            j,
        ).unwrap().sid() < j.sid() by {
            assert(post.parent_of(j) == pre.parent_of(j));
        }
        assert forall|p: Key, i: int|
            post.contains(p) && 0 <= i < post.children_of(p).len() && post.contains(
                #[trigger] post.children_of(p)[i],
            ) implies post.parent_of(post.children_of(p)[i]) == Some(p) by {
            assert(post.children_of(p) == pre.children_of(p));
            assert(post.parent_of(pre.children_of(p)[i]) == pre.parent_of(pre.children_of(p)[i]));
        }
        assert forall|j: Key| post.contains(j) implies #[trigger] post.has_data(j) by {
            assert(pre.has_data(j));
        }
    }

    /// An empty lake.
    pub(crate) fn new() -> (r: Self)
        ensures
            r.cap() == 0,
            forall|k: Key| !r.contains(k),
            r.wf_core(),
            r.data_ok(),
            r.linked(),
            r.population() == 0,
    {
        NodeLake { slots: Vec::new() }
    }

    /// Whether a key's node is still in the lake; this is also how a weakly
    /// held key is upgraded.
    pub(crate) fn contains_key(&self, k: &Key) -> (r: bool)
        ensures
            r == self.contains(*k),
    {
        k.id < self.slots.len() && self.slots[k.id].is_some()
    }

    /// The class tag of a live node.
    pub(crate) fn read_tag(&self, k: &Key) -> (r: u64)
        requires
            self.contains(*k),
        ensures
            r == self.tag_of(*k),
    {
        self.slots[k.id].as_ref().unwrap().type_tag
    }

    /// Whether a live node's sibling key equals the given one.
    pub(crate) fn key_matches(&self, k: &Key, skey: &Option<String>) -> (r: bool)
        requires
            self.contains(*k),
        ensures
            r == (self.key_of(*k) == spec_key_string(*skey)),
    {
        crate::key::key_string_eq(&self.slots[k.id].as_ref().unwrap().key, skey)
    }

    /// A copy of a live node's sibling key.
    pub(crate) fn key_clone(&self, k: &Key) -> (r: Option<String>)
        requires
            self.contains(*k),
        ensures
            spec_key_string(r) == self.key_of(*k),
    {
        match &self.slots[k.id].as_ref().unwrap().key {
            None => None,
            Some(s) => Some(s.clone()),
        }
    }

    /// A copy of a live node's child list, in sibling order.
    pub(crate) fn children_snapshot(&self, k: &Key) -> (r: Vec<Key>)
        requires
            self.contains(*k),
        ensures
            r@ == self.children_of(*k),
    {
        let src = &self.slots[k.id].as_ref().unwrap().relations.children;
        let n = src.len();
        let mut out: Vec<Key> = Vec::new();
        let mut i: usize = 0;
        while i < n
            invariant
                n == src@.len(),
                0 <= i <= n,
                out@.len() == i,
                forall|j: int| 0 <= j < i ==> out@[j] == src@[j],
            decreases n - i,
        {
            out.push(src[i]);
            i = i + 1;
        }
        proof {
            assert(out@ =~= self.children_of(*k));
        }
        out
    }

    /// The parent link of a live node.
    pub(crate) fn parent_key(&self, k: &Key) -> (r: Option<Key>)
        requires
            self.contains(*k),
        ensures
            r == self.parent_of(*k),
    {
        self.slots[k.id].as_ref().unwrap().relations.parent
    }

    /// A working copy of a live node's self-render signal.
    pub(crate) fn self_render_snapshot(&self, k: &Key) -> (r: SelfRender)
        requires
            self.contains(*k),
        ensures
            r.spec_target() == self.self_render_of(*k).spec_target(),
    {
        match &self.slots[k.id].as_ref().unwrap().self_render {
            SelfRender::Unset => SelfRender::Unset,
            SelfRender::Installed(s) => SelfRender::Installed(
                crate::node::SelfRenderSet { sender: s.sender.clone(), self_key: s.self_key },
            ),
        }
    }

    /// Looks up the context value a live node stores for a tag.
    pub(crate) fn context_get(&self, k: &Key, tag: u64) -> (r: Option<&C::Input>)
        requires
            self.contains(*k),
        ensures
            match r {
                Some(v) => self.context_of(*k, tag) == Some(*v),
                None => self.context_of(*k, tag) is None,
            },
    {
        self.slots[k.id].as_ref().unwrap().context.get(tag)
    }

    /// Everything outside the slot of `k` is the same in both lakes, and
    /// both lakes hold the same set of nodes.
    pub open spec fn same_but(pre: NodeLake<C>, post: NodeLake<C>, k: Key) -> bool {
        &&& post.cap() == pre.cap()
        &&& forall|j: Key| #[trigger] post.contains(j) == pre.contains(j)
        &&& forall|j: Key|
            j != k && pre.contains(j) ==> #[trigger] post.spec_node(j) == pre.spec_node(j)
    }

    /// Takes a live node's render payload and context holder out, leaving
    /// the slot in place; the render engine hands both to the step phase and
    /// puts them back through `restore_after_step`.
    pub(crate) fn take_for_step(&mut self, k: &Key) -> (r: (RawData<C>, ContextHolder<C::Input>))
        requires
            old(self).contains(*k),
            old(self).has_data(*k),
        ensures
            Self::same_but(*old(self), *final(self), *k),
            final(self).tag_of(*k) == old(self).tag_of(*k),
            final(self).key_of(*k) == old(self).key_of(*k),
            final(self).self_render_of(*k) == old(self).self_render_of(*k),
            final(self).spec_node(*k).relations == old(self).spec_node(*k).relations,
            !final(self).has_data(*k),
            r.0.input == old(self).input_of(*k),
            r.0.state == old(self).state_of(*k),
            forall|t: u64| #[trigger] r.1.spec_get(t) == old(self).context_of(*k, t),
            final(self).population() == old(self).population(),
    {
        let ghost pre = self.slots@;
        let mut slot: Option<NodeData<C>> = None;
        core::mem::swap(&mut slot, &mut self.slots[k.id]);
        let mut nd = slot.unwrap();
        let raw = nd.data.take().unwrap();
        let mut holder = ContextHolder::new();
        core::mem::swap(&mut holder, &mut nd.context);
        let mut back: Option<NodeData<C>> = Some(nd);
        core::mem::swap(&mut back, &mut self.slots[k.id]);
        proof {
            lemma_count_replace(pre, k.sid(), self.slots@[k.sid()].unwrap());
            assert(pre.update(k.sid(), Some(self.slots@[k.sid()].unwrap())) =~= self.slots@);
        }
        (raw, holder)
    }

    /// Puts a node's render payload and context holder back after its step.
    pub(crate) fn restore_after_step(
        &mut self,
        k: &Key,
        raw: RawData<C>,
        holder: ContextHolder<C::Input>,
    )
        requires
            old(self).contains(*k),
        ensures
            Self::same_but(*old(self), *final(self), *k),
            final(self).tag_of(*k) == old(self).tag_of(*k),
            final(self).key_of(*k) == old(self).key_of(*k),
            final(self).self_render_of(*k) == old(self).self_render_of(*k),
            final(self).spec_node(*k).relations == old(self).spec_node(*k).relations,
            final(self).has_data(*k),
            final(self).input_of(*k) == raw.input,
            final(self).state_of(*k) == raw.state,
            forall|t: u64| #[trigger] final(self).context_of(*k, t) == holder.spec_get(t),
            final(self).population() == old(self).population(),
    {
        let ghost pre = self.slots@;
        let mut slot: Option<NodeData<C>> = None;
        core::mem::swap(&mut slot, &mut self.slots[k.id]);
        let mut nd = slot.unwrap();
        nd.data = Some(raw);
        nd.context = holder;
        let mut back: Option<NodeData<C>> = Some(nd);
        core::mem::swap(&mut back, &mut self.slots[k.id]);
        proof {
            assert(self.slots@ =~= pre.update(k.sid(), self.slots@[k.sid()]));
            lemma_count_replace(pre, k.sid(), self.slots@[k.sid()].unwrap());
        }
    }

    /// Replaces a live node's input, keeping its component state: this is
    /// the merge that a reused node receives during reconciliation.
    pub(crate) fn replace_input(&mut self, k: &Key, input: C::Input)
        requires
            old(self).contains(*k),
            old(self).has_data(*k),
        ensures
            Self::same_but(*old(self), *final(self), *k),
            final(self).tag_of(*k) == old(self).tag_of(*k),
            final(self).key_of(*k) == old(self).key_of(*k),
            final(self).self_render_of(*k) == old(self).self_render_of(*k),
            final(self).spec_node(*k).relations == old(self).spec_node(*k).relations,
            final(self).spec_node(*k).context == old(self).spec_node(*k).context,
            final(self).has_data(*k),
            final(self).input_of(*k) == input,
            final(self).state_of(*k) == old(self).state_of(*k),
            final(self).population() == old(self).population(),
    {
        let ghost pre = self.slots@;
        let mut slot: Option<NodeData<C>> = None;
        core::mem::swap(&mut slot, &mut self.slots[k.id]);
        let mut nd = slot.unwrap();
        let mut raw = nd.data.take().unwrap();
        raw.input = input;
        nd.data = Some(raw);
        let mut back: Option<NodeData<C>> = Some(nd);
        core::mem::swap(&mut back, &mut self.slots[k.id]);
        proof {
            assert(self.slots@ =~= pre.update(k.sid(), self.slots@[k.sid()]));
            lemma_count_replace(pre, k.sid(), self.slots@[k.sid()].unwrap());
        }
    }

    /// Replaces a live node's child list.
    pub(crate) fn set_children(&mut self, k: &Key, children: Vec<Key>)
        requires
            old(self).contains(*k),
        ensures
            Self::same_but(*old(self), *final(self), *k),
            final(self).tag_of(*k) == old(self).tag_of(*k),
            final(self).key_of(*k) == old(self).key_of(*k),
            final(self).self_render_of(*k) == old(self).self_render_of(*k),
            final(self).spec_node(*k).data == old(self).spec_node(*k).data,
            final(self).spec_node(*k).context == old(self).spec_node(*k).context,
            final(self).children_of(*k) == children@,
            final(self).parent_of(*k) == old(self).parent_of(*k),
            final(self).population() == old(self).population(),
    {
        let ghost pre = self.slots@;
        let mut slot: Option<NodeData<C>> = None;
        core::mem::swap(&mut slot, &mut self.slots[k.id]);
        let mut nd = slot.unwrap();
        nd.relations.children = children;
        let mut back: Option<NodeData<C>> = Some(nd);
        core::mem::swap(&mut back, &mut self.slots[k.id]);
        proof {
            assert(self.slots@ =~= pre.update(k.sid(), self.slots@[k.sid()]));
            lemma_count_replace(pre, k.sid(), self.slots@[k.sid()].unwrap());
        }
    }

    /// Points a live node's parent link at another node.
    pub(crate) fn set_parent(&mut self, k: &Key, parent: &Key)
        requires
            old(self).contains(*k),
        ensures
            Self::same_but(*old(self), *final(self), *k),
            final(self).tag_of(*k) == old(self).tag_of(*k),
            final(self).key_of(*k) == old(self).key_of(*k),
            final(self).self_render_of(*k) == old(self).self_render_of(*k),
            final(self).spec_node(*k).data == old(self).spec_node(*k).data,
            final(self).spec_node(*k).context == old(self).spec_node(*k).context,
            final(self).children_of(*k) == old(self).children_of(*k),
            final(self).parent_of(*k) == Some(*parent),
            final(self).population() == old(self).population(),
    {
        let ghost pre = self.slots@;
        let mut slot: Option<NodeData<C>> = None;
        core::mem::swap(&mut slot, &mut self.slots[k.id]);
        let mut nd = slot.unwrap();
        nd.relations.parent = Some(*parent);
        let mut back: Option<NodeData<C>> = Some(nd);
        core::mem::swap(&mut back, &mut self.slots[k.id]);
        proof {
            assert(self.slots@ =~= pre.update(k.sid(), self.slots@[k.sid()]));
            lemma_count_replace(pre, k.sid(), self.slots@[k.sid()].unwrap());
        }
    }

    /// Installs the host's self-render signal on a live node, at most once:
    /// a signal that is already installed stays as it is.
    pub(crate) fn install_self_render(
        &mut self,
        k: &Key,
        sender: &crossbeam::channel::Sender<Key>,
    )
        requires
            old(self).contains(*k),
        ensures
            Self::same_but(*old(self), *final(self), *k),
            final(self).tag_of(*k) == old(self).tag_of(*k),
            final(self).key_of(*k) == old(self).key_of(*k),
            final(self).spec_node(*k).data == old(self).spec_node(*k).data,
            final(self).spec_node(*k).context == old(self).spec_node(*k).context,
            final(self).spec_node(*k).relations == old(self).spec_node(*k).relations,
            old(self).self_render_of(*k) is Installed ==> final(self).self_render_of(*k) == old(self).self_render_of(*k),
            old(self).self_render_of(*k) is Unset ==> final(self).self_render_of(
                *k,
            ).spec_target() == Some(*k),
            final(self).population() == old(self).population(),
    {
        let ghost pre = self.slots@;
        let mut slot: Option<NodeData<C>> = None;
        core::mem::swap(&mut slot, &mut self.slots[k.id]);
        let mut nd = slot.unwrap();
        nd.self_render.set_self(k, sender);
        let mut back: Option<NodeData<C>> = Some(nd);
        core::mem::swap(&mut back, &mut self.slots[k.id]);
        proof {
            assert(self.slots@ =~= pre.update(k.sid(), self.slots@[k.sid()]));
            lemma_count_replace(pre, k.sid(), self.slots@[k.sid()].unwrap());
        }
    }

    /// Removes a node, handing its data back so the caller may inspect the
    /// children for recursive cleanup.  Removing an already-removed key is a
    /// no-op that returns `None`.
    pub(crate) fn remove(&mut self, node_key: &Key) -> (r: Option<NodeData<C>>)
        ensures
            final(self).cap() == old(self).cap(),
            !final(self).contains(*node_key),
            forall|j: Key|
                j != *node_key ==> #[trigger] final(self).contains(j) == old(self).contains(j),
            forall|j: Key|
                j != *node_key && old(self).contains(j) ==> #[trigger] final(self).spec_node(j)
                    == old(self).spec_node(j),
            old(self).contains(*node_key) ==> r == Some(old(self).spec_node(*node_key))
                && final(self).population() + 1 == old(self).population(),
            !old(self).contains(*node_key) ==> r is None && final(self).population() == old(self).population() && *final(self) == *old(self),
    {
        if !self.contains_key(node_key) {
            return None;
        }
        let ghost pre = self.slots@;
        let mut slot: Option<NodeData<C>> = None;
        core::mem::swap(&mut slot, &mut self.slots[node_key.id]);
        proof {
            assert(self.slots@ =~= pre.update(node_key.sid(), None::<NodeData<C>>));
            lemma_count_clear(pre, node_key.sid());
        }
        slot
    }

    /// Sprouts a seed: allocates a fresh identity, stores the seed's input
    /// and component state under it, and returns the new key.  The new node
    /// starts with no children, no parent, and an empty context.
    pub(crate) fn sprout_and_link(&mut self, node_seed: Seed<C>) -> (r: Key)
        ensures
            r.sid() == old(self).cap(),
            !old(self).contains(r),
            final(self).cap() == old(self).cap() + 1,
            final(self).contains(r),
            forall|j: Key|
                j != r ==> #[trigger] final(self).contains(j) == old(self).contains(j),
            forall|j: Key|
                j != r && old(self).contains(j) ==> #[trigger] final(self).spec_node(j) == old(self).spec_node(j),
            final(self).tag_of(r) == node_seed.spec_tag(),
            final(self).key_of(r) == node_seed.spec_key(),
            final(self).has_data(r),
            final(self).input_of(r) == node_seed.spec_input(),
            final(self).state_of(r) == node_seed.spec_state(),
            final(self).children_of(r).len() == 0,
            final(self).parent_of(r) is None,
            final(self).self_render_of(r).spec_target() == node_seed.spec_signal_target(),
            forall|t: u64| #[trigger] final(self).context_of(r, t) is None,
            final(self).population() == old(self).population() + 1,
    {
        let ghost pre = self.slots@;
        let (raw_key, raw_data) = node_seed.sprout();
        let key = Key { id: self.slots.len() };
        let nd = NodeData {
            type_tag: raw_key.type_tag,
            key: raw_key.key,
            self_render: raw_key.self_render,
            data: Some(raw_data),
            context: ContextHolder::new(),
            relations: NodeRelations { children: Vec::new(), parent: None },
        };
        self.slots.push(Some(nd));
        proof {
            lemma_count_push(pre, self.slots@.last());
            assert(self.slots@ =~= pre.push(self.slots@.last()));
        }
        key
    }
}

} // verus!
