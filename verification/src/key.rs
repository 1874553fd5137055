//! Node identity and seed payloads.
//!
//! A `Key` is the stable identity of a node in the lake.  The lake hands out
//! a fresh identity for every sprouted seed and never reuses one, so two
//! `Key` values are equal exactly when they refer to the same node.
//! Everywhere the runtime keeps an inter-node reference (parent and child
//! links, work queues) it stores a plain `Key`; whether the referenced node
//! is still alive is decided by looking the key up in the lake, never by the
//! key itself, which is how a key can be held weakly without keeping its
//! node alive.

use crate::node::{Component, SelfRender};
use vstd::prelude::*;

verus! {

/// Stable identity of a node: the index of the lake slot that was allocated
/// when the node's seed was sprouted.  Slots are never reallocated, so
/// equality of `Key` values coincides with identity of the underlying nodes.
#[derive(Clone, Copy, PartialEq, Eq, Structural, Hash, Debug)]
pub struct Key {
    pub(crate) id: usize,
}

impl Key {
    /// The slot index as a mathematical integer.
    pub open(crate) spec fn sid(self) -> int {
        self.id as int
    }

    /// The raw slot index, exposed for diagnostics.
    pub fn index(&self) -> (r: usize)
        ensures
            r as int == self.sid(),
    {
        self.id
    }
}

/// Identity-side half of a seed: what ends up guarded by the node's key
/// record.  `type_tag` identifies the component class, `key` disambiguates
/// siblings of the same class, and `self_render` carries the node's
/// self-render signal once one is installed.
pub struct RawKey {
    pub(crate) type_tag: u64,
    pub(crate) key: Option<String>,
    pub(crate) self_render: SelfRender,
}

/// Data-side half of a seed: the first input and the freshly constructed
/// component state that will step the node on every render.
pub struct SeedData<C: Component> {
    pub(crate) input: C::Input,
    pub(crate) state: C,
}

/// A deferred node-creation request, the only way to create a node.  It is
/// consumed either by sprouting (a fresh node takes both halves) or by a
/// merge (an existing node of the same identity takes only the input).
pub struct Seed<C: Component> {
    pub(crate) key: RawKey,
    pub(crate) data: SeedData<C>,
}

/// Mutable per-node payload stored in the lake: the current input and the
/// component state that persists across renders of the node.
pub struct RawData<C: Component> {
    pub(crate) input: C::Input,
    pub(crate) state: C,
}

/// The sibling key of an identity record, as a mathematical value.
pub open(crate) spec fn spec_key_string(k: Option<String>) -> Option<Seq<char>> {
    match k {
        Some(s) => Some(s@),
        None => None,
    }
}

/// Equality of keys is pointer-like identity: two keys are equal exactly
/// when they carry the same slot index, so equal keys always resolve to the
/// same lake entry and distinct keys never do.
pub proof fn lemma_key_identity(k1: Key, k2: Key)
    ensures
        (k1 == k2) <==> (k1.sid() == k2.sid()),
{
}

/// Compares two sibling keys by exact string equality.
pub(crate) fn key_string_eq(a: &Option<String>, b: &Option<String>) -> (r: bool)
    ensures
        r == (spec_key_string(*a) == spec_key_string(*b)),
{
    match (a, b) {
        (None, None) => true,
        (Some(x), Some(y)) => *x == *y,
        _ => false,
    }
}

impl<C: Component> Seed<C> {
    /// The component-class tag this seed carries.
    pub open(crate) spec fn spec_tag(self) -> u64 {
        self.key.type_tag
    }

    /// The sibling key this seed carries.
    pub open(crate) spec fn spec_key(self) -> Option<Seq<char>> {
        spec_key_string(self.key.key)
    }

    /// The input this seed carries.
    pub open(crate) spec fn spec_input(self) -> C::Input {
        self.data.input
    }

    /// The component state this seed carries.
    pub open(crate) spec fn spec_state(self) -> C {
        self.data.state
    }

    /// The key the seed's self-render signal would enqueue, if the seed
    /// already carries an installed signal.
    pub open(crate) spec fn spec_signal_target(self) -> Option<Key> {
        self.key.self_render.spec_target()
    }

    /// Splits the seed into its identity half and its data half.
    pub(crate) fn sprout(self) -> (r: (RawKey, RawData<C>))
        ensures
            r.0 == self.key,
            r.1.input == self.spec_input(),
            r.1.state == self.spec_state(),
    {
        let Seed { key, data: SeedData { input, state } } = self;
        (key, RawData { input, state })
    }
}

} // verus!
