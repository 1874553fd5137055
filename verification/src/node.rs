//! The component contract and the self-render signal.
//!
//! A component is the user-defined unit of the tree: it has an input type, a
//! constructor, and a step function that the runtime calls on every render
//! of the node, handing it a control handle and the node's current input.
//! The step function returns the seeds of the node's children for this
//! render.

use crate::key::{Key, RawKey, Seed, SeedData};
use crate::node_host::NodeControl;
use vstd::prelude::*;

verus! {

/// The contract a component class implements so the runtime can
/// instantiate, step and reuse it.
///
/// `type_tag` identifies the component class: the runtime reuses an existing
/// child for a seed only when both the sibling key and the class tag match.
/// Implementations give every class its own tag; the runtime only ever
/// compares the tags stored in seeds and nodes, so all reconciliation
/// contracts are stated over those stored values.
///
/// The step function is user code: the runtime promises nothing about the
/// seeds it returns and re-establishes its own invariants for every possible
/// return value.
pub trait Component: Sized {
    /// The input a node of this class receives on every render.
    type Input;

    /// The tag identifying this component class.
    fn type_tag() -> u64;

    /// Initial component state, given the first input.
    fn construct(input: &Self::Input) -> Self;

    /// Called on every render of the node.  Returns the seeds of the node's
    /// children, in sibling order.
    fn step(&mut self, control: &mut NodeControl<Self>, input: &Self::Input) -> Vec<Seed<Self>>;
}

/// Packages an input and a sibling key into a seed of component class `C`,
/// constructing the component state that will live in the node.  The seed
/// carries the class tag of `C`, so reconciliation will reuse an existing
/// node for it only when both the key and the class match.
pub fn seed<C: Component>(input: C::Input, key: String) -> (s: Seed<C>)
    ensures
        s.spec_key() == Some(key@),
        s.spec_input() == input,
        s.spec_signal_target() is None,
{
    let state = C::construct(&input);
    Seed {
        key: RawKey { type_tag: C::type_tag(), key: Some(key), self_render: SelfRender::Unset },
        data: SeedData { input, state },
    }
}

/// Packages an input and a sibling key into a seed carrying an explicit
/// class tag.  Components written as one tagged type with several variants
/// use this to give each variant its own identity: the runtime reuses an
/// existing child only when both the sibling key and the carried tag match.
pub fn seed_tagged<C: Component>(type_tag: u64, input: C::Input, key: String) -> (s: Seed<C>)
    ensures
        s.spec_tag() == type_tag,
        s.spec_key() == Some(key@),
        s.spec_input() == input,
        s.spec_signal_target() is None,
{
    let state = C::construct(&input);
    Seed {
        key: RawKey { type_tag, key: Some(key), self_render: SelfRender::Unset },
        data: SeedData { input, state },
    }
}

/// A node's self-render signal.  It starts out uninstalled; during
/// reconciliation the runtime installs the host's signal sender together
/// with the node's own key, at most once.  A component may clone the signal
/// and invoke it from anywhere to enqueue its node for a later render
/// cycle.
#[derive(Clone)]
pub enum SelfRender {
    Unset,
    Installed(SelfRenderSet),
}

/// An installed self-render signal: the host's signal sender paired with the
/// key of the node the signal re-renders.
#[derive(Clone)]
pub struct SelfRenderSet {
    pub(crate) sender: crossbeam::channel::Sender<Key>,
    pub(crate) self_key: Key,
}

impl Default for SelfRender {
    fn default() -> (r: Self)
        ensures
            r is Unset,
    {
        SelfRender::Unset
    }
}

impl SelfRender {
    /// The key an installed signal would enqueue, if any.
    pub open(crate) spec fn spec_target(self) -> Option<Key> {
        match self {
            SelfRender::Unset => None,
            SelfRender::Installed(s) => Some(s.self_key),
        }
    }

    /// Installs the signal once; later installations are ignored.
    pub(crate) fn set_self(
        &mut self,
        node_key: &Key,
        sender: &crossbeam::channel::Sender<Key>,
    )
        ensures
            *old(self) is Installed ==> *final(self) == *old(self),
            *old(self) is Unset ==> final(self).spec_target() == Some(*node_key),
    {
        if let SelfRender::Installed(_) = &*self {
            return ;
        }
        *self = SelfRender::Installed(
            SelfRenderSet { sender: sender.clone(), self_key: *node_key },
        );
    }

    /// Enqueues the node for a later render cycle.  On an uninstalled signal
    /// this is a no-op that reports success; on an installed one it fails
    /// only when the host side of the channel is gone.
    pub fn rerender(&self) -> (r: Result<(), ()>)
        ensures
            self is Unset ==> r is Ok,
    {
        match self {
            SelfRender::Unset => Ok(()),
            SelfRender::Installed(s) => match s.sender.send(s.self_key) {
                Ok(_) => Ok(()),
                Err(_) => Err(()),
            },
        }
    }
}

/// A unit of work the host processes: render the node behind the key.
pub(crate) enum WorkItem {
    Render(Key),
}

} // verus!
