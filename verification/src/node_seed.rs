//! A plain node-creation request: identity metadata, the first input, and
//! the step behavior that will drive the node.

use vstd::prelude::*;

verus! {

/// A request to create a node, or to hand a new input to an existing node
/// of the same identity: a class tag, an optional sibling key, the input,
/// and the step behavior.
pub struct NodeSeed<T, S> {
    pub(crate) type_tag: u64,
    pub(crate) key: Option<String>,
    pub(crate) input: T,
    pub(crate) step_fn: S,
}

impl<T, S> NodeSeed<T, S> {
    /// The class tag this request carries.
    pub open(crate) spec fn spec_tag(self) -> u64 {
        self.type_tag
    }

    /// The sibling key this request carries.
    pub open(crate) spec fn spec_key(self) -> Option<Seq<char>> {
        crate::key::spec_key_string(self.key)
    }

    /// The input this request carries.
    pub open(crate) spec fn spec_input(self) -> T {
        self.input
    }

    /// The step behavior this request carries.
    pub open(crate) spec fn spec_step(self) -> S {
        self.step_fn
    }

    /// Packages a node-creation request.
    pub fn create(type_tag: u64, key: Option<String>, input: T, step_fn: S) -> (r: NodeSeed<
        T,
        S,
    >)
        ensures
            r.spec_tag() == type_tag,
            r.spec_key() == crate::key::spec_key_string(key),
            r.spec_input() == input,
            r.spec_step() == step_fn,
    {
        NodeSeed { type_tag, key, input, step_fn }
    }
}

} // verus!
