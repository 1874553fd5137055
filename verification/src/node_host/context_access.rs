//! Context access: the ancestor-walking typed context lookup.
//!
//! A node's context lookup consults the node's own holder first and then
//! walks up the parent links, returning the nearest ancestor-or-self value
//! for the requested container.  The walk terminates because a parent
//! always has a smaller slot index than its child.

use crate::embeddable::context_holder::{ContextContainer, ContextHolder};
use crate::key::Key;
use crate::node::Component;
use crate::node_host::lake::NodeLake;
use crate::node_host::NodeControl;
use vstd::prelude::*;

verus! {

/// What an ancestor walk starting at `k` (inclusive) finds for a tag.
pub open(crate) spec fn spec_chain_lookup<C: Component>(
    lake: NodeLake<C>,
    k: Key,
    tag: u64,
) -> Option<C::Input>
    decreases k.sid(),
    when lake.wf_core()
{
    if !lake.contains(k) {
        None
    } else if lake.context_of(k, tag).is_some() {
        lake.context_of(k, tag)
    } else {
        match lake.parent_of(k) {
            None => None,
            Some(p) => spec_chain_lookup(lake, p, tag),
        }
    }
}

/// A cursor over the tree, able to move from a node to its parent.
pub struct NodeNavigator {
    pub(crate) current: Key,
}

impl NodeNavigator {
    /// The node the navigator stands on.
    pub open(crate) spec fn spec_current(self) -> Key {
        self.current
    }

    /// Moves to the parent of the current node: fails when the current
    /// node's data is gone, when it has no parent, or when the parent's key
    /// no longer upgrades to a live node.
    pub fn get_parent<C: Component>(&self, lake: &NodeLake<C>) -> (r: Option<NodeNavigator>)
        ensures
            match r {
                Some(nav) => lake.contains(self.spec_current()) && lake.parent_of(
                    self.spec_current(),
                ) == Some(nav.spec_current()) && lake.contains(nav.spec_current()),
                None => !lake.contains(self.spec_current()) || lake.parent_of(
                    self.spec_current(),
                ) is None || !lake.contains(lake.parent_of(self.spec_current()).unwrap()),
            },
    {
        if !lake.contains_key(&self.current) {
            return None;
        }
        match lake.parent_key(&self.current) {
            None => None,
            Some(p) => {
                if lake.contains_key(&p) {
                    Some(NodeNavigator { current: p })
                } else {
                    None
                }
            },
        }
    }
}

/// Context capabilities bound to the node currently being stepped.
pub struct ContextAccess<'b, 'a, C: Component> {
    pub(crate) control: &'b mut NodeControl<'a, C>,
}

impl<'b, 'a, C: Component> ContextAccess<'b, 'a, C> {
    /// The value the current node sees for a tag: its own holder first,
    /// then the nearest ancestor holding the tag.
    pub open(crate) spec fn spec_lookup(self, tag: u64) -> Option<C::Input> {
        match self.control.spec_own_context(tag) {
            Some(v) => Some(v),
            None => match self.control.lake.parent_of(self.control.spec_current()) {
                None => None,
                Some(p) => spec_chain_lookup(*self.control.lake, p, tag),
            },
        }
    }

    /// The value the current node itself stores for a tag.
    pub open(crate) spec fn spec_own(self, tag: u64) -> Option<C::Input> {
        self.control.spec_own_context(tag)
    }

    /// The node this access is bound to.
    pub open(crate) spec fn spec_current(self) -> Key {
        self.control.spec_current()
    }

    /// Whether a re-render has been requested through the same control.
    pub open(crate) spec fn spec_rerender_requested(self) -> bool {
        self.control.spec_rerender_requested()
    }

    /// The lake the access reads.
    pub open(crate) spec fn spec_lake(self) -> NodeLake<C> {
        *self.control.lake
    }

    /// Nearest-ancestor-or-self lookup for an explicit container tag.
    pub fn get_context_at(&self, tag: u64) -> (r: Option<&C::Input>)
        ensures
            match r {
                Some(v) => self.spec_lookup(tag) == Some(*v),
                None => self.spec_lookup(tag) is None,
            },
    {
        proof {
            use_type_invariant(&*self.control);
        }
        if let Some(v) = self.control.holder.get(tag) {
            return Some(v);
        }
        let lake = self.control.lake;
        let ghost target = self.spec_lookup(tag);
        let mut nav: Key = match lake.parent_key(&self.control.current) {
            None => {
                return None;
            },
            Some(p) => p,
        };
        loop
            invariant
                lake.wf_core(),
                lake == self.control.lake,
                target == self.spec_lookup(tag),
                spec_chain_lookup(*lake, nav, tag) == target,
            decreases nav.sid(),
        {
            if !lake.contains_key(&nav) {
                return None;
            }
            if let Some(v) = lake.context_get(&nav, tag) {
                return Some(v);
            }
            match lake.parent_key(&nav) {
                None => {
                    return None;
                },
                Some(p) => {
                    nav = p;
                },
            }
        }
    }

    /// Sets the context value the current node stores for a tag, returning
    /// the value the node itself stored before, if any.  The write is
    /// visible to this node's later lookups in the same step and to its
    /// descendants once they render.
    pub fn set_context_at(&mut self, tag: u64, value: C::Input) -> (r: Option<C::Input>)
        ensures
            final(self).spec_own(tag) == Some(value),
            forall|t: u64| t != tag ==> #[trigger] final(self).spec_own(t) == old(self).spec_own(t),
            r == old(self).spec_own(tag),
            final(self).spec_current() == old(self).spec_current(),
            final(self).spec_rerender_requested() == old(self).spec_rerender_requested(),
            final(self).spec_lake() == old(self).spec_lake(),
    {
        proof {
            use_type_invariant(&*self.control);
        }
        let mut h = ContextHolder::new();
        core::mem::swap(&mut h, &mut self.control.holder);
        let prev = h.set(tag, value);
        core::mem::swap(&mut h, &mut self.control.holder);
        prev
    }

    /// Setting a context value and then looking the same tag up on the same
    /// node yields the value just set: the node's own holder always shadows
    /// whatever its ancestors hold.
    pub proof fn lemma_set_then_get(self, tag: u64, v: C::Input)
        requires
            self.spec_own(tag) == Some(v),
        ensures
            self.spec_lookup(tag) == Some(v),
    {
    }

    /// Nearest-ancestor-or-self lookup by container type.
    pub fn get_context<Ctr: ContextContainer>(&self) -> Option<&C::Input> {
        self.get_context_at(Ctr::container_tag())
    }

    /// Sets this node's context value for a container type, returning the
    /// previously stored value, if any.
    pub fn set_context<Ctr: ContextContainer>(&mut self, value: C::Input) -> Option<C::Input> {
        self.set_context_at(Ctr::container_tag(), value)
    }

    /// Whether the current node sees a value for the container type.
    pub fn has<Ctr: ContextContainer>(&self) -> bool {
        self.get_context_at(Ctr::container_tag()).is_some()
    }
}

} // verus!
