//! The per-node storage manager: named slots of long-lived values that
//! survive across renders without being part of the component state.

use crate::embeddable::state_manager::{
    lemma_entry_skip, lemma_entry_skip_after_push, spec_entry,
};
use vstd::prelude::*;

verus! {

/// Named storage slots.
pub struct StorageManager<T> {
    pub(crate) state_map: Vec<(String, T)>,
}

impl<T> StorageManager<T> {
    /// The value stored under a key, if any.
    pub open(crate) spec fn spec_stored(self, k: Seq<char>) -> Option<T> {
        spec_entry(self.state_map@, k)
    }

    /// An empty storage.
    pub fn new() -> (r: StorageManager<T>)
        ensures
            forall|k: Seq<char>| r.spec_stored(k) is None,
    {
        let r = StorageManager { state_map: Vec::new() };
        proof {
            assert forall|k: Seq<char>| r.spec_stored(k) is None by {
                assert(r.state_map@.len() == 0);
            }
        }
        r
    }

    /// Whether a key has a stored value.
    #[verifier::loop_isolation(false)]
    pub(crate) fn has(&self, key: &String) -> (r: bool)
        ensures
            r == (self.spec_stored(key@) is Some),
    {
        let n = self.state_map.len();
        let mut i: usize = 0;
        while i < n
            invariant
                0 <= i <= n,
                forall|j: int| 0 <= j < i ==> (#[trigger] self.state_map@[j]).0@ != key@,
            decreases n - i,
        {
            if self.state_map[i].0 == *key {
                proof {
                    lemma_entry_skip(self.state_map@, i as int, key@);
                }
                return true;
            }
            i = i + 1;
        }
        proof {
            lemma_entry_skip(self.state_map@, n as int, key@);
        }
        false
    }

    /// A reference to the value stored under a key.
    #[verifier::loop_isolation(false)]
    pub(crate) fn get(&self, key: &String) -> (r: Option<&T>)
        ensures
            match r {
                Some(v) => self.spec_stored(key@) == Some(*v),
                None => self.spec_stored(key@) is None,
            },
    {
        let n = self.state_map.len();
        let mut i: usize = 0;
        while i < n
            invariant
                0 <= i <= n,
                forall|j: int| 0 <= j < i ==> (#[trigger] self.state_map@[j]).0@ != key@,
            decreases n - i,
        {
            if self.state_map[i].0 == *key {
                proof {
                    lemma_entry_skip(self.state_map@, i as int, key@);
                }
                return Some(&self.state_map[i].1);
            }
            i = i + 1;
        }
        proof {
            lemma_entry_skip(self.state_map@, n as int, key@);
        }
        None
    }

    /// Stores a value under a key, replacing what was there.
    #[verifier::loop_isolation(false)]
    pub(crate) fn insert(&mut self, key: String, value: T)
        ensures
            final(self).spec_stored(key@) == Some(value),
            forall|t: Seq<char>|
                t != key@ ==> #[trigger] final(self).spec_stored(t) == old(self).spec_stored(t),
    {
        let n = self.state_map.len();
        let mut i: usize = 0;
        while i < n
            invariant
                n == self.state_map@.len(),
                self.state_map@ == old(self).state_map@,
                0 <= i <= n,
                forall|j: int| 0 <= j < i ==> (#[trigger] self.state_map@[j]).0@ != key@,
            decreases n - i,
        {
            if self.state_map[i].0 == key {
                proof {
                    lemma_entry_skip(self.state_map@, i as int, key@);
                }
                let ghost pre_map = self.state_map@;
                let entry = self.state_map.remove(i);
                self.state_map.insert(i, (key, value));
                proof {
                    assert(self.state_map@ =~= pre_map.update(i as int, self.state_map@[i as int]));
                    assert(self.state_map@[i as int].0@ == pre_map[i as int].0@);
                    assert forall|j: int|
                        0 <= j < i implies (#[trigger] self.state_map@[j]).0@ != key@ by {
                        assert(self.state_map@[j] == pre_map[j]);
                    }
                    lemma_entry_skip(self.state_map@, i as int, key@);
                    assert forall|t: Seq<char>|
                        t != key@ implies #[trigger] spec_entry(self.state_map@, t) == spec_entry(
                        pre_map,
                        t,
                    ) by {
                        crate::embeddable::state_manager::lemma_entry_agree(
                            pre_map,
                            self.state_map@,
                            0,
                            t,
                        );
                    }
                }
                return ;
            }
            i = i + 1;
        }
        proof {
            lemma_entry_skip(self.state_map@, n as int, key@);
        }
        let ghost pre_map = self.state_map@;
        self.state_map.push((key, value));
        proof {
            assert(self.state_map@[n as int].0@ == key@);
            lemma_entry_skip_after_push(pre_map, self.state_map@, key@);
        }
    }
}

/// Storage access handed to effects and workers.
pub struct StorageBridge<'a, T> {
    pub(crate) manager: &'a mut StorageManager<T>,
}

impl<'a, T> StorageBridge<'a, T> {
    /// The value the wrapped storage holds under a key.
    pub open(crate) spec fn spec_stored(self, k: Seq<char>) -> Option<T> {
        self.manager.spec_stored(k)
    }

    /// Wraps a manager.
    pub fn new(manager: &'a mut StorageManager<T>) -> StorageBridge<'a, T> {
        StorageBridge { manager }
    }

    /// A reference to the value stored under a key.
    pub(crate) fn get(&self, key: &String) -> (r: Option<&T>)
        ensures
            match r {
                Some(v) => self.spec_stored(key@) == Some(*v),
                None => self.spec_stored(key@) is None,
            },
    {
        self.manager.get(key)
    }

    /// Whether a key has a stored value.
    pub(crate) fn has(&self, key: &String) -> (r: bool)
        ensures
            r == (self.spec_stored(key@) is Some),
    {
        self.manager.has(key)
    }

    /// Stores a value under a key, replacing what was there.
    pub(crate) fn insert(&mut self, key: &String, value: T)
        ensures
            final(self).spec_stored(key@) == Some(value),
    {
        self.manager.insert(key.clone(), value)
    }
}

} // verus!
