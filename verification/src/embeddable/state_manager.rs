//! The per-node state manager: named state slots a step function and its
//! effects read and rewrite.  A slot that was never written reads as the
//! state type's default value.

use crate::typedef::{RuntimeError, WorkItemKind, WorkItemNotifier};
use vstd::prelude::*;

verus! {

/// First-match lookup in a string-keyed association sequence, starting at
/// index `i`.
pub open(crate) spec fn spec_entry_from<T>(s: Seq<(String, T)>, i: int, k: Seq<char>) -> Option<
    T,
>
    decreases s.len() - i,
{
    if i < 0 || i >= s.len() {
        None
    } else if s[i].0@ == k {
        Some(s[i].1)
    } else {
        spec_entry_from(s, i + 1, k)
    }
}

/// The value a string-keyed association sequence holds at a key.
pub open(crate) spec fn spec_entry<T>(s: Seq<(String, T)>, k: Seq<char>) -> Option<T> {
    spec_entry_from(s, 0, k)
}

/// Lookup ignores a prefix free of the key.
pub(crate) proof fn lemma_entry_skip<T>(s: Seq<(String, T)>, i: int, k: Seq<char>)
    requires
        0 <= i <= s.len(),
        forall|j: int| 0 <= j < i ==> (#[trigger] s[j]).0@ != k,
    ensures
        spec_entry(s, k) == spec_entry_from(s, i, k),
    decreases i,
{
    if i > 0 {
        lemma_entry_skip(s, i - 1, k);
        assert(spec_entry_from(s, i - 1, k) == spec_entry_from(s, i, k));
    }
}

/// Two sequences whose entries agree in their keys, and in their values
/// wherever the key is `k`, agree in what they hold at `k`.
pub(crate) proof fn lemma_entry_agree<T>(
    s1: Seq<(String, T)>,
    s2: Seq<(String, T)>,
    i: int,
    k: Seq<char>,
)
    requires
        s1.len() == s2.len(),
        0 <= i,
        forall|j: int| 0 <= j < s1.len() ==> (#[trigger] s1[j]).0@ == (#[trigger] s2[j]).0@,
        forall|j: int| 0 <= j < s1.len() && (#[trigger] s1[j]).0@ == k ==> s1[j].1 == s2[j].1,
    ensures
        spec_entry_from(s1, i, k) == spec_entry_from(s2, i, k),
    decreases s1.len() - i,
{
    if i < s1.len() {
        if s1[i].0@ == k {
        } else {
            lemma_entry_agree(s1, s2, i + 1, k);
        }
    }
}

/// Appending an entry leaves lookups of other keys alone.
pub(crate) proof fn lemma_entry_push<T>(
    s1: Seq<(String, T)>,
    s2: Seq<(String, T)>,
    i: int,
    t: Seq<char>,
    k: Seq<char>,
)
    requires
        s2.len() == s1.len() + 1,
        forall|j: int| 0 <= j < s1.len() ==> s2[j] == s1[j],
        s2[s1.len() as int].0@ == k,
        t != k,
        0 <= i,
    ensures
        spec_entry_from(s2, i, t) == spec_entry_from(s1, i, t),
    decreases s2.len() - i,
{
    if i < s1.len() {
        if s1[i].0@ != t {
            lemma_entry_push(s1, s2, i + 1, t, k);
        }
    } else if i < s2.len() {
        assert(spec_entry_from(s2, i + 1, t) is None);
        assert(spec_entry_from(s1, i, t) is None);
    }
}

/// Named state slots plus the handle used to tell the host that state
/// changed.
pub struct StateManager<T> {
    pub(crate) work_item_notifier: Option<WorkItemNotifier>,
    pub(crate) state_map: Vec<(String, T)>,
}

impl<T> StateManager<T> {
    /// The value stored under a key, if any.
    pub open(crate) spec fn spec_state(self, k: Seq<char>) -> Option<T> {
        spec_entry(self.state_map@, k)
    }

    /// An empty manager, not yet wired to a host.
    pub fn new() -> (r: StateManager<T>)
        ensures
            forall|k: Seq<char>| r.spec_state(k) is None,
    {
        let r = StateManager { work_item_notifier: None, state_map: Vec::new() };
        proof {
            assert forall|k: Seq<char>| r.spec_state(k) is None by {
                assert(r.state_map@.len() == 0);
            }
        }
        r
    }
}

impl<T: Default> StateManager<T> {

    /// Applies a read-only function to the state stored under a key; a slot
    /// never written reads as the default value, which is then stored.
    #[verifier::loop_isolation(false)]
    pub(crate) fn peek<R, F: Fn(&T) -> R>(&mut self, key: &String, peek_fn: F) -> (r: Result<
        R,
        RuntimeError,
    >)
        requires
            forall|x: &T| #[trigger] peek_fn.requires((x,)),
        ensures
            r is Ok,
            final(self).spec_state(key@) is Some,
            old(self).spec_state(key@) is Some ==> *final(self) == *old(self) && final(self).spec_state(key@) == old(self).spec_state(key@),
            old(self).spec_state(key@) is Some ==> peek_fn.ensures(
                (&old(self).spec_state(key@).unwrap(),),
                r.unwrap(),
            ),
            old(self).spec_state(key@) is None ==> peek_fn.ensures(
                (&final(self).spec_state(key@).unwrap(),),
                r.unwrap(),
            ),
            forall|t: Seq<char>|
                t != key@ ==> #[trigger] final(self).spec_state(t) == old(self).spec_state(t),
    {
        let n = self.state_map.len();
        let mut i: usize = 0;
        while i < n
            invariant
                n == self.state_map@.len(),
                self.state_map@ == old(self).state_map@,
                0 <= i <= n,
                forall|j: int| 0 <= j < i ==> (#[trigger] self.state_map@[j]).0@ != key@,
            decreases n - i,
        {
            if self.state_map[i].0 == *key {
                proof {
                    lemma_entry_skip(self.state_map@, i as int, key@);
                    assert(self.state_map@[i as int].0@ == key@);
                    assert(old(self).spec_state(key@) == Some(self.state_map@[i as int].1));
                }
                let result = peek_fn(&self.state_map[i].1);
                proof {
                    assert(peek_fn.ensures((&self.state_map@[i as int].1,), result));
                }
                return Ok(result);
            }
            i = i + 1;
        }
        proof {
            lemma_entry_skip(self.state_map@, n as int, key@);
        }
        let state = T::default();
        let result = peek_fn(&state);
        proof {
            assert(peek_fn.ensures((&state,), result));
        }
        let ghost pre_map = self.state_map@;
        self.state_map.push((key.clone(), state));
        proof {
            assert(self.state_map@[n as int].0@ == key@);
            lemma_entry_skip_after_push(pre_map, self.state_map@, key@);
            assert(self.spec_state(key@) == Some(self.state_map@[n as int].1));
        }
        Ok(result)
    }

    /// Rewrites the state stored under a key through a function from the
    /// old value to the new one; a slot never written starts from the
    /// default value.
    #[verifier::loop_isolation(false)]
    pub(crate) fn mutate<R, F: Fn(T) -> (T, R)>(&mut self, key: &String, mutate_fn: F) -> (r:
        Result<R, RuntimeError>)
        requires
            forall|x: T| #[trigger] mutate_fn.requires((x,)),
        ensures
            r is Ok,
            final(self).spec_state(key@) is Some,
            old(self).spec_state(key@) is Some ==> mutate_fn.ensures(
                (old(self).spec_state(key@).unwrap(),),
                (final(self).spec_state(key@).unwrap(), r.unwrap()),
            ),
            old(self).spec_state(key@) is None ==> exists|d: T|
                #[trigger] mutate_fn.ensures(
                    (d,),
                    (final(self).spec_state(key@).unwrap(), r.unwrap()),
                ),
            forall|t: Seq<char>|
                t != key@ ==> #[trigger] final(self).spec_state(t) == old(self).spec_state(t),
    {
        let n = self.state_map.len();
        let mut i: usize = 0;
        while i < n
            invariant
                n == self.state_map@.len(),
                self.state_map@ == old(self).state_map@,
                0 <= i <= n,
                forall|j: int| 0 <= j < i ==> (#[trigger] self.state_map@[j]).0@ != key@,
            decreases n - i,
        {
            if self.state_map[i].0 == *key {
                proof {
                    lemma_entry_skip(self.state_map@, i as int, key@);
                    assert(self.state_map@[i as int].0@ == key@);
                    assert(old(self).spec_state(key@) == Some(self.state_map@[i as int].1));
                }
                let ghost pre_map = self.state_map@;
                let entry = self.state_map.remove(i);
                let (new_state, result) = mutate_fn(entry.1);
                proof {
                    assert(entry.1 == pre_map[i as int].1);
                    assert(mutate_fn.ensures((entry.1,), (new_state, result)));
                }
                self.state_map.insert(i, (entry.0, new_state));
                proof {
                    assert(self.state_map@ =~= pre_map.update(
                        i as int,
                        (pre_map[i as int].0, new_state),
                    ));
                    assert forall|j: int|
                        0 <= j < i implies (#[trigger] self.state_map@[j]).0@ != key@ by {
                        assert(self.state_map@[j] == pre_map[j]);
                    }
                    lemma_entry_skip(self.state_map@, i as int, key@);
                    assert forall|t: Seq<char>|
                        t != key@ implies #[trigger] spec_entry(self.state_map@, t) == spec_entry(
                        pre_map,
                        t,
                    ) by {
                        lemma_entry_agree(pre_map, self.state_map@, 0, t);
                    }
                    assert(self.spec_state(key@) == Some(new_state));
                }
                self.notify_work();
                return Ok(result);
            }
            i = i + 1;
        }
        proof {
            lemma_entry_skip(self.state_map@, n as int, key@);
        }
        let dflt = T::default();
        let (new_state, result) = mutate_fn(dflt);
        proof {
            assert(mutate_fn.ensures((dflt,), (new_state, result)));
        }
        let ghost pre_map = self.state_map@;
        self.state_map.push((key.clone(), new_state));
        proof {
            assert(self.state_map@[n as int].0@ == key@);
            lemma_entry_skip_after_push(pre_map, self.state_map@, key@);
            assert(self.spec_state(key@) == Some(new_state));
            assert(self.spec_state(key@).unwrap() == new_state);
            assert(exists|d: T|
                #[trigger] mutate_fn.ensures((d,), (self.spec_state(key@).unwrap(), result)));
        }
        self.notify_work();
        Ok(result)
    }

    /// Tells the host state changed.
    pub(crate) fn notify_work(&self) {
        if let Some(work_item_sender) = &self.work_item_notifier {
            work_item_sender.notify(WorkItemKind::StepIssued, false);
        }
    }
}

/// After pushing an entry for a fresh key, that key reads the pushed value
/// and every other key reads as before.
pub(crate) proof fn lemma_entry_skip_after_push<T>(
    pre: Seq<(String, T)>,
    post: Seq<(String, T)>,
    k: Seq<char>,
)
    requires
        post.len() == pre.len() + 1,
        forall|j: int| 0 <= j < pre.len() ==> post[j] == pre[j],
        post[pre.len() as int].0@ == k,
        forall|j: int| 0 <= j < pre.len() ==> (#[trigger] pre[j]).0@ != k,
    ensures
        spec_entry(post, k) == Some(post[pre.len() as int].1),
        forall|t: Seq<char>| t != k ==> #[trigger] spec_entry(post, t) == spec_entry(pre, t),
{
    assert forall|j: int| 0 <= j < pre.len() implies (#[trigger] post[j]).0@ != k by {
        assert(post[j] == pre[j]);
    }
    lemma_entry_skip(post, pre.len() as int, k);
    assert(spec_entry_from(post, pre.len() as int, k) == Some(post[pre.len() as int].1));
    assert forall|t: Seq<char>| t != k implies #[trigger] spec_entry(post, t) == spec_entry(
        pre,
        t,
    ) by {
        lemma_entry_push(pre, post, 0, t, k);
    }
}

/// State access handed to effects and workers.
pub struct StateBridge<'a, T> {
    pub(crate) state_manager: &'a mut StateManager<T>,
}

impl<'a, T> StateBridge<'a, T> {
    /// The value the wrapped manager stores under a key.
    pub open(crate) spec fn spec_state(self, k: Seq<char>) -> Option<T> {
        self.state_manager.spec_state(k)
    }

    /// Wraps a manager.
    pub fn new(state_manager: &'a mut StateManager<T>) -> StateBridge<'a, T> {
        StateBridge { state_manager }
    }
}

impl<'a, T: Default> StateBridge<'a, T> {

    /// Applies a read-only function to the state stored under a key.
    pub fn peek<R, F: Fn(&T) -> R>(&mut self, key: &String, peek_fn: F) -> (r: Result<
        R,
        RuntimeError,
    >)
        requires
            forall|x: &T| #[trigger] peek_fn.requires((x,)),
        ensures
            r is Ok,
            final(self).spec_state(key@) is Some,
            old(self).spec_state(key@) is Some ==> peek_fn.ensures(
                (&old(self).spec_state(key@).unwrap(),),
                r.unwrap(),
            ) && final(self).spec_state(key@) == old(self).spec_state(key@),
            old(self).spec_state(key@) is None ==> peek_fn.ensures(
                (&final(self).spec_state(key@).unwrap(),),
                r.unwrap(),
            ),
            forall|t: Seq<char>|
                t != key@ ==> #[trigger] final(self).spec_state(t) == old(self).spec_state(t),
    {
        self.state_manager.peek(key, peek_fn)
    }

    /// Rewrites the state stored under a key.
    pub fn mutate<R, F: Fn(T) -> (T, R)>(&mut self, key: &String, mutate_fn: F) -> (r: Result<
        R,
        RuntimeError,
    >)
        requires
            forall|x: T| #[trigger] mutate_fn.requires((x,)),
        ensures
            r is Ok,
            final(self).spec_state(key@) is Some,
            old(self).spec_state(key@) is Some ==> mutate_fn.ensures(
                (old(self).spec_state(key@).unwrap(),),
                (final(self).spec_state(key@).unwrap(), r.unwrap()),
            ),
            old(self).spec_state(key@) is None ==> exists|d: T|
                #[trigger] mutate_fn.ensures(
                    (d,),
                    (final(self).spec_state(key@).unwrap(), r.unwrap()),
                ),
            forall|t: Seq<char>|
                t != key@ ==> #[trigger] final(self).spec_state(t) == old(self).spec_state(t),
    {
        self.state_manager.mutate(key, mutate_fn)
    }
}

} // verus!
