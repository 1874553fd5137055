//! Per-node typed context storage.
//!
//! Every node owns a context holder: a small association from container tags
//! to context values.  The container (a marker type implementing
//! `ContextContainer`) acts as the lookup token through its tag, so several
//! distinct contexts may share one value type while remaining distinct.

use vstd::prelude::*;

verus! {

/// A marker type that names a context slot.  The tag plays the role of the
/// container's type identity: two containers with the same tag name the
/// same slot.
pub trait ContextContainer {
    /// The tag identifying this container.
    fn container_tag() -> u64;
}

/// First-match lookup in an association sequence, starting at index `i`.
pub open(crate) spec fn spec_lookup_from<I>(s: Seq<(u64, I)>, i: int, tag: u64) -> Option<I>
    decreases s.len() - i,
{
    if i < 0 || i >= s.len() {
        None
    } else if s[i].0 == tag {
        Some(s[i].1)
    } else {
        spec_lookup_from(s, i + 1, tag)
    }
}

/// The value an association sequence holds at a tag.
pub open(crate) spec fn spec_lookup<I>(s: Seq<(u64, I)>, tag: u64) -> Option<I> {
    spec_lookup_from(s, 0, tag)
}

/// Lookup ignores a prefix free of the tag.
proof fn lemma_lookup_skip<I>(s: Seq<(u64, I)>, i: int, tag: u64)
    requires
        0 <= i <= s.len(),
        forall|j: int| 0 <= j < i ==> (#[trigger] s[j]).0 != tag,
    ensures
        spec_lookup(s, tag) == spec_lookup_from(s, i, tag),
    decreases i,
{
    if i > 0 {
        lemma_lookup_skip(s, i - 1, tag);
        assert(spec_lookup_from(s, i - 1, tag) == spec_lookup_from(s, i, tag));
    }
}

/// Two sequences whose entries agree in their tags, and in their values
/// wherever the tag is `t`, agree in what they hold at `t`.
proof fn lemma_lookup_agree<I>(s1: Seq<(u64, I)>, s2: Seq<(u64, I)>, i: int, t: u64)
    requires
        s1.len() == s2.len(),
        0 <= i,
        forall|j: int|
            0 <= j < s1.len() ==> (#[trigger] s1[j]).0 == (#[trigger] s2[j]).0,
        forall|j: int| 0 <= j < s1.len() && (#[trigger] s1[j]).0 == t ==> s1[j].1 == s2[j].1,
    ensures
        spec_lookup_from(s1, i, t) == spec_lookup_from(s2, i, t),
    decreases s1.len() - i,
{
    if i < s1.len() {
        if s1[i].0 == t {
        } else {
            lemma_lookup_agree(s1, s2, i + 1, t);
        }
    }
}

/// A node's bag of context values: an association from container tags to
/// values, looked up first-match.
pub struct ContextHolder<I> {
    pub(crate) entries: Vec<(u64, I)>,
}

impl<I> ContextHolder<I> {
    /// What the holder associates with each tag.
    pub open(crate) spec fn spec_get(self, tag: u64) -> Option<I> {
        spec_lookup(self.entries@, tag)
    }

    /// An empty holder.
    pub(crate) fn new() -> (r: Self)
        ensures
            forall|t: u64| r.spec_get(t) is None,
    {
        let r = ContextHolder { entries: Vec::new() };
        proof {
            assert forall|t: u64| r.spec_get(t) is None by {
                assert(r.entries@.len() == 0);
            }
        }
        r
    }

    /// Looks up the value stored for a tag.
    pub(crate) fn get(&self, tag: u64) -> (r: Option<&I>)
        ensures
            match r {
                Some(v) => self.spec_get(tag) == Some(*v),
                None => self.spec_get(tag) is None,
            },
    {
        let n = self.entries.len();
        let mut i: usize = 0;
        while i < n
            invariant
                n == self.entries@.len(),
                0 <= i <= n,
                forall|j: int| 0 <= j < i ==> (#[trigger] self.entries@[j]).0 != tag,
            decreases n - i,
        {
            if self.entries[i].0 == tag {
                proof {
                    lemma_lookup_skip(self.entries@, i as int, tag);
                }
                return Some(&self.entries[i].1);
            }
            i = i + 1;
        }
        proof {
            lemma_lookup_skip(self.entries@, n as int, tag);
        }
        None
    }

    /// Inserts or replaces the value stored for a tag, returning the value
    /// previously stored, if any.
    pub(crate) fn set(&mut self, tag: u64, value: I) -> (r: Option<I>)
        ensures
            final(self).spec_get(tag) == Some(value),
            forall|t: u64| t != tag ==> #[trigger] final(self).spec_get(t) == old(self).spec_get(t),
            r == old(self).spec_get(tag),
    {
        let n = self.entries.len();
        let mut i: usize = 0;
        while i < n
            invariant
                n == self.entries@.len(),
                0 <= i <= n,
                self.entries@ == old(self).entries@,
                forall|j: int| 0 <= j < i ==> (#[trigger] self.entries@[j]).0 != tag,
            decreases n - i,
        {
            if self.entries[i].0 == tag {
                proof {
                    lemma_lookup_skip(self.entries@, i as int, tag);
                }
                let ghost old_entries = self.entries@;
                let prev = self.entries.remove(i);
                self.entries.insert(i, (tag, value));
                proof {
                    let new_entries = self.entries@;
                    assert(new_entries =~= old_entries.update(i as int, (tag, value)));
                    assert forall|j: int| 0 <= j < i implies (#[trigger] new_entries[j]).0
                        != tag by {
                        assert(new_entries[j] == old_entries[j]);
                    }
                    lemma_lookup_skip(new_entries, i as int, tag);
                    assert(spec_lookup_from(new_entries, i as int, tag) == Some(value));
                    assert forall|t: u64| t != tag implies #[trigger] spec_lookup(new_entries, t)
                        == spec_lookup(old_entries, t) by {
                        lemma_lookup_agree(old_entries, new_entries, 0, t);
                    }
                }
                return Some(prev.1);
            }
            i = i + 1;
        }
        proof {
            lemma_lookup_skip(self.entries@, n as int, tag);
        }
        let ghost old_entries = self.entries@;
        self.entries.push((tag, value));
        proof {
            let new_entries = self.entries@;
            assert forall|j: int| 0 <= j < n implies (#[trigger] new_entries[j]).0 != tag by {
        assert(new_entries[j] == old_entries[j]);
            }
            lemma_lookup_skip(new_entries, n as int, tag);
            assert(spec_lookup_from(new_entries, n as int, tag) == Some(value));
            assert forall|t: u64| t != tag implies #[trigger] spec_lookup(new_entries, t)
                == spec_lookup(old_entries, t) by {
                lemma_lookup_skip_agree_push(old_entries, new_entries, t, tag);
            }
        }
        None
    }
}

/// Appending an entry of a different tag leaves all other lookups alone.
proof fn lemma_lookup_skip_agree_push<I>(s1: Seq<(u64, I)>, s2: Seq<(u64, I)>, t: u64, tag: u64)
    requires
        s2.len() == s1.len() + 1,
        forall|j: int| 0 <= j < s1.len() ==> s2[j] == s1[j],
        s2[s1.len() as int].0 == tag,
        t != tag,
    ensures
        spec_lookup(s2, t) == spec_lookup(s1, t),
{
    lemma_lookup_push_from(s1, s2, 0, t, tag);
}

/// Induction form of `lemma_lookup_skip_agree_push`.
proof fn lemma_lookup_push_from<I>(s1: Seq<(u64, I)>, s2: Seq<(u64, I)>, i: int, t: u64, tag: u64)
    requires
        s2.len() == s1.len() + 1,
        forall|j: int| 0 <= j < s1.len() ==> s2[j] == s1[j],
        s2[s1.len() as int].0 == tag,
        t != tag,
        0 <= i,
    ensures
        spec_lookup_from(s2, i, t) == spec_lookup_from(s1, i, t),
    decreases s2.len() - i,
{
    if i < s1.len() {
        if s1[i].0 != t {
            lemma_lookup_push_from(s1, s2, i + 1, t, tag);
        }
    } else if i < s2.len() {
        assert(spec_lookup_from(s2, i + 1, t) is None);
        assert(spec_lookup_from(s1, i, t) is None);
    }
}

} // verus!
