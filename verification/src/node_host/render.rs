//! The render engine: step, reconcile, link, unlink.
//!
//! Rendering one node proceeds in three phases.  The step phase invokes the
//! node's component with a control handle and the current input and collects
//! the child seeds it produces.  The reconcile phase matches those seeds
//! against the node's existing children, reusing a child when both its
//! sibling key and its class tag match, sprouting a fresh node otherwise,
//! and collecting the children that are no longer wanted.  The link phase
//! rewires the node's child list and the children's parent links, and the
//! unlink phase removes every unwanted child with all its descendants.

use crate::key::{Key, RawData, Seed};
use crate::node::Component;
use crate::node_host::lake::{NodeData, NodeLake};
use crate::node_host::{NodeControl, NodeControlResult};
use vstd::prelude::*;

verus! {

/// A node removed from the lake, paired with the data it held.
pub type UnlinkedPair<C> = (Key, NodeData<C>);

/// A plain copy of a key list.
pub(crate) fn copy_keys(src: &Vec<Key>) -> (r: Vec<Key>)
    ensures
        r@ == src@,
{
    let n = src.len();
    let mut out: Vec<Key> = Vec::new();
    let mut i: usize = 0;
    while i < n
        invariant
            n == src@.len(),
            0 <= i <= n,
            out@.len() == i,
            forall|j: int| 0 <= j < i ==> out@[j] == src@[j],
        decreases n - i,
    {
        out.push(src[i]);
        i = i + 1;
    }
    proof {
        assert(out@ =~= src@);
    }
    out
}

/// Whether a key list holds a key.
pub(crate) fn key_in(keys: &Vec<Key>, k: &Key) -> (r: bool)
    ensures
        r == keys@.contains(*k),
{
    let n = keys.len();
    let mut i: usize = 0;
    while i < n
        invariant
            n == keys@.len(),
            0 <= i <= n,
            forall|j: int| 0 <= j < i ==> keys@[j] != *k,
        decreases n - i,
    {
        if keys[i].id == k.id {
            proof {
                assert(keys@[i as int] == *k);
            }
            return true;
        }
        i = i + 1;
    }
    false
}

/// The index of the last seed carrying a sibling key, or a negative value
/// when no seed does.  The last seed wins lookups, mirroring how the reuse
/// map is built.
pub(crate) open spec fn last_seed_with_key<C: Component>(
    seeds: Seq<Seed<C>>,
    k: Option<Seq<char>>,
) -> int
    decreases seeds.len(),
{
    if seeds.len() == 0 {
        -1
    } else if seeds.last().spec_key() == k {
        seeds.len() - 1
    } else {
        last_seed_with_key(seeds.drop_last(), k)
    }
}

/// What `last_seed_with_key` finds: the last index with the key, if any.
pub(crate) proof fn lemma_last_seed_props<C: Component>(seeds: Seq<Seed<C>>, k: Option<Seq<char>>)
    ensures
        -1 <= last_seed_with_key(seeds, k) < seeds.len(),
        last_seed_with_key(seeds, k) >= 0 ==> seeds[last_seed_with_key(seeds, k)].spec_key() == k,
        forall|j: int|
            last_seed_with_key(seeds, k) < j < seeds.len() ==> (#[trigger] seeds[j]).spec_key()
                != k,
    decreases seeds.len(),
{
    if seeds.len() > 0 {
        if seeds.last().spec_key() == k {
        } else {
            lemma_last_seed_props(seeds.drop_last(), k);
            assert forall|j: int|
                last_seed_with_key(seeds, k) < j < seeds.len() implies (
            #[trigger] seeds[j]).spec_key() != k by {
                if j < seeds.len() - 1 {
                    assert(seeds.drop_last()[j] == seeds[j]);
                }
            }
            if last_seed_with_key(seeds, k) >= 0 {
                assert(seeds.drop_last()[last_seed_with_key(seeds, k)] == seeds[last_seed_with_key(
                    seeds,
                    k,
                )]);
            }
        }
    }
}

/// Whether some seed would reuse a child with this identity: the last seed
/// carrying the sibling key must exist and carry the class tag too.
pub(crate) open spec fn spec_matched<C: Component>(
    seeds: Seq<Seed<C>>,
    k: Option<Seq<char>>,
    tag: u64,
) -> bool {
    let li = last_seed_with_key(seeds, k);
    li >= 0 && seeds[li].spec_tag() == tag
}

/// Whether some seed would reuse this child: the last produced seed with
/// the child's sibling key, if any, must also carry the child's class tag.
/// A child for which this fails is set aside as unused.
#[verifier::loop_isolation(false)]
pub(crate) fn child_has_matching_seed<C: Component>(
    lake: &NodeLake<C>,
    child: &Key,
    new_seeds: &Vec<Seed<C>>,
) -> (r: bool)
    requires
        lake.contains(*child),
    ensures
        r == spec_matched(new_seeds@, lake.key_of(*child), lake.tag_of(*child)),
{
    proof {
        lemma_last_seed_props(new_seeds@, lake.key_of(*child));
    }
    let ghost li = last_seed_with_key(new_seeds@, lake.key_of(*child));
    let n = new_seeds.len();
    let mut i: usize = n;
    while i > 0
        invariant
            0 <= i <= n,
            forall|j: int|
                i <= j < n ==> (#[trigger] new_seeds@[j]).spec_key() != lake.key_of(*child),
        decreases i,
    {
        i = i - 1;
        if lake.key_matches(child, &new_seeds[i].key.key) {
            proof {
                assert(new_seeds@[i as int].spec_key() == lake.key_of(*child));
                assert(li >= i as int);
                assert(li <= i as int);
            }
            return lake.read_tag(child) == new_seeds[i].key.type_tag;
        }
    }
    proof {
        if li >= 0 {
            assert(new_seeds@[li].spec_key() == lake.key_of(*child));
            assert(false);
        }
    }
    false
}

/// No two live children in the list carry the same sibling key.
pub(crate) open spec fn children_keys_distinct<C: Component>(
    lake: NodeLake<C>,
    kids: Seq<Key>,
) -> bool {
    forall|i1: int, i2: int|
        #![trigger kids[i1], kids[i2]]
        0 <= i1 < i2 < kids.len() && lake.contains(kids[i1]) && lake.contains(kids[i2])
            ==> lake.key_of(kids[i1]) != lake.key_of(kids[i2])
}

/// No two seeds carry the same sibling key.
pub(crate) open spec fn seeds_keys_distinct<C: Component>(seeds: Seq<Seed<C>>) -> bool {
    forall|i1: int, i2: int|
        #![trigger seeds[i1], seeds[i2]]
        0 <= i1 < i2 < seeds.len() ==> seeds[i1].spec_key() != seeds[i2].spec_key()
}

/// Every node's child list is free of duplicate sibling keys among its
/// live entries.  This holds as long as no component ever produced two
/// sibling seeds with the same key.
pub open(crate) spec fn children_tidy<C: Component>(lake: NodeLake<C>) -> bool {
    forall|p: Key|
        lake.contains(p) ==> children_keys_distinct(lake, #[trigger] lake.children_of(p))
}

/// Puts a child under its sibling key into the reuse map, replacing any
/// entry with the same key, so that the last child with a key wins.
#[verifier::loop_isolation(false)]
pub(crate) fn avail_put(avail: &mut Vec<(Option<String>, Key)>, ks: Option<String>, c: Key)
    requires
        forall|e1: int, e2: int|
            #![trigger old(avail)@[e1], old(avail)@[e2]]
            0 <= e1 < e2 < old(avail)@.len() ==> crate::key::spec_key_string(old(avail)@[e1].0)
                != crate::key::spec_key_string(old(avail)@[e2].0),
    ensures
        forall|i: int|
            0 <= i < final(avail)@.len() ==> old(avail)@.contains(#[trigger] final(avail)@[i]) || (
            crate::key::spec_key_string(final(avail)@[i].0) == crate::key::spec_key_string(ks)
                && final(avail)@[i].1 == c),
        forall|e1: int, e2: int|
            #![trigger final(avail)@[e1], final(avail)@[e2]]
            0 <= e1 < e2 < final(avail)@.len() ==> crate::key::spec_key_string(
                final(avail)@[e1].0,
            ) != crate::key::spec_key_string(final(avail)@[e2].0),
        exists|e: int|
            0 <= e < final(avail)@.len() && (#[trigger] final(avail)@[e]).1 == c
                && crate::key::spec_key_string(final(avail)@[e].0) == crate::key::spec_key_string(
                ks,
            ),
        forall|j: int|
            0 <= j < old(avail)@.len() && crate::key::spec_key_string((#[trigger] old(avail)@[j]).0)
                != crate::key::spec_key_string(ks) ==> exists|e: int|
                0 <= e < final(avail)@.len() && #[trigger] final(avail)@[e] == old(avail)@[j],
{
    let n = avail.len();
    let mut i: usize = 0;
    while i < n
        invariant
            n == avail@.len(),
            0 <= i <= n,
            avail@ == old(avail)@,
            forall|j: int|
                0 <= j < i ==> crate::key::spec_key_string((#[trigger] avail@[j]).0)
                    != crate::key::spec_key_string(ks),
        decreases n - i,
    {
        if crate::key::key_string_eq(&avail[i].0, &ks) {
            let _ = avail.remove(i);
            avail.insert(i, (ks, c));
            proof {
                assert(avail@ =~= old(avail)@.update(i as int, (ks, c)));
                assert(avail@[i as int] == (ks, c));
                assert forall|ii: int| #![trigger avail@[ii]]
                    0 <= ii < avail@.len() && ii != i implies old(avail)@.contains(avail@[ii]) by {
                    assert(avail@[ii] == old(avail)@[ii]);
                }
                assert forall|ei: int|
                    0 <= ei < avail@.len() implies crate::key::spec_key_string(
                    (#[trigger] avail@[ei]).0,
                ) == crate::key::spec_key_string(old(avail)@[ei].0) by {
                    if ei != i {
                        assert(avail@[ei] == old(avail)@[ei]);
                    }
                }
                assert forall|e1: int, e2: int|
                    #![trigger avail@[e1], avail@[e2]]
                    0 <= e1 < e2 < avail@.len() implies crate::key::spec_key_string(avail@[e1].0)
                    != crate::key::spec_key_string(avail@[e2].0) by {
                    assert(crate::key::spec_key_string(old(avail)@[e1].0)
                        != crate::key::spec_key_string(old(avail)@[e2].0));
                    assert(crate::key::spec_key_string(avail@[e1].0)
                        == crate::key::spec_key_string(old(avail)@[e1].0));
                    assert(crate::key::spec_key_string(avail@[e2].0)
                        == crate::key::spec_key_string(old(avail)@[e2].0));
                }
            }
            proof {
                assert forall|j: int|
                    0 <= j < old(avail)@.len() && crate::key::spec_key_string(
                        (#[trigger] old(avail)@[j]).0,
                    ) != crate::key::spec_key_string(ks) implies exists|e: int|
                        0 <= e < avail@.len() && #[trigger] avail@[e] == old(avail)@[j] by {
                    assert(j != i);
                    assert(avail@[j] == old(avail)@[j]);
                }
            }
            return ;
        }
        i = i + 1;
    }
    avail.push((ks, c));
    proof {
        assert(avail@[n as int] == (ks, c));
        assert forall|ii: int| #![trigger avail@[ii]]
            0 <= ii < avail@.len() && ii != n implies old(avail)@.contains(avail@[ii]) by {
            assert(avail@[ii] == old(avail)@[ii]);
        }
        assert forall|e1: int, e2: int|
            #![trigger avail@[e1], avail@[e2]]
            0 <= e1 < e2 < avail@.len() implies crate::key::spec_key_string(avail@[e1].0)
            != crate::key::spec_key_string(avail@[e2].0) by {
            if e2 < n {
                assert(avail@[e1] == old(avail)@[e1]);
                assert(avail@[e2] == old(avail)@[e2]);
            } else {
                assert(avail@[e1] == old(avail)@[e1]);
            }
        }
        assert forall|j: int|
            0 <= j < old(avail)@.len() && crate::key::spec_key_string(
                (#[trigger] old(avail)@[j]).0,
            ) != crate::key::spec_key_string(ks) implies exists|e: int|
                0 <= e < avail@.len() && #[trigger] avail@[e] == old(avail)@[j] by {
            assert(avail@[j] == old(avail)@[j]);
        }
    }
}

/// Takes the child stored under a sibling key out of the reuse map, if any:
/// each key can be reused at most once.
#[verifier::loop_isolation(false)]
pub(crate) fn avail_remove(avail: &mut Vec<(Option<String>, Key)>, q: &Option<String>) -> (r:
    Option<Key>)
    ensures
        r matches Some(c) ==> exists|j: int|
            0 <= j < old(avail)@.len() && (#[trigger] old(avail)@[j]).1 == c
                && crate::key::spec_key_string(old(avail)@[j].0) == crate::key::spec_key_string(*q)
                && final(avail)@ == old(avail)@.remove(j),
        r is None ==> final(avail)@ == old(avail)@ && forall|j: int|
            0 <= j < old(avail)@.len() ==> crate::key::spec_key_string(
                (#[trigger] old(avail)@[j]).0,
            ) != crate::key::spec_key_string(*q),
{
    let n = avail.len();
    let mut i: usize = 0;
    while i < n
        invariant
            n == avail@.len(),
            0 <= i <= n,
            avail@ == old(avail)@,
            forall|j: int|
                0 <= j < i ==> crate::key::spec_key_string((#[trigger] avail@[j]).0)
                    != crate::key::spec_key_string(*q),
        decreases n - i,
    {
        if crate::key::key_string_eq(&avail[i].0, q) {
            let e = avail.remove(i);
            proof {
                assert(old(avail)@[i as int].1 == e.1);
            }
            return Some(e.1);
        }
        i = i + 1;
    }
    None
}

/// Everything a child list's reuse map may say about its entries, relative
/// to the lake before reconciliation: each entry is a still-present child
/// of the rendered node, stored under its own sibling key.
pub(crate) open spec fn avail_ok<C: Component>(
    entries: Seq<(Option<String>, Key)>,
    pre: NodeLake<C>,
    node_key: Key,
) -> bool {
    forall|e: int|
        0 <= e < entries.len() ==> pre.children_of(node_key).contains((#[trigger] entries[e]).1)
            && pre.contains(entries[e].1) && pre.parent_of(entries[e].1) == Some(node_key)
            && pre.key_of(entries[e].1) == crate::key::spec_key_string(entries[e].0)
}

/// Entries of the reuse map point at pairwise distinct children.
pub(crate) open spec fn avail_distinct(entries: Seq<(Option<String>, Key)>) -> bool {
    forall|e1: int, e2: int|
        #![trigger entries[e1], entries[e2]]
        0 <= e1 < e2 < entries.len() ==> entries[e1].1 != entries[e2].1
}

/// Removing an entry keeps the reuse map's entries pairwise distinct in
/// values and in keys, and no surviving entry points at the removed
/// entry's child or carries its key.
proof fn lemma_avail_remove_distinct(s: Seq<(Option<String>, Key)>, j0: int)
    requires
        0 <= j0 < s.len(),
        avail_distinct(s),
        forall|e1: int, e2: int|
            #![trigger s[e1], s[e2]]
            0 <= e1 < e2 < s.len() ==> crate::key::spec_key_string(s[e1].0)
                != crate::key::spec_key_string(s[e2].0),
    ensures
        avail_distinct(s.remove(j0)),
        forall|e: int|
            0 <= e < s.remove(j0).len() ==> (#[trigger] s.remove(j0)[e]).1 != s[j0].1,
        forall|e: int|
            0 <= e < s.remove(j0).len() ==> crate::key::spec_key_string(
                (#[trigger] s.remove(j0)[e]).0,
            ) != crate::key::spec_key_string(s[j0].0),
        forall|e: int| 0 <= e < s.remove(j0).len() ==> s.contains(#[trigger] s.remove(j0)[e]),
        forall|e1: int, e2: int|
            #![trigger s.remove(j0)[e1], s.remove(j0)[e2]]
            0 <= e1 < e2 < s.remove(j0).len() ==> crate::key::spec_key_string(s.remove(j0)[e1].0)
                != crate::key::spec_key_string(s.remove(j0)[e2].0),
        forall|j: int|
            #![trigger s[j]]
            0 <= j < s.len() && j != j0 ==> s.remove(j0).contains(s[j]),
{
    let t = s.remove(j0);
    assert forall|e1: int, e2: int|
        #![trigger t[e1], t[e2]]
        0 <= e1 < e2 < t.len() implies t[e1].1 != t[e2].1 by {
        assert(t[e1] == if e1 < j0 {
            s[e1]
        } else {
            s[e1 + 1]
        });
        assert(t[e2] == if e2 < j0 {
            s[e2]
        } else {
            s[e2 + 1]
        });
    }
    assert forall|e: int| 0 <= e < t.len() implies (#[trigger] t[e]).1 != s[j0].1 by {
        assert(t[e] == if e < j0 {
            s[e]
        } else {
            s[e + 1]
        });
    }
    assert forall|e: int| 0 <= e < t.len() implies s.contains(#[trigger] t[e]) by {
        assert(t[e] == if e < j0 {
            s[e]
        } else {
            s[e + 1]
        });
    }
    assert forall|e: int|
        0 <= e < t.len() implies crate::key::spec_key_string((#[trigger] t[e]).0)
        != crate::key::spec_key_string(s[j0].0) by {
        assert(t[e] == if e < j0 {
            s[e]
        } else {
            s[e + 1]
        });
    }
    assert forall|e1: int, e2: int|
        #![trigger t[e1], t[e2]]
        0 <= e1 < e2 < t.len() implies crate::key::spec_key_string(t[e1].0)
        != crate::key::spec_key_string(t[e2].0) by {
        assert(t[e1] == if e1 < j0 {
            s[e1]
        } else {
            s[e1 + 1]
        });
        assert(t[e2] == if e2 < j0 {
            s[e2]
        } else {
            s[e2 + 1]
        });
    }
    assert forall|j: int| #![trigger s[j]] 0 <= j < s.len() && j != j0 implies s.remove(
        j0,
    ).contains(s[j]) by {
        if j < j0 {
            assert(s.remove(j0)[j] == s[j]);
        } else {
            assert(s.remove(j0)[j - 1] == s[j]);
        }
    }
}

/// Tries to merge a seed into an existing node: the merge succeeds exactly
/// when the node is still in the lake and its class tag equals the seed's,
/// and then only replaces the node's input, keeping its component state.  On
/// failure the seed is handed back untouched.
pub(crate) fn merge_seed_to_nodekey<C: Component>(
    lake: &mut NodeLake<C>,
    new_seed: Seed<C>,
    node_key: &Key,
) -> (r: Result<(), Seed<C>>)
    requires
        old(lake).wf_core(),
        old(lake).data_ok(),
    ensures
        final(lake).wf_core(),
        final(lake).data_ok(),
        r is Ok <==> old(lake).contains(*node_key) && old(lake).tag_of(*node_key)
            == new_seed.spec_tag(),
        r matches Err(s) ==> s == new_seed && *final(lake) == *old(lake),
        r is Ok ==> NodeLake::same_but(*old(lake), *final(lake), *node_key),
        r is Ok ==> final(lake).tag_of(*node_key) == old(lake).tag_of(*node_key),
        r is Ok ==> final(lake).key_of(*node_key) == old(lake).key_of(*node_key),
        r is Ok ==> final(lake).self_render_of(*node_key) == old(lake).self_render_of(*node_key),
        r is Ok ==> final(lake).spec_node(*node_key).relations == old(lake).spec_node(
            *node_key,
        ).relations,
        r is Ok ==> final(lake).spec_node(*node_key).context == old(lake).spec_node(
            *node_key,
        ).context,
        r is Ok ==> final(lake).has_data(*node_key),
        r is Ok ==> final(lake).input_of(*node_key) == new_seed.spec_input(),
        r is Ok ==> final(lake).state_of(*node_key) == old(lake).state_of(*node_key),
        final(lake).population() == old(lake).population(),
{
    if !lake.contains_key(node_key) {
        return Err(new_seed);
    }
    if lake.read_tag(node_key) != new_seed.key.type_tag {
        return Err(new_seed);
    }
    let Seed { key: _, data: seed_data } = new_seed;
    lake.replace_input(node_key, seed_data.input);
    proof {
        NodeLake::lemma_wf_core_same_relations(*old(lake), *lake);
        assert forall|j: Key| lake.contains(j) implies #[trigger] lake.has_data(j) by {
            assert(old(lake).has_data(j));
            if j != *node_key {
                assert(lake.spec_node(j) == old(lake).spec_node(j));
            }
        }
    }
    Ok(())
}

/// Rewires the rendered node's child list to the reconciled children, in
/// seed order, and points every child's parent link at the node.
#[verifier::loop_isolation(false)]
pub(crate) fn link_children_to_lake<C: Component>(
    lake: &mut NodeLake<C>,
    node_key: &Key,
    new_nodes: &Vec<Key>,
)
    requires
        old(lake).wf_core(),
        old(lake).data_ok(),
        old(lake).contains(*node_key),
        forall|i: int|
            0 <= i < new_nodes@.len() ==> old(lake).contains(#[trigger] new_nodes@[i])
                && node_key.sid() < new_nodes@[i].sid(),
        forall|i: int|
            0 <= i < new_nodes@.len() ==> (old(lake).parent_of(#[trigger] new_nodes@[i]) is None
                || old(lake).parent_of(new_nodes@[i]) == Some(*node_key)),
        forall|i1: int, i2: int|
            0 <= i1 < i2 < new_nodes@.len() ==> #[trigger] new_nodes@[i1] != #[trigger] new_nodes@[i2],
        forall|p: Key, ci: int, i: int|
            old(lake).contains(p) && p != *node_key && 0 <= ci < old(lake).children_of(p).len()
                && 0 <= i < new_nodes@.len() && old(lake).contains(
                #[trigger] old(lake).children_of(p)[ci],
            ) ==> old(lake).children_of(p)[ci] != #[trigger] new_nodes@[i],
    ensures
        final(lake).wf_core(),
        final(lake).data_ok(),
        final(lake).cap() == old(lake).cap(),
        forall|j: Key| #[trigger] final(lake).contains(j) == old(lake).contains(j),
        final(lake).children_of(*node_key) == new_nodes@,
        final(lake).parent_of(*node_key) == old(lake).parent_of(*node_key),
        forall|i: int|
            0 <= i < new_nodes@.len() ==> final(lake).parent_of(#[trigger] new_nodes@[i]) == Some(
                *node_key,
            ),
        forall|j: Key|
            old(lake).contains(j) && j != *node_key && !new_nodes@.contains(j)
                ==> #[trigger] final(lake).spec_node(j) == old(lake).spec_node(j),
        forall|j: Key|
            old(lake).contains(j) ==> #[trigger] final(lake).tag_of(j) == old(lake).tag_of(j)
                && final(lake).key_of(j) == old(lake).key_of(j) && final(lake).spec_node(j).data
                == old(lake).spec_node(j).data && final(lake).spec_node(j).context == old(lake).spec_node(j).context && final(lake).self_render_of(j) == old(lake).self_render_of(j),
        forall|j: Key|
            old(lake).contains(j) && j != *node_key ==> #[trigger] final(lake).children_of(j)
                == old(lake).children_of(j),
        final(lake).population() == old(lake).population(),
    decreases new_nodes@.len(),
{
    let children = copy_keys(new_nodes);
    lake.set_children(node_key, children);
    let n = new_nodes.len();
    let mut i: usize = 0;
    while i < n
        invariant
            n == new_nodes@.len(),
            0 <= i <= n,
            lake.cap() == old(lake).cap(),
            lake.contains(*node_key),
            forall|j: Key| #[trigger] lake.contains(j) == old(lake).contains(j),
            lake.children_of(*node_key) == new_nodes@,
            lake.parent_of(*node_key) == old(lake).parent_of(*node_key),
            forall|idx: int|
                0 <= idx < new_nodes@.len() ==> old(lake).contains(#[trigger] new_nodes@[idx])
                    && node_key.sid() < new_nodes@[idx].sid(),
            forall|i1: int, i2: int|
                0 <= i1 < i2 < new_nodes@.len() ==> #[trigger] new_nodes@[i1]
                    != #[trigger] new_nodes@[i2],
            forall|idx: int|
                0 <= idx < i ==> lake.parent_of(#[trigger] new_nodes@[idx]) == Some(*node_key),
            forall|idx: int|
                i <= idx < n && new_nodes@[idx] != *node_key ==> lake.parent_of(
                    #[trigger] new_nodes@[idx],
                ) == old(lake).parent_of(new_nodes@[idx]),
            forall|j: Key|
                old(lake).contains(j) && j != *node_key && !new_nodes@.contains(j)
                    ==> #[trigger] lake.spec_node(j) == old(lake).spec_node(j),
            forall|j: Key|
                old(lake).contains(j) ==> #[trigger] lake.tag_of(j) == old(lake).tag_of(j)
                    && lake.key_of(j) == old(lake).key_of(j) && lake.spec_node(j).data == old(lake).spec_node(j).data && lake.spec_node(j).context == old(lake).spec_node(j).context
                    && lake.self_render_of(j) == old(lake).self_render_of(j),
            forall|j: Key|
                old(lake).contains(j) && j != *node_key ==> #[trigger] lake.children_of(j) == old(lake).children_of(j),
            lake.population() == old(lake).population(),
        decreases n - i,
    {
        let child = new_nodes[i];
        proof {
            assert(new_nodes@[i as int] != *node_key);
        }
        let ghost lpre = *lake;
        lake.set_parent(&child, node_key);
        proof {
            assert forall|j: Key| old(lake).contains(j) implies #[trigger] lake.tag_of(j) == old(lake).tag_of(j) && lake.key_of(j) == old(lake).key_of(j) && lake.spec_node(j).data == old(lake).spec_node(j).data && lake.spec_node(j).context == old(lake).spec_node(j).context
                && lake.self_render_of(j) == old(lake).self_render_of(j) by {
                assert(lpre.tag_of(j) == old(lake).tag_of(j));
                assert(lpre.key_of(j) == old(lake).key_of(j));
                assert(lpre.spec_node(j).data == old(lake).spec_node(j).data);
                assert(lpre.spec_node(j).context == old(lake).spec_node(j).context);
                assert(lpre.self_render_of(j) == old(lake).self_render_of(j));
                if j != child {
                    assert(lake.spec_node(j) == lpre.spec_node(j));
                }
            }
            assert forall|j: Key|
                old(lake).contains(j) && j != *node_key implies #[trigger] lake.children_of(j)
                == old(lake).children_of(j) by {
                assert(lpre.children_of(j) == old(lake).children_of(j));
                if j != child {
                    assert(lake.spec_node(j) == lpre.spec_node(j));
                } else {
                    assert(lake.children_of(j) == lpre.children_of(j));
                }
            }
            assert forall|j: Key|
                old(lake).contains(j) && j != *node_key && !new_nodes@.contains(j)
                implies #[trigger] lake.spec_node(j) == old(lake).spec_node(j) by {
                assert(lpre.spec_node(j) == old(lake).spec_node(j));
                assert(new_nodes@[i as int] == child);
                assert(new_nodes@.contains(child));
                assert(j != child);
                assert(lake.spec_node(j) == lpre.spec_node(j));
            }
        }
        i = i + 1;
    }
    proof {
        assert forall|j: Key|
            old(lake).contains(j) implies (#[trigger] lake.spec_node(j)).data == old(lake).spec_node(j).data by {
            assert(lake.tag_of(j) == old(lake).tag_of(j));
        }
        lemma_link_wf(*old(lake), *lake, *node_key, new_nodes@);
    }
}

/// Reconciles the seeds a step produced against the rendered node's
/// existing children.
///
/// Every produced seed yields exactly one child key, in seed order: the
/// previous child with the seed's sibling key is reused when its class tag
/// matches the seed's (it then receives the seed's input and keeps its
/// component state), and a fresh node is sprouted from the seed otherwise.
/// When several seeds share one key, the first of them wins the reuse and
/// every later one sprouts a fresh node.  Fresh nodes come up with their
/// self-render signal installed, targeting their own key.  Children that
/// match no seed, and replaced children, are returned as the unused set;
/// the caller unlinks them.  Reconciliation itself never removes a node
/// and never touches any node's relations: linking and unlinking happen
/// afterwards.
#[verifier::loop_isolation(false)]
#[verifier::rlimit(100)]
pub(crate) fn reconcile<C: Component>(
    lake: &mut NodeLake<C>,
    sender: &crossbeam::channel::Sender<Key>,
    node_key: &Key,
    new_seeds: Vec<Seed<C>>,
) -> (r: (Vec<Key>, Vec<Key>))
    requires
        old(lake).wf_core(),
        old(lake).data_ok(),
        old(lake).contains(*node_key),
    ensures
        final(lake).wf_core(),
        final(lake).data_ok(),
        final(lake).contains(*node_key),
        NodeLake::grows(*old(lake), *final(lake)),
        NodeLake::keeps_shell(*old(lake), *final(lake)),
        NodeLake::fresh_clean(*old(lake), *final(lake)),
        forall|j: Key|
            old(lake).contains(j) && !r.0@.contains(j) ==> #[trigger] final(lake).spec_node(j)
                == old(lake).spec_node(j),
        r.0@.len() == new_seeds@.len(),
        forall|i: int|
            0 <= i < r.0@.len() ==> final(lake).contains(#[trigger] r.0@[i]) && final(lake).tag_of(r.0@[i]) == new_seeds@[i].spec_tag() && final(lake).key_of(r.0@[i])
                == new_seeds@[i].spec_key() && final(lake).input_of(r.0@[i])
                == new_seeds@[i].spec_input() && node_key.sid() < r.0@[i].sid(),
        forall|i: int|
            0 <= i < r.0@.len() ==> (old(lake).children_of(*node_key).contains(#[trigger] r.0@[i])
                && old(lake).contains(r.0@[i]) && old(lake).parent_of(r.0@[i]) == Some(*node_key))
                || r.0@[i].sid() >= old(lake).cap(),
        forall|i1: int, i2: int|
            #![trigger r.0@[i1], r.0@[i2]]
            0 <= i1 < i2 < r.0@.len() ==> r.0@[i1] != r.0@[i2],
        forall|i: int|
            0 <= i < r.0@.len() && (#[trigger] r.0@[i]).sid() >= old(lake).cap()
                && new_seeds@[i].spec_signal_target() is None ==> final(lake).self_render_of(
                r.0@[i],
            ).spec_target() == Some(r.0@[i]),
        forall|i: int, j: int|
            #![trigger r.0@[i], new_seeds@[j]]
            0 <= j < i < r.0@.len() && new_seeds@[j].spec_key() == new_seeds@[i].spec_key()
                ==> r.0@[i].sid() >= old(lake).cap(),
        children_keys_distinct(*old(lake), old(lake).children_of(*node_key)) ==> forall|
            i: int,
            ci: int,
        |
            #![trigger r.0@[i], old(lake).children_of(*node_key)[ci]]
            0 <= i < r.0@.len() && (forall|j: int|
                0 <= j < i ==> (#[trigger] new_seeds@[j]).spec_key() != new_seeds@[i].spec_key())
                && 0 <= ci < old(lake).children_of(*node_key).len() && old(lake).contains(
                old(lake).children_of(*node_key)[ci],
            ) && old(lake).key_of(old(lake).children_of(*node_key)[ci])
                == new_seeds@[i].spec_key() && old(lake).tag_of(
                old(lake).children_of(*node_key)[ci],
            ) == new_seeds@[i].spec_tag() ==> r.0@[i] == old(lake).children_of(*node_key)[ci],
        children_keys_distinct(*old(lake), old(lake).children_of(*node_key)) ==> forall|
            u: int,
            i: int,
        |
            #![trigger r.1@[u], new_seeds@[i]]
            0 <= u < r.1@.len() && 0 <= i < new_seeds@.len() && (forall|j: int|
                0 <= j < i ==> (#[trigger] new_seeds@[j]).spec_key() != new_seeds@[i].spec_key())
                && old(lake).key_of(r.1@[u]) == new_seeds@[i].spec_key() && old(lake).tag_of(
                r.1@[u],
            ) == new_seeds@[i].spec_tag() && spec_matched(
                new_seeds@,
                old(lake).key_of(r.1@[u]),
                old(lake).tag_of(r.1@[u]),
            ) ==> false,
        forall|u: int|
            0 <= u < r.1@.len() ==> old(lake).children_of(*node_key).contains(#[trigger] r.1@[u])
                && old(lake).contains(r.1@[u]) && old(lake).parent_of(r.1@[u]) == Some(*node_key),
        forall|ci: int|
            0 <= ci < old(lake).children_of(*node_key).len() && old(lake).contains(
                #[trigger] old(lake).children_of(*node_key)[ci],
            ) && !spec_matched(
                new_seeds@,
                old(lake).key_of(old(lake).children_of(*node_key)[ci]),
                old(lake).tag_of(old(lake).children_of(*node_key)[ci]),
            ) ==> r.1@.contains(old(lake).children_of(*node_key)[ci]),
        children_keys_distinct(*old(lake), old(lake).children_of(*node_key))
            && seeds_keys_distinct(new_seeds@) ==> forall|ci: int|
            0 <= ci < old(lake).children_of(*node_key).len() && old(lake).contains(
                #[trigger] old(lake).children_of(*node_key)[ci],
            ) ==> r.0@.contains(old(lake).children_of(*node_key)[ci]) || r.1@.contains(
                old(lake).children_of(*node_key)[ci],
            ),
        children_keys_distinct(*old(lake), old(lake).children_of(*node_key))
            && seeds_keys_distinct(new_seeds@) ==> forall|ci: int|
            0 <= ci < old(lake).children_of(*node_key).len() && old(lake).contains(
                #[trigger] old(lake).children_of(*node_key)[ci],
            ) && spec_matched(
                new_seeds@,
                old(lake).key_of(old(lake).children_of(*node_key)[ci]),
                old(lake).tag_of(old(lake).children_of(*node_key)[ci]),
            ) ==> 0 <= last_seed_with_key(
                new_seeds@,
                old(lake).key_of(old(lake).children_of(*node_key)[ci]),
            ) < r.0@.len() && r.0@[last_seed_with_key(
                new_seeds@,
                old(lake).key_of(old(lake).children_of(*node_key)[ci]),
            )] == old(lake).children_of(*node_key)[ci],
        children_keys_distinct(*old(lake), old(lake).children_of(*node_key))
            && seeds_keys_distinct(new_seeds@) ==> forall|u: int, i: int|
            0 <= u < r.1@.len() && 0 <= i < r.0@.len() ==> #[trigger] r.1@[u] != #[trigger] r.0@[i],
{
    let children = lake.children_snapshot(node_key);
    let n_children = children.len();

    // Set aside the children no seed wants to keep.
    let mut unused_node_keys: Vec<Key> = Vec::new();
    let mut ci: usize = 0;
    while ci < n_children
        invariant
            n_children == children@.len(),
            0 <= ci <= n_children,
            forall|u: int|
                0 <= u < unused_node_keys@.len() ==> old(lake).children_of(*node_key).contains(
                    #[trigger] unused_node_keys@[u],
                ) && old(lake).contains(unused_node_keys@[u]) && old(lake).parent_of(
                    unused_node_keys@[u],
                ) == Some(*node_key),
            forall|u: int|
                0 <= u < unused_node_keys@.len() ==> !spec_matched(
                    new_seeds@,
                    old(lake).key_of(#[trigger] unused_node_keys@[u]),
                    old(lake).tag_of(unused_node_keys@[u]),
                ),
            forall|cj: int|
                0 <= cj < ci && old(lake).contains(#[trigger] children@[cj]) && !spec_matched(
                    new_seeds@,
                    old(lake).key_of(children@[cj]),
                    old(lake).tag_of(children@[cj]),
                ) ==> unused_node_keys@.contains(children@[cj]),
        decreases n_children - ci,
    {
        let child = children[ci];
        let ghost unused_pre = unused_node_keys@;
        if lake.contains_key(&child) {
            if !child_has_matching_seed(lake, &child, &new_seeds) {
                if !key_in(&unused_node_keys, &child) {
                    proof {
                        assert(old(lake).children_of(*node_key)[ci as int] == child);
                        assert(old(lake).children_of(*node_key).contains(child));
                        assert(old(lake).parent_of(child) == Some(*node_key));
                    }
                    unused_node_keys.push(child);
                    proof {
                        assert(unused_node_keys@.last() == child);
                        assert(unused_node_keys@.contains(child));
                        assert forall|cj: int|
                            0 <= cj < ci + 1 && old(lake).contains(#[trigger] children@[cj])
                                && !spec_matched(
                                new_seeds@,
                                old(lake).key_of(children@[cj]),
                                old(lake).tag_of(children@[cj]),
                            ) implies unused_node_keys@.contains(children@[cj]) by {
                            if cj < ci {
                                assert(unused_pre.contains(children@[cj]));
                                let w = choose|w: int|
                                    0 <= w < unused_pre.len() && unused_pre[w] == children@[cj];
                                assert(unused_node_keys@[w] == children@[cj]);
                            }
                        }
                    }
                } else {
                    proof {
                        assert(unused_node_keys@.contains(child));
                    }
                }
            }
        }
        ci = ci + 1;
    }

    // Build the reuse map: the last still-present child with a sibling key
    // is the one a seed with that key may take over.
    let ghost kd = children_keys_distinct(*old(lake), children@);
    let mut avail: Vec<(Option<String>, Key)> = Vec::new();
    let mut ci2: usize = 0;
    while ci2 < n_children
        invariant
            n_children == children@.len(),
            0 <= ci2 <= n_children,
            avail_ok(avail@, *old(lake), *node_key),
            forall|e1: int, e2: int|
                #![trigger avail@[e1], avail@[e2]]
                0 <= e1 < e2 < avail@.len() ==> crate::key::spec_key_string(avail@[e1].0)
                    != crate::key::spec_key_string(avail@[e2].0),
            kd ==> forall|cj: int|
                0 <= cj < ci2 && old(lake).contains(#[trigger] children@[cj]) ==> exists|e: int|
                    0 <= e < avail@.len() && (#[trigger] avail@[e]).1 == children@[cj],
        decreases n_children - ci2,
    {
        let child = children[ci2];
        if lake.contains_key(&child) {
            let ks = lake.key_clone(&child);
            proof {
                assert(old(lake).children_of(*node_key)[ci2 as int] == child);
                assert(old(lake).children_of(*node_key).contains(child));
                assert(old(lake).parent_of(child) == Some(*node_key));
            }
            let ghost avail_pre = avail@;
            avail_put(&mut avail, ks, child);
            proof {
                if kd {
                    assert forall|cj: int|
                        0 <= cj < ci2 + 1 && old(lake).contains(#[trigger] children@[cj]) implies
                        exists|e: int|
                            0 <= e < avail@.len() && (#[trigger] avail@[e]).1 == children@[cj] by {
                        if cj == ci2 {
                            let e = choose|e: int|
                                0 <= e < avail@.len() && (#[trigger] avail@[e]).1 == child
                                    && crate::key::spec_key_string(avail@[e].0)
                                    == crate::key::spec_key_string(ks);
                            assert(avail@[e].1 == children@[cj]);
                        } else {
                            let ep = choose|ep: int|
                                0 <= ep < avail_pre.len() && (#[trigger] avail_pre[ep]).1
                                    == children@[cj];
                            assert(old(lake).key_of(avail_pre[ep].1) == crate::key::spec_key_string(
                                avail_pre[ep].0,
                            ));
                            assert(old(lake).key_of(children@[cj]) != old(lake).key_of(child));
                            assert(crate::key::spec_key_string(avail_pre[ep].0)
                                != crate::key::spec_key_string(ks));
                            let e = choose|e: int|
                                0 <= e < avail@.len() && #[trigger] avail@[e] == avail_pre[ep];
                            assert(avail@[e].1 == children@[cj]);
                        }
                    }
                }
            }
            proof {
                assert forall|e: int|
                    0 <= e < avail@.len() implies old(lake).children_of(*node_key).contains(
                    (#[trigger] avail@[e]).1,
                ) && old(lake).contains(avail@[e].1) && old(lake).parent_of(avail@[e].1) == Some(
                    *node_key,
                ) && old(lake).key_of(avail@[e].1) == crate::key::spec_key_string(avail@[e].0) by {
                    if avail_pre.contains(avail@[e]) {
                        let j = choose|j: int|
                            0 <= j < avail_pre.len() && avail_pre[j] == avail@[e];
                        assert(avail_pre[j].1 == avail@[e].1);
                    } else {
                        assert(avail@[e].1 == child);
                    }
                }
            }
        }
        ci2 = ci2 + 1;
    }

    // Produce one child per seed, in order.
    let mut new_node_keys: Vec<Key> = Vec::new();
    let mut seeds = new_seeds;
    let ghost orig = seeds@;
    let ghost pre = *old(lake);
    let ghost g = kd && seeds_keys_distinct(orig);
    proof {
        assert forall|u: int, i: int|
            #![trigger unused_node_keys@[u], orig[i]]
            0 <= u < unused_node_keys@.len() && 0 <= i < orig.len() && (forall|j: int|
                0 <= j < i ==> (#[trigger] orig[j]).spec_key() != orig[i].spec_key())
                && pre.key_of(unused_node_keys@[u]) == orig[i].spec_key() && pre.tag_of(
                unused_node_keys@[u],
            ) == orig[i].spec_tag() && spec_matched(
                orig,
                pre.key_of(unused_node_keys@[u]),
                pre.tag_of(unused_node_keys@[u]),
            ) implies false by {
            assert(!spec_matched(
                orig,
                pre.key_of(unused_node_keys@[u]),
                pre.tag_of(unused_node_keys@[u]),
            ));
        }
        assert forall|e1: int, e2: int|
            #![trigger avail@[e1], avail@[e2]]
            0 <= e1 < e2 < avail@.len() implies avail@[e1].1 != avail@[e2].1 by {
            if avail@[e1].1 == avail@[e2].1 {
                assert(pre.key_of(avail@[e1].1) == crate::key::spec_key_string(avail@[e1].0));
                assert(pre.key_of(avail@[e2].1) == crate::key::spec_key_string(avail@[e2].0));
            }
        }
    }
    let n_seeds = seeds.len();
    let mut si: usize = 0;
    while si < n_seeds
        invariant
            n_seeds == orig.len(),
            0 <= si <= n_seeds,
            seeds@ =~= orig.subrange(si as int, n_seeds as int),
            lake.wf_core(),
            lake.data_ok(),
            lake.contains(*node_key),
            NodeLake::grows(pre, *lake),
            NodeLake::keeps_shell(pre, *lake),
            NodeLake::fresh_clean(pre, *lake),
            forall|j: Key|
                pre.contains(j) && !new_node_keys@.contains(j) ==> #[trigger] lake.spec_node(j)
                    == pre.spec_node(j),
            avail_ok(avail@, pre, *node_key),
            avail_distinct(avail@),
            forall|e1: int, e2: int|
                #![trigger avail@[e1], avail@[e2]]
                0 <= e1 < e2 < avail@.len() ==> crate::key::spec_key_string(avail@[e1].0)
                    != crate::key::spec_key_string(avail@[e2].0),
            forall|e: int, i: int|
                0 <= e < avail@.len() && 0 <= i < new_node_keys@.len() ==> (
                #[trigger] avail@[e]).1 != #[trigger] new_node_keys@[i],
            g ==> forall|ci: int|
                0 <= ci < children@.len() && pre.contains(#[trigger] children@[ci])
                    && spec_matched(
                    orig,
                    pre.key_of(children@[ci]),
                    pre.tag_of(children@[ci]),
                ) && last_seed_with_key(orig, pre.key_of(children@[ci])) >= si ==> exists|e: int|
                    0 <= e < avail@.len() && (#[trigger] avail@[e]).1 == children@[ci],
            g ==> forall|ci: int|
                0 <= ci < children@.len() && pre.contains(#[trigger] children@[ci])
                    && spec_matched(
                    orig,
                    pre.key_of(children@[ci]),
                    pre.tag_of(children@[ci]),
                ) && last_seed_with_key(orig, pre.key_of(children@[ci])) < si ==> 0
                    <= last_seed_with_key(orig, pre.key_of(children@[ci])) < si
                    && new_node_keys@[last_seed_with_key(orig, pre.key_of(children@[ci]))]
                    == children@[ci],
            g ==> forall|u: int|
                0 <= u < unused_node_keys@.len() ==> !spec_matched(
                    orig,
                    pre.key_of(#[trigger] unused_node_keys@[u]),
                    pre.tag_of(unused_node_keys@[u]),
                ),
            forall|ci: int|
                0 <= ci < children@.len() && pre.contains(#[trigger] children@[ci])
                    && !spec_matched(
                    orig,
                    pre.key_of(children@[ci]),
                    pre.tag_of(children@[ci]),
                ) ==> unused_node_keys@.contains(children@[ci]),
            new_node_keys@.len() == si,
            forall|i: int|
                0 <= i < si ==> lake.contains(#[trigger] new_node_keys@[i]) && lake.tag_of(
                    new_node_keys@[i],
                ) == orig[i].spec_tag() && lake.key_of(new_node_keys@[i]) == orig[i].spec_key()
                    && lake.input_of(new_node_keys@[i]) == orig[i].spec_input() && node_key.sid()
                    < new_node_keys@[i].sid(),
            forall|i: int|
                0 <= i < si ==> (pre.children_of(*node_key).contains(#[trigger] new_node_keys@[i])
                    && pre.contains(new_node_keys@[i]) && pre.parent_of(new_node_keys@[i]) == Some(
                    *node_key,
                )) || new_node_keys@[i].sid() >= pre.cap(),
            forall|i1: int, i2: int|
                #![trigger new_node_keys@[i1], new_node_keys@[i2]]
                0 <= i1 < i2 < si ==> new_node_keys@[i1] != new_node_keys@[i2],
            forall|i: int| 0 <= i < si ==> (#[trigger] new_node_keys@[i]).sid() < lake.cap(),
            forall|i: int|
                0 <= i < si && (#[trigger] new_node_keys@[i]).sid() >= pre.cap()
                    && orig[i].spec_signal_target() is None ==> lake.self_render_of(
                    new_node_keys@[i],
                ).spec_target() == Some(new_node_keys@[i]),
            forall|i: int, j: int|
                #![trigger new_node_keys@[i], orig[j]]
                0 <= j < i < si && orig[j].spec_key() == orig[i].spec_key()
                    ==> new_node_keys@[i].sid() >= pre.cap(),
            forall|e: int, j: int|
                0 <= e < avail@.len() && 0 <= j < si ==> crate::key::spec_key_string(
                    (#[trigger] avail@[e]).0,
                ) != (#[trigger] orig[j]).spec_key(),
            kd ==> forall|ci: int|
                0 <= ci < children@.len() && pre.contains(#[trigger] children@[ci]) && (forall|
                    j: int,
                |
                    0 <= j < si ==> (#[trigger] orig[j]).spec_key() != pre.key_of(children@[ci]))
                    ==> exists|e: int|
                    0 <= e < avail@.len() && (#[trigger] avail@[e]).1 == children@[ci],
            kd ==> forall|i: int, ci: int|
                #![trigger new_node_keys@[i], children@[ci]]
                0 <= i < si && (forall|j: int|
                    0 <= j < i ==> (#[trigger] orig[j]).spec_key() != orig[i].spec_key()) && 0
                    <= ci < children@.len() && pre.contains(children@[ci]) && pre.key_of(
                    children@[ci],
                ) == orig[i].spec_key() && pre.tag_of(children@[ci]) == orig[i].spec_tag()
                    ==> new_node_keys@[i] == children@[ci],
            kd ==> forall|u: int, i: int|
                #![trigger unused_node_keys@[u], orig[i]]
                0 <= u < unused_node_keys@.len() && 0 <= i < orig.len() && (forall|j: int|
                    0 <= j < i ==> (#[trigger] orig[j]).spec_key() != orig[i].spec_key())
                    && pre.key_of(unused_node_keys@[u]) == orig[i].spec_key() && pre.tag_of(
                    unused_node_keys@[u],
                ) == orig[i].spec_tag() && spec_matched(
                    orig,
                    pre.key_of(unused_node_keys@[u]),
                    pre.tag_of(unused_node_keys@[u]),
                ) ==> false,
            forall|u: int|
                0 <= u < unused_node_keys@.len() ==> pre.children_of(*node_key).contains(
                    #[trigger] unused_node_keys@[u],
                ) && pre.contains(unused_node_keys@[u]) && pre.parent_of(unused_node_keys@[u])
                    == Some(*node_key),
        decreases n_seeds - si,
    {
        let new_seed = seeds.remove(0);
        proof {
            assert(orig.subrange(si as int, n_seeds as int)[0] == orig[si as int]);
            assert(seeds@ =~= orig.subrange(si as int + 1, n_seeds as int));
        }
        let ghost lake_it = *lake;
        let ghost availv = avail@;
        let ghost unusedv = unused_node_keys@;
        let ghost newv = new_node_keys@;
        let reuse = avail_remove(&mut avail, &new_seed.key.key);
        match reuse {
            Some(old_key) => {
                let ghost j0 = choose|j0: int|
                    0 <= j0 < availv.len() && (#[trigger] availv[j0]).1 == old_key
                        && crate::key::spec_key_string(availv[j0].0) == crate::key::spec_key_string(
                        new_seed.key.key,
                    ) && avail@ == availv.remove(j0);
                proof {
                    lemma_avail_remove_distinct(availv, j0);
                    assert(crate::key::spec_key_string(availv[j0].0) == orig[si as int].spec_key());
                    assert forall|e: int, j: int|
                        0 <= e < avail@.len() && 0 <= j < si + 1 implies crate::key::spec_key_string(
                        (#[trigger] avail@[e]).0,
                    ) != (#[trigger] orig[j]).spec_key() by {
                        if j == si as int {
                            assert(crate::key::spec_key_string(avail@[e].0)
                                != crate::key::spec_key_string(availv[j0].0));
                        } else {
                            assert(availv.contains(avail@[e]));
                            let ep = choose|ep: int|
                                0 <= ep < availv.len() && #[trigger] availv[ep] == avail@[e];
                            assert(crate::key::spec_key_string(availv[ep].0)
                                != orig[j].spec_key());
                        }
                    }
                    assert forall|j: int|
                        0 <= j < si implies (#[trigger] orig[j]).spec_key() != orig[si as int].spec_key() by {
                        assert(crate::key::spec_key_string(availv[j0].0) != orig[j].spec_key());
                    }
                    assert(pre.key_of(old_key) == new_seed.spec_key());
                    assert(pre.contains(old_key));
                    assert(pre.children_of(*node_key).contains(old_key));
                    assert(pre.parent_of(old_key) == Some(*node_key));
                    assert(node_key.sid() < old_key.sid());
                    assert forall|e: int|
                        0 <= e < avail@.len() implies avail_entry_ok(
                        #[trigger] avail@[e],
                        pre,
                        *node_key,
                    ) by {
                        assert(availv.contains(avail@[e]));
                        let j = choose|j: int| 0 <= j < availv.len() && availv[j] == avail@[e];
                        assert(avail_entry_ok(availv[j], pre, *node_key));
                    }
                }
                let ghost seed_snapshot = new_seed;
                match merge_seed_to_nodekey(lake, new_seed, &old_key) {
                    Ok(_) => {
                        proof {
                            assert(lake_it.contains(old_key));
                            assert(lake_it.tag_of(old_key) == seed_snapshot.spec_tag());
                            assert(NodeLake::grows(lake_it, *lake));
                            assert forall|j: Key|
                                lake_it.contains(j) implies (
                            #[trigger] lake.spec_node(j)).relations == lake_it.spec_node(
                                j,
                            ).relations && lake.spec_node(j).type_tag == lake_it.spec_node(
                                j,
                            ).type_tag && lake.key_of(j) == lake_it.key_of(j)
                                && lake.spec_node(j).context == lake_it.spec_node(j).context
                                && lake.spec_node(j).data.is_some() == lake_it.spec_node(
                                j,
                            ).data.is_some() && (lake_it.spec_node(j).data.is_some()
                                ==> lake.spec_node(j).data.unwrap().state == lake_it.spec_node(
                                j,
                            ).data.unwrap().state) by {
                                if j != old_key {
                                    assert(lake.spec_node(j) == lake_it.spec_node(j));
                                } else {
                                    assert(lake_it.has_data(j));
                                    assert(lake.has_data(j));
                                    assert(lake.state_of(j) == lake_it.state_of(j));
                                }
                            }
                            assert(NodeLake::keeps_shell(lake_it, *lake));
                            assert forall|j: Key|
                                #![trigger lake.spec_node(j)]
                                lake.contains(j) && j.sid() >= lake_it.cap() implies
                            lake.children_of(j).len() == 0 && lake.parent_of(j) is None by {}
                            assert(NodeLake::fresh_clean(lake_it, *lake));
                            NodeLake::lemma_evolve_trans(pre, lake_it, *lake);
                            assert(lake.key_of(old_key) == pre.key_of(old_key));
                            assert(lake.input_of(old_key) == seed_snapshot.spec_input());
                            assert forall|i: int|
                                0 <= i < si implies lake.contains(#[trigger] new_node_keys@[i])
                                && lake.tag_of(new_node_keys@[i]) == orig[i].spec_tag()
                                && lake.key_of(new_node_keys@[i]) == orig[i].spec_key()
                                && lake.input_of(new_node_keys@[i]) == orig[i].spec_input()
                                && node_key.sid() < new_node_keys@[i].sid() by {
                                assert(availv[j0].1 != new_node_keys@[i]);
                                assert(lake.spec_node(new_node_keys@[i]) == lake_it.spec_node(
                                    new_node_keys@[i],
                                ));
                            }
                            assert forall|i: int|
                                0 <= i < si implies lake.self_render_of(
                                #[trigger] new_node_keys@[i],
                            ) == lake_it.self_render_of(new_node_keys@[i]) by {
                                assert(availv[j0].1 != new_node_keys@[i]);
                                assert(lake.spec_node(new_node_keys@[i]) == lake_it.spec_node(
                                    new_node_keys@[i],
                                ));
                            }
                            assert(old_key.sid() < pre.cap());
                            if kd {
                                lemma_surviving_entries(
                                    pre,
                                    orig,
                                    children@,
                                    availv,
                                    j0,
                                    avail@,
                                    si as int,
                                );
                                assert forall|ci: int|
                                    #![trigger children@[ci]]
                                    0 <= ci < children@.len() && pre.contains(children@[ci]) && (
                                    forall|j: int|
                                        0 <= j < si ==> (#[trigger] orig[j]).spec_key()
                                            != orig[si as int].spec_key()) && pre.key_of(
                                        children@[ci],
                                    ) == orig[si as int].spec_key() && pre.tag_of(children@[ci])
                                        == orig[si as int].spec_tag() implies old_key
                                    == children@[ci] by {
                                    let c = children@[ci];
                                    let e = choose|e: int|
                                        0 <= e < availv.len() && (#[trigger] availv[e]).1 == c;
                                    assert(pre.key_of(availv[e].1) == crate::key::spec_key_string(
                                        availv[e].0,
                                    ));
                                    assert(crate::key::spec_key_string(availv[e].0)
                                        == crate::key::spec_key_string(availv[j0].0));
                                    if e != j0 {
                                        if e < j0 {
                                            assert(crate::key::spec_key_string(availv[e].0)
                                                != crate::key::spec_key_string(availv[j0].0));
                                        } else {
                                            assert(crate::key::spec_key_string(availv[j0].0)
                                                != crate::key::spec_key_string(availv[e].0));
                                        }
                                        assert(false);
                                    }
                                    assert(old_key == c);
                                }
                            }
                        }
                        new_node_keys.push(old_key);
                        proof {
                        assert forall|j: Key|
                            pre.contains(j) && !new_node_keys@.contains(j) implies
                            #[trigger] lake.spec_node(j) == pre.spec_node(j) by {
                            assert(new_node_keys@[newv.len() as int] == old_key);
                            assert(!newv.contains(j)) by {
                                if newv.contains(j) {
                                    let w = choose|w: int|
                                        0 <= w < newv.len() && newv[w] == j;
                                    assert(new_node_keys@[w] == j);
                                }
                            }
                            assert(lake_it.spec_node(j) == pre.spec_node(j));
                            assert(j != old_key);
                            assert(lake_it.contains(j));
                            assert(lake.spec_node(j) == lake_it.spec_node(j));
                        }
                            if kd {
                                assert(new_node_keys@[si as int] == old_key);
                            }
                            if g {
                                lemma_reuse_bookkeeping(
                                    pre,
                                    orig,
                                    children@,
                                    availv,
                                    j0,
                                    avail@,
                                    newv,
                                    new_node_keys@,
                                    unused_node_keys@,
                                    old_key,
                                    si as int,
                                );
                            }
                        }
                    },
                    Err(seed_back) => {
                        if !key_in(&unused_node_keys, &old_key) {
                            unused_node_keys.push(old_key);
                        }
                        let fresh = lake.sprout_and_link(seed_back);
                        let ghost l1 = *lake;
                        lake.install_self_render(&fresh, sender);
                        proof {
                            reconcile_sprout_facts(
                                pre,
                                lake_it,
                                l1,
                                *lake,
                                fresh,
                                *node_key,
                                new_node_keys@,
                                orig,
                                si as int,
                            );
                        }
                        new_node_keys.push(fresh);
                        proof {
                        assert forall|j: Key|
                            pre.contains(j) && !new_node_keys@.contains(j) implies
                            #[trigger] lake.spec_node(j) == pre.spec_node(j) by {
                            assert(new_node_keys@[newv.len() as int] == fresh);
                            assert(!newv.contains(j)) by {
                                if newv.contains(j) {
                                    let w = choose|w: int|
                                        0 <= w < newv.len() && newv[w] == j;
                                    assert(new_node_keys@[w] == j);
                                }
                            }
                            assert(lake_it.spec_node(j) == pre.spec_node(j));
                            assert(j != fresh);
                            assert(lake_it.contains(j));
                            assert(l1.spec_node(j) == lake_it.spec_node(j));
                            assert(lake.spec_node(j) == l1.spec_node(j));
                        }
                            assert forall|i: int|
                                0 <= i < si implies lake.self_render_of(
                                #[trigger] new_node_keys@[i],
                            ) == lake_it.self_render_of(new_node_keys@[i]) by {
                                assert(new_node_keys@[i].sid() < lake_it.cap());
                                assert(lake_it.contains(new_node_keys@[i]));
                                assert(lake.spec_node(new_node_keys@[i]) == lake_it.spec_node(
                                    new_node_keys@[i],
                                ));
                            }
                            if orig[si as int].spec_signal_target() is None {
                                assert(l1.self_render_of(fresh).spec_target()
                                    == seed_snapshot.spec_signal_target());
                                assert(l1.self_render_of(fresh) is Unset);
                                assert(lake.self_render_of(fresh).spec_target() == Some(fresh));
                            }
                            if kd {
                                lemma_surviving_entries(
                                    pre,
                                    orig,
                                    children@,
                                    availv,
                                    j0,
                                    avail@,
                                    si as int,
                                );
                                assert(lake_it.contains(old_key));
                                assert((lake_it.spec_node(old_key)).type_tag == pre.spec_node(
                                    old_key,
                                ).type_tag);
                                assert(pre.tag_of(old_key) != orig[si as int].spec_tag());
                                assert forall|ci: int|
                                    0 <= ci < children@.len() && pre.contains(
                                        #[trigger] children@[ci],
                                    ) && (forall|j: int|
                                        0 <= j < si ==> (#[trigger] orig[j]).spec_key()
                                            != orig[si as int].spec_key()) && pre.key_of(
                                        children@[ci],
                                    ) == orig[si as int].spec_key() && pre.tag_of(children@[ci])
                                        == orig[si as int].spec_tag() implies new_node_keys@[si as int]
                                    == children@[ci] by {
                                    let c = children@[ci];
                                    let e = choose|e: int|
                                        0 <= e < availv.len() && (#[trigger] availv[e]).1 == c;
                                    assert(pre.key_of(availv[e].1) == crate::key::spec_key_string(
                                        availv[e].0,
                                    ));
                                    if e != j0 {
                                        if e < j0 {
                                            assert(crate::key::spec_key_string(availv[e].0)
                                                != crate::key::spec_key_string(availv[j0].0));
                                        } else {
                                            assert(crate::key::spec_key_string(availv[j0].0)
                                                != crate::key::spec_key_string(availv[e].0));
                                        }
                                        assert(false);
                                    }
                                    assert(old_key == c);
                                    assert(false);
                                }
                                assert forall|u: int, i: int|
                                    #![trigger unused_node_keys@[u], orig[i]]
                                    0 <= u < unused_node_keys@.len() && 0 <= i < orig.len() && (
                                    forall|j: int|
                                        0 <= j < i ==> (#[trigger] orig[j]).spec_key()
                                            != orig[i].spec_key()) && pre.key_of(
                                        unused_node_keys@[u],
                                    ) == orig[i].spec_key() && pre.tag_of(unused_node_keys@[u])
                                        == orig[i].spec_tag() && spec_matched(
                                        orig,
                                        pre.key_of(unused_node_keys@[u]),
                                        pre.tag_of(unused_node_keys@[u]),
                                    ) implies false by {
                                    if u < unusedv.len() {
                                        assert(unused_node_keys@[u] == unusedv[u]);
                                    } else {
                                        assert(unused_node_keys@[u] == old_key);
                                        assert(pre.key_of(old_key) == orig[si as int].spec_key());
                                        if i < si as int {
                                            assert(crate::key::spec_key_string(availv[j0].0)
                                                != orig[i].spec_key());
                                        }
                                        if i > si as int {
                                            assert(orig[si as int].spec_key()
                                                != orig[i].spec_key());
                                        }
                                        assert(i == si as int);
                                        assert(pre.tag_of(old_key) == orig[si as int].spec_tag());
                                    }
                                }
                            }
                            if g {
                                assert(lake_it.contains(old_key));
                                assert((lake_it.spec_node(old_key)).type_tag == pre.spec_node(
                                    old_key,
                                ).type_tag);
                                assert(lake_it.tag_of(old_key) != seed_snapshot.spec_tag());
                                lemma_replace_bookkeeping(
                                    pre,
                                    orig,
                                    children@,
                                    availv,
                                    j0,
                                    avail@,
                                    newv,
                                    new_node_keys@,
                                    unusedv,
                                    unused_node_keys@,
                                    old_key,
                                    fresh,
                                    si as int,
                                );
                            }
                            assert forall|ci: int|
                                0 <= ci < children@.len() && pre.contains(
                                    #[trigger] children@[ci],
                                ) && !spec_matched(
                                    orig,
                                    pre.key_of(children@[ci]),
                                    pre.tag_of(children@[ci]),
                                ) implies unused_node_keys@.contains(children@[ci]) by {
                                let w = choose|w: int|
                                    0 <= w < unusedv.len() && #[trigger] unusedv[w]
                                        == children@[ci];
                                assert(unused_node_keys@[w] == children@[ci]);
                            }
                        }
                    },
                }
            },
            None => {
                let ghost q_view = new_seed.spec_key();
                let fresh = lake.sprout_and_link(new_seed);
                let ghost l1 = *lake;
                lake.install_self_render(&fresh, sender);
                proof {
                    reconcile_sprout_facts(
                        pre,
                        lake_it,
                        l1,
                        *lake,
                        fresh,
                        *node_key,
                        new_node_keys@,
                        orig,
                        si as int,
                    );
                }
                new_node_keys.push(fresh);
                proof {
                assert forall|j: Key|
                    pre.contains(j) && !new_node_keys@.contains(j) implies
                    #[trigger] lake.spec_node(j) == pre.spec_node(j) by {
                    assert(new_node_keys@[newv.len() as int] == fresh);
                    assert(!newv.contains(j)) by {
                        if newv.contains(j) {
                    let w = choose|w: int|
                        0 <= w < newv.len() && newv[w] == j;
                    assert(new_node_keys@[w] == j);
                        }
                    }
                    assert(lake_it.spec_node(j) == pre.spec_node(j));
                    assert(j != fresh);
                    assert(lake_it.contains(j));
                    assert(l1.spec_node(j) == lake_it.spec_node(j));
                    assert(lake.spec_node(j) == l1.spec_node(j));
                }
                    if kd {
                        assert forall|ci: int|
                            0 <= ci < children@.len() && pre.contains(#[trigger] children@[ci]) && (
                            forall|j: int|
                                0 <= j < si ==> (#[trigger] orig[j]).spec_key()
                                    != orig[si as int].spec_key()) && pre.key_of(children@[ci])
                                == orig[si as int].spec_key() && pre.tag_of(children@[ci])
                                == orig[si as int].spec_tag() implies new_node_keys@[si as int]
                            == children@[ci] by {
                            let c = children@[ci];
                            let e = choose|e: int|
                                0 <= e < availv.len() && (#[trigger] availv[e]).1 == c;
                            assert(pre.key_of(availv[e].1) == crate::key::spec_key_string(
                                availv[e].0,
                            ));
                            assert(crate::key::spec_key_string(availv[e].0)
                                == new_seed.spec_key());
                            assert(false);
                        }
                    }
                    assert forall|i: int|
                        0 <= i < si implies lake.self_render_of(#[trigger] new_node_keys@[i])
                        == lake_it.self_render_of(new_node_keys@[i]) by {
                        assert(new_node_keys@[i].sid() < lake_it.cap());
                        assert(lake_it.contains(new_node_keys@[i]));
                        assert(lake.spec_node(new_node_keys@[i]) == lake_it.spec_node(
                            new_node_keys@[i],
                        ));
                    }
                    if orig[si as int].spec_signal_target() is None {
                        assert(l1.self_render_of(fresh).spec_target()
                            == new_seed.spec_signal_target());
                        assert(l1.self_render_of(fresh) is Unset);
                        assert(lake.self_render_of(fresh).spec_target() == Some(fresh));
                    }
                    if g {
                        lemma_no_reuse_bookkeeping(
                            pre,
                            orig,
                            children@,
                            avail@,
                            newv,
                            new_node_keys@,
                            fresh,
                            si as int,
                            q_view,
                        );
                    }
                }
            },
        }
        si = si + 1;
    }
    proof {
        if kd {
            assert forall|i: int, ci: int|
                #![trigger new_node_keys@[i], pre.children_of(*node_key)[ci]]
                0 <= i < new_node_keys@.len() && (forall|j: int|
                    0 <= j < i ==> (#[trigger] orig[j]).spec_key() != orig[i].spec_key()) && 0
                    <= ci < pre.children_of(*node_key).len() && pre.contains(
                    pre.children_of(*node_key)[ci],
                ) && pre.key_of(pre.children_of(*node_key)[ci]) == orig[i].spec_key()
                    && pre.tag_of(pre.children_of(*node_key)[ci]) == orig[i].spec_tag() implies
                new_node_keys@[i] == pre.children_of(*node_key)[ci] by {
                assert(pre.children_of(*node_key)[ci] == children@[ci]);
            }
        }
        assert forall|i: int|
            0 <= i < new_node_keys@.len() && (#[trigger] new_node_keys@[i]).sid() >= pre.cap()
                && orig[i].spec_signal_target() is None implies lake.self_render_of(
            new_node_keys@[i],
        ).spec_target() == Some(new_node_keys@[i]) by {}
        assert forall|i: int, j: int|
            #![trigger new_node_keys@[i], orig[j]]
            0 <= j < i < new_node_keys@.len() && orig[j].spec_key() == orig[i].spec_key() implies
            new_node_keys@[i].sid() >= pre.cap() by {}
        if g {
            assert forall|ci: int|
                0 <= ci < children@.len() && pre.contains(#[trigger] children@[ci]) implies
                new_node_keys@.contains(children@[ci]) || unused_node_keys@.contains(
                children@[ci],
            ) by {
                let c = children@[ci];
                if spec_matched(orig, pre.key_of(c), pre.tag_of(c)) {
                    lemma_last_seed_props::<C>(orig, pre.key_of(c));
                    let lic = last_seed_with_key(orig, pre.key_of(c));
                    assert(new_node_keys@[lic] == c);
                    assert(new_node_keys@.contains(c));
                }
            }
            assert forall|u: int, i: int|
                0 <= u < unused_node_keys@.len() && 0 <= i < new_node_keys@.len() implies
                #[trigger] unused_node_keys@[u] != #[trigger] new_node_keys@[i] by {
                let uk = unused_node_keys@[u];
                let nk = new_node_keys@[i];
                if uk == nk {
                    if nk.sid() >= pre.cap() {
                        assert(pre.contains(uk));
                        assert(uk.sid() < pre.cap());
                    } else {
                        assert(pre.contains(nk));
                        assert((lake.spec_node(nk)).type_tag == pre.spec_node(nk).type_tag);
                        assert(lake.key_of(nk) == pre.key_of(nk));
                        assert(pre.key_of(uk) == orig[i].spec_key());
                        assert(pre.tag_of(uk) == orig[i].spec_tag());
                        lemma_last_seed_props::<C>(orig, pre.key_of(uk));
                        let liu = last_seed_with_key(orig, pre.key_of(uk));
                        assert(orig[i].spec_key() == pre.key_of(uk));
                        assert(liu >= i);
                        if liu > i {
                            assert(orig[liu].spec_key() == orig[i].spec_key());
                        }
                        assert(liu == i);
                        assert(spec_matched(orig, pre.key_of(uk), pre.tag_of(uk)));
                    }
                }
            }
        }
    }
    (new_node_keys, unused_node_keys)
}

/// Bookkeeping for a successful reuse: under distinct sibling keys the
/// reused child is exactly the child the seed's key names, it lands at the
/// seed's own index, and the reuse map keeps one entry per remaining
/// matched child.
#[verifier::rlimit(100)]
proof fn lemma_reuse_bookkeeping<C: Component>(
    pre: NodeLake<C>,
    orig: Seq<Seed<C>>,
    kids: Seq<Key>,
    availv: Seq<(Option<String>, Key)>,
    j0: int,
    avail_now: Seq<(Option<String>, Key)>,
    newv: Seq<Key>,
    new_now: Seq<Key>,
    unused: Seq<Key>,
    old_key: Key,
    si: int,
)
    requires
        children_keys_distinct(pre, kids),
        seeds_keys_distinct(orig),
        0 <= si < orig.len(),
        0 <= j0 < availv.len(),
        availv[j0].1 == old_key,
        crate::key::spec_key_string(availv[j0].0) == orig[si].spec_key(),
        avail_now == availv.remove(j0),
        pre.contains(old_key),
        pre.key_of(old_key) == orig[si].spec_key(),
        kids.contains(old_key),
        new_now == newv.push(old_key),
        newv.len() == si,
        forall|ci: int|
            0 <= ci < kids.len() && pre.contains(#[trigger] kids[ci]) && spec_matched(
                orig,
                pre.key_of(kids[ci]),
                pre.tag_of(kids[ci]),
            ) && last_seed_with_key(orig, pre.key_of(kids[ci])) >= si ==> exists|e: int|
                0 <= e < availv.len() && (#[trigger] availv[e]).1 == kids[ci],
        forall|ci: int|
            0 <= ci < kids.len() && pre.contains(#[trigger] kids[ci]) && spec_matched(
                orig,
                pre.key_of(kids[ci]),
                pre.tag_of(kids[ci]),
            ) && last_seed_with_key(orig, pre.key_of(kids[ci])) < si ==> 0 <= last_seed_with_key(
                orig,
                pre.key_of(kids[ci]),
            ) < si && newv[last_seed_with_key(orig, pre.key_of(kids[ci]))] == kids[ci],
        forall|e: int|
            0 <= e < availv.len() ==> pre.contains((#[trigger] availv[e]).1) && pre.key_of(
                availv[e].1,
            ) == crate::key::spec_key_string(availv[e].0),
        forall|j: int|
            #![trigger availv[j]]
            0 <= j < availv.len() && j != j0 ==> availv.remove(j0).contains(availv[j]),
    ensures
        forall|ci: int|
            0 <= ci < kids.len() && pre.contains(#[trigger] kids[ci]) && spec_matched(
                orig,
                pre.key_of(kids[ci]),
                pre.tag_of(kids[ci]),
            ) && last_seed_with_key(orig, pre.key_of(kids[ci])) < si + 1 ==> 0
                <= last_seed_with_key(orig, pre.key_of(kids[ci])) < si + 1
                && new_now[last_seed_with_key(orig, pre.key_of(kids[ci]))] == kids[ci],
        forall|ci: int|
            0 <= ci < kids.len() && pre.contains(#[trigger] kids[ci]) && spec_matched(
                orig,
                pre.key_of(kids[ci]),
                pre.tag_of(kids[ci]),
            ) && last_seed_with_key(orig, pre.key_of(kids[ci])) >= si + 1 ==> exists|e: int|
                0 <= e < avail_now.len() && (#[trigger] avail_now[e]).1 == kids[ci],
{
    lemma_last_seed_props::<C>(orig, pre.key_of(old_key));
    let li0 = last_seed_with_key(orig, pre.key_of(old_key));
    assert(orig[si].spec_key() == pre.key_of(old_key));
    assert(li0 >= si);
    if li0 > si {
        assert(orig[li0].spec_key() == pre.key_of(old_key));
        assert(orig[si].spec_key() == orig[li0].spec_key());
        assert(false);
    }
    assert forall|ci: int|
        0 <= ci < kids.len() && pre.contains(#[trigger] kids[ci]) && spec_matched(
            orig,
            pre.key_of(kids[ci]),
            pre.tag_of(kids[ci]),
        ) && last_seed_with_key(orig, pre.key_of(kids[ci])) < si + 1 implies 0
        <= last_seed_with_key(orig, pre.key_of(kids[ci])) < si + 1 && new_now[last_seed_with_key(
        orig,
        pre.key_of(kids[ci]),
    )] == kids[ci] by {
        let c = kids[ci];
        lemma_last_seed_props::<C>(orig, pre.key_of(c));
        let lic = last_seed_with_key(orig, pre.key_of(c));
        assert(lic >= 0);
        if lic < si {
            assert(new_now[lic] == newv[lic]);
        } else {
            assert(lic == si);
            assert(orig[lic].spec_key() == pre.key_of(c));
            assert(pre.key_of(c) == pre.key_of(old_key));
            let cj = choose|cj: int| 0 <= cj < kids.len() && #[trigger] kids[cj] == old_key;
            if ci != cj {
                if ci < cj {
                    assert(pre.key_of(kids[ci]) != pre.key_of(kids[cj]));
                } else {
                    assert(pre.key_of(kids[cj]) != pre.key_of(kids[ci]));
                }
                assert(false);
            }
            assert(c == old_key);
            assert(new_now[si] == old_key);
        }
    }
    assert forall|ci: int|
        0 <= ci < kids.len() && pre.contains(#[trigger] kids[ci]) && spec_matched(
            orig,
            pre.key_of(kids[ci]),
            pre.tag_of(kids[ci]),
        ) && last_seed_with_key(orig, pre.key_of(kids[ci])) >= si + 1 implies exists|e: int|
            0 <= e < avail_now.len() && (#[trigger] avail_now[e]).1 == kids[ci] by {
        let c = kids[ci];
        let ep = choose|ep: int| 0 <= ep < availv.len() && (#[trigger] availv[ep]).1 == c;
        assert(pre.key_of(availv[ep].1) == crate::key::spec_key_string(availv[ep].0));
        lemma_last_seed_props::<C>(orig, pre.key_of(c));
        if pre.key_of(c) == pre.key_of(old_key) {
            assert(last_seed_with_key(orig, pre.key_of(c)) == li0);
            assert(false);
        }
        assert(ep != j0);
        assert(availv.remove(j0).contains(availv[ep]));
        let e = choose|e: int| 0 <= e < avail_now.len() && #[trigger] avail_now[e] == availv[ep];
        assert(avail_now[e].1 == c);
    }
}

/// Bookkeeping for a failed reuse: the replaced child matches no seed, so
/// setting it aside keeps the unused set free of matched children, and the
/// reuse map keeps one entry per remaining matched child.
#[verifier::rlimit(100)]
proof fn lemma_replace_bookkeeping<C: Component>(
    pre: NodeLake<C>,
    orig: Seq<Seed<C>>,
    kids: Seq<Key>,
    availv: Seq<(Option<String>, Key)>,
    j0: int,
    avail_now: Seq<(Option<String>, Key)>,
    newv: Seq<Key>,
    new_now: Seq<Key>,
    unusedv: Seq<Key>,
    unused_now: Seq<Key>,
    old_key: Key,
    fresh: Key,
    si: int,
)
    requires
        children_keys_distinct(pre, kids),
        seeds_keys_distinct(orig),
        0 <= si < orig.len(),
        0 <= j0 < availv.len(),
        availv[j0].1 == old_key,
        crate::key::spec_key_string(availv[j0].0) == orig[si].spec_key(),
        avail_now == availv.remove(j0),
        pre.contains(old_key),
        pre.key_of(old_key) == orig[si].spec_key(),
        pre.tag_of(old_key) != orig[si].spec_tag(),
        kids.contains(old_key),
        !pre.contains(fresh),
        new_now == newv.push(fresh),
        newv.len() == si,
        unused_now == unusedv || unused_now == unusedv.push(old_key),
        forall|u: int|
            0 <= u < unusedv.len() ==> !spec_matched(
                orig,
                pre.key_of(#[trigger] unusedv[u]),
                pre.tag_of(unusedv[u]),
            ),
        forall|ci: int|
            0 <= ci < kids.len() && pre.contains(#[trigger] kids[ci]) && spec_matched(
                orig,
                pre.key_of(kids[ci]),
                pre.tag_of(kids[ci]),
            ) && last_seed_with_key(orig, pre.key_of(kids[ci])) >= si ==> exists|e: int|
                0 <= e < availv.len() && (#[trigger] availv[e]).1 == kids[ci],
        forall|ci: int|
            0 <= ci < kids.len() && pre.contains(#[trigger] kids[ci]) && spec_matched(
                orig,
                pre.key_of(kids[ci]),
                pre.tag_of(kids[ci]),
            ) && last_seed_with_key(orig, pre.key_of(kids[ci])) < si ==> 0 <= last_seed_with_key(
                orig,
                pre.key_of(kids[ci]),
            ) < si && newv[last_seed_with_key(orig, pre.key_of(kids[ci]))] == kids[ci],
        forall|e: int|
            0 <= e < availv.len() ==> pre.contains((#[trigger] availv[e]).1) && pre.key_of(
                availv[e].1,
            ) == crate::key::spec_key_string(availv[e].0),
        forall|j: int|
            #![trigger availv[j]]
            0 <= j < availv.len() && j != j0 ==> availv.remove(j0).contains(availv[j]),
    ensures
        !spec_matched(orig, pre.key_of(old_key), pre.tag_of(old_key)),
        forall|u: int|
            0 <= u < unused_now.len() ==> !spec_matched(
                orig,
                pre.key_of(#[trigger] unused_now[u]),
                pre.tag_of(unused_now[u]),
            ),
        forall|ci: int|
            0 <= ci < kids.len() && pre.contains(#[trigger] kids[ci]) && spec_matched(
                orig,
                pre.key_of(kids[ci]),
                pre.tag_of(kids[ci]),
            ) && last_seed_with_key(orig, pre.key_of(kids[ci])) < si + 1 ==> 0
                <= last_seed_with_key(orig, pre.key_of(kids[ci])) < si + 1
                && new_now[last_seed_with_key(orig, pre.key_of(kids[ci]))] == kids[ci],
        forall|ci: int|
            0 <= ci < kids.len() && pre.contains(#[trigger] kids[ci]) && spec_matched(
                orig,
                pre.key_of(kids[ci]),
                pre.tag_of(kids[ci]),
            ) && last_seed_with_key(orig, pre.key_of(kids[ci])) >= si + 1 ==> exists|e: int|
                0 <= e < avail_now.len() && (#[trigger] avail_now[e]).1 == kids[ci],
{
    lemma_last_seed_props::<C>(orig, pre.key_of(old_key));
    let li0 = last_seed_with_key(orig, pre.key_of(old_key));
    assert(orig[si].spec_key() == pre.key_of(old_key));
    assert(li0 >= si);
    if li0 > si {
        assert(orig[li0].spec_key() == pre.key_of(old_key));
        assert(orig[si].spec_key() == orig[li0].spec_key());
        assert(false);
    }
    assert(!spec_matched(orig, pre.key_of(old_key), pre.tag_of(old_key)));
    assert forall|u: int|
        0 <= u < unused_now.len() implies !spec_matched(
        orig,
        pre.key_of(#[trigger] unused_now[u]),
        pre.tag_of(unused_now[u]),
    ) by {
        if u < unusedv.len() {
            assert(unused_now[u] == unusedv[u]);
        } else {
            assert(unused_now[u] == old_key);
        }
    }
    assert forall|ci: int|
        0 <= ci < kids.len() && pre.contains(#[trigger] kids[ci]) && spec_matched(
            orig,
            pre.key_of(kids[ci]),
            pre.tag_of(kids[ci]),
        ) && last_seed_with_key(orig, pre.key_of(kids[ci])) < si + 1 implies 0
        <= last_seed_with_key(orig, pre.key_of(kids[ci])) < si + 1 && new_now[last_seed_with_key(
        orig,
        pre.key_of(kids[ci]),
    )] == kids[ci] by {
        let c = kids[ci];
        lemma_last_seed_props::<C>(orig, pre.key_of(c));
        let lic = last_seed_with_key(orig, pre.key_of(c));
        assert(lic >= 0);
        if lic < si {
            assert(new_now[lic] == newv[lic]);
        } else {
            assert(lic == si);
            assert(orig[lic].spec_key() == pre.key_of(c));
            assert(pre.key_of(c) == pre.key_of(old_key));
            let cj = choose|cj: int| 0 <= cj < kids.len() && #[trigger] kids[cj] == old_key;
            if ci != cj {
                if ci < cj {
                    assert(pre.key_of(kids[ci]) != pre.key_of(kids[cj]));
                } else {
                    assert(pre.key_of(kids[cj]) != pre.key_of(kids[ci]));
                }
                assert(false);
            }
            assert(c == old_key);
            assert(false);
        }
    }
    assert forall|ci: int|
        0 <= ci < kids.len() && pre.contains(#[trigger] kids[ci]) && spec_matched(
            orig,
            pre.key_of(kids[ci]),
            pre.tag_of(kids[ci]),
        ) && last_seed_with_key(orig, pre.key_of(kids[ci])) >= si + 1 implies exists|e: int|
            0 <= e < avail_now.len() && (#[trigger] avail_now[e]).1 == kids[ci] by {
        let c = kids[ci];
        let ep = choose|ep: int| 0 <= ep < availv.len() && (#[trigger] availv[ep]).1 == c;
        assert(pre.key_of(availv[ep].1) == crate::key::spec_key_string(availv[ep].0));
        lemma_last_seed_props::<C>(orig, pre.key_of(c));
        if pre.key_of(c) == pre.key_of(old_key) {
            assert(last_seed_with_key(orig, pre.key_of(c)) == li0);
            assert(false);
        }
        assert(ep != j0);
        assert(availv.remove(j0).contains(availv[ep]));
        let e = choose|e: int| 0 <= e < avail_now.len() && #[trigger] avail_now[e] == availv[ep];
        assert(avail_now[e].1 == c);
    }
}

/// Bookkeeping for a seed whose key reuses nothing: no present matched
/// child carries this seed's key, so the fresh node simply takes the
/// seed's index.
#[verifier::rlimit(100)]
proof fn lemma_no_reuse_bookkeeping<C: Component>(
    pre: NodeLake<C>,
    orig: Seq<Seed<C>>,
    kids: Seq<Key>,
    avail_now: Seq<(Option<String>, Key)>,
    newv: Seq<Key>,
    new_now: Seq<Key>,
    fresh: Key,
    si: int,
    q_view: Option<Seq<char>>,
)
    requires
        children_keys_distinct(pre, kids),
        seeds_keys_distinct(orig),
        0 <= si < orig.len(),
        q_view == orig[si].spec_key(),
        new_now == newv.push(fresh),
        newv.len() == si,
        forall|e: int|
            0 <= e < avail_now.len() ==> pre.contains((#[trigger] avail_now[e]).1) && pre.key_of(
                avail_now[e].1,
            ) == crate::key::spec_key_string(avail_now[e].0),
        forall|e: int|
            0 <= e < avail_now.len() ==> crate::key::spec_key_string((#[trigger] avail_now[e]).0)
                != q_view,
        forall|ci: int|
            0 <= ci < kids.len() && pre.contains(#[trigger] kids[ci]) && spec_matched(
                orig,
                pre.key_of(kids[ci]),
                pre.tag_of(kids[ci]),
            ) && last_seed_with_key(orig, pre.key_of(kids[ci])) >= si ==> exists|e: int|
                0 <= e < avail_now.len() && (#[trigger] avail_now[e]).1 == kids[ci],
        forall|ci: int|
            0 <= ci < kids.len() && pre.contains(#[trigger] kids[ci]) && spec_matched(
                orig,
                pre.key_of(kids[ci]),
                pre.tag_of(kids[ci]),
            ) && last_seed_with_key(orig, pre.key_of(kids[ci])) < si ==> 0 <= last_seed_with_key(
                orig,
                pre.key_of(kids[ci]),
            ) < si && newv[last_seed_with_key(orig, pre.key_of(kids[ci]))] == kids[ci],
    ensures
        forall|ci: int|
            0 <= ci < kids.len() && pre.contains(#[trigger] kids[ci]) && spec_matched(
                orig,
                pre.key_of(kids[ci]),
                pre.tag_of(kids[ci]),
            ) && last_seed_with_key(orig, pre.key_of(kids[ci])) < si + 1 ==> 0
                <= last_seed_with_key(orig, pre.key_of(kids[ci])) < si + 1
                && new_now[last_seed_with_key(orig, pre.key_of(kids[ci]))] == kids[ci],
{
    assert forall|ci: int|
        0 <= ci < kids.len() && pre.contains(#[trigger] kids[ci]) && spec_matched(
            orig,
            pre.key_of(kids[ci]),
            pre.tag_of(kids[ci]),
        ) && last_seed_with_key(orig, pre.key_of(kids[ci])) < si + 1 implies 0
        <= last_seed_with_key(orig, pre.key_of(kids[ci])) < si + 1 && new_now[last_seed_with_key(
        orig,
        pre.key_of(kids[ci]),
    )] == kids[ci] by {
        let c = kids[ci];
        lemma_last_seed_props::<C>(orig, pre.key_of(c));
        let lic = last_seed_with_key(orig, pre.key_of(c));
        assert(lic >= 0);
        if lic < si {
            assert(new_now[lic] == newv[lic]);
        } else {
            assert(lic == si);
            assert(orig[lic].spec_key() == pre.key_of(c));
            assert(pre.key_of(c) == q_view);
            let e = choose|e: int| 0 <= e < avail_now.len() && (#[trigger] avail_now[e]).1 == c;
            assert(pre.key_of(avail_now[e].1) == crate::key::spec_key_string(avail_now[e].0));
            assert(crate::key::spec_key_string(avail_now[e].0) == q_view);
            assert(false);
        }
    }
}


/// Entries whose child's sibling key was not yet queried survive removing
/// one entry: the removed entry carries the current seed's key, which
/// differs from every unqueried key.
proof fn lemma_surviving_entries<C: Component>(
    pre: NodeLake<C>,
    orig: Seq<Seed<C>>,
    kids: Seq<Key>,
    availv: Seq<(Option<String>, Key)>,
    j0: int,
    avail_now: Seq<(Option<String>, Key)>,
    si: int,
)
    requires
        0 <= si < orig.len(),
        0 <= j0 < availv.len(),
        crate::key::spec_key_string(availv[j0].0) == orig[si].spec_key(),
        avail_now == availv.remove(j0),
        forall|e: int|
            0 <= e < availv.len() ==> pre.contains((#[trigger] availv[e]).1) && pre.key_of(
                availv[e].1,
            ) == crate::key::spec_key_string(availv[e].0),
        forall|j: int|
            #![trigger availv[j]]
            0 <= j < availv.len() && j != j0 ==> availv.remove(j0).contains(availv[j]),
        forall|ci: int|
            0 <= ci < kids.len() && pre.contains(#[trigger] kids[ci]) && (forall|j: int|
                0 <= j < si ==> (#[trigger] orig[j]).spec_key() != pre.key_of(kids[ci]))
                ==> exists|e: int|
                0 <= e < availv.len() && (#[trigger] availv[e]).1 == kids[ci],
    ensures
        forall|ci: int|
            0 <= ci < kids.len() && pre.contains(#[trigger] kids[ci]) && (forall|j: int|
                0 <= j < si + 1 ==> (#[trigger] orig[j]).spec_key() != pre.key_of(kids[ci]))
                ==> exists|e: int|
                0 <= e < avail_now.len() && (#[trigger] avail_now[e]).1 == kids[ci],
{
    assert forall|ci: int|
        0 <= ci < kids.len() && pre.contains(#[trigger] kids[ci]) && (forall|j: int|
            0 <= j < si + 1 ==> (#[trigger] orig[j]).spec_key() != pre.key_of(kids[ci])) implies
        exists|e: int|
            0 <= e < avail_now.len() && (#[trigger] avail_now[e]).1 == kids[ci] by {
        let c = kids[ci];
        assert(orig[si].spec_key() != pre.key_of(c));
        let ep = choose|ep: int| 0 <= ep < availv.len() && (#[trigger] availv[ep]).1 == c;
        assert(pre.key_of(availv[ep].1) == crate::key::spec_key_string(availv[ep].0));
        assert(ep != j0);
        assert(availv.remove(j0).contains(availv[ep]));
        let e = choose|e: int| 0 <= e < avail_now.len() && #[trigger] avail_now[e] == availv[ep];
        assert(avail_now[e].1 == c);
    }
}

/// One reuse-map entry is a still-present child of the rendered node,
/// stored under its own sibling key.
pub(crate) open spec fn avail_entry_ok<C: Component>(
    entry: (Option<String>, Key),
    pre: NodeLake<C>,
    node_key: Key,
) -> bool {
    pre.children_of(node_key).contains(entry.1) && pre.contains(entry.1) && pre.parent_of(entry.1)
        == Some(node_key) && pre.key_of(entry.1) == crate::key::spec_key_string(entry.0)
}

/// The facts the reconcile loop needs after sprouting a fresh node and
/// installing its self-render signal.
proof fn reconcile_sprout_facts<C: Component>(
    pre: NodeLake<C>,
    lake_it: NodeLake<C>,
    l1: NodeLake<C>,
    post: NodeLake<C>,
    fresh: Key,
    node_key: Key,
    news: Seq<Key>,
    orig_seeds: Seq<crate::key::Seed<C>>,
    si: int,
)
    requires
        pre.contains(node_key),
        lake_it.wf_core(),
        lake_it.data_ok(),
        NodeLake::grows(pre, lake_it),
        NodeLake::keeps_shell(pre, lake_it),
        NodeLake::fresh_clean(pre, lake_it),
        fresh.sid() == lake_it.cap(),
        !lake_it.contains(fresh),
        l1.cap() == lake_it.cap() + 1,
        l1.contains(fresh),
        forall|j: Key| j != fresh ==> #[trigger] l1.contains(j) == lake_it.contains(j),
        forall|j: Key|
            j != fresh && lake_it.contains(j) ==> #[trigger] l1.spec_node(j) == lake_it.spec_node(
                j,
            ),
        l1.has_data(fresh),
        l1.children_of(fresh).len() == 0,
        l1.parent_of(fresh) is None,
        NodeLake::same_but(l1, post, fresh),
        post.spec_node(fresh).data == l1.spec_node(fresh).data,
        post.spec_node(fresh).context == l1.spec_node(fresh).context,
        post.spec_node(fresh).relations == l1.spec_node(fresh).relations,
        post.tag_of(fresh) == l1.tag_of(fresh),
        post.key_of(fresh) == l1.key_of(fresh),
    ensures
        post.wf_core(),
        post.data_ok(),
        NodeLake::grows(pre, post),
        NodeLake::keeps_shell(pre, post),
        NodeLake::fresh_clean(pre, post),
        post.cap() == lake_it.cap() + 1,
        post.contains(fresh),
        post.tag_of(fresh) == l1.tag_of(fresh),
        post.key_of(fresh) == l1.key_of(fresh),
        post.input_of(fresh) == l1.input_of(fresh),
        post.has_data(fresh),
        forall|j: Key| j != fresh && lake_it.contains(j) ==> #[trigger] post.spec_node(j)
            == lake_it.spec_node(j),
        forall|j: Key| j != fresh ==> #[trigger] post.contains(j) == lake_it.contains(j),
        node_key.sid() < fresh.sid(),
{
    assert(NodeLake::grows(lake_it, l1));
    assert forall|j: Key|
        lake_it.contains(j) implies (#[trigger] l1.spec_node(j)).relations == lake_it.spec_node(
        j,
    ).relations && l1.spec_node(j).type_tag == lake_it.spec_node(j).type_tag && l1.key_of(j) == lake_it.key_of(j) && l1.spec_node(j).context == lake_it.spec_node(j).context
        && l1.spec_node(j).data.is_some() == lake_it.spec_node(j).data.is_some() && (
    lake_it.spec_node(j).data.is_some() ==> l1.spec_node(j).data.unwrap().state
        == lake_it.spec_node(j).data.unwrap().state) by {
        assert(j != fresh);
        assert(l1.spec_node(j) == lake_it.spec_node(j));
    }
    assert(NodeLake::keeps_shell(lake_it, l1));
    assert forall|j: Key|
        #![trigger l1.spec_node(j)]
        l1.contains(j) && j.sid() >= lake_it.cap() implies l1.children_of(j).len() == 0
            && l1.parent_of(j) is None by {
        assert(j == fresh);
    }
    assert(NodeLake::fresh_clean(lake_it, l1));
    NodeLake::lemma_wf_core_grow(lake_it, l1);
    assert forall|j: Key| j != fresh implies #[trigger] post.contains(j) == lake_it.contains(
        j,
    ) by {
        assert(post.contains(j) == l1.contains(j));
    }
    assert forall|j: Key|
        j != fresh && lake_it.contains(j) implies #[trigger] post.spec_node(j)
        == lake_it.spec_node(j) by {
        assert(l1.contains(j));
        assert(post.spec_node(j) == l1.spec_node(j));
    }
    assert(NodeLake::grows(lake_it, post));
    assert forall|j: Key|
        lake_it.contains(j) implies (#[trigger] post.spec_node(j)).relations == lake_it.spec_node(
        j,
    ).relations && post.spec_node(j).type_tag == lake_it.spec_node(j).type_tag && post.key_of(j) == lake_it.key_of(j) && post.spec_node(j).context == lake_it.spec_node(
        j,
    ).context && post.spec_node(j).data.is_some() == lake_it.spec_node(j).data.is_some() && (
    lake_it.spec_node(j).data.is_some() ==> post.spec_node(j).data.unwrap().state
        == lake_it.spec_node(j).data.unwrap().state) by {
        assert(post.spec_node(j) == lake_it.spec_node(j));
    }
    assert(NodeLake::keeps_shell(lake_it, post));
    assert forall|j: Key|
        #![trigger post.spec_node(j)]
        post.contains(j) && j.sid() >= lake_it.cap() implies post.children_of(j).len() == 0
            && post.parent_of(j) is None by {
        assert(j == fresh);
        assert((post.spec_node(fresh)).relations == l1.spec_node(fresh).relations);
    }
    assert(NodeLake::fresh_clean(lake_it, post));
    NodeLake::lemma_evolve_trans(pre, lake_it, post);
    assert forall|j: Key| post.contains(j) implies #[trigger] post.has_data(j) by {
        if j != fresh {
            assert(l1.contains(j));
            assert(post.spec_node(j) == l1.spec_node(j));
            assert(l1.has_data(j));
        } else {
            assert(post.spec_node(fresh).data == l1.spec_node(fresh).data);
        }
    }
    NodeLake::lemma_wf_core_grow(lake_it, post);
    assert(post.spec_node(fresh).data == l1.spec_node(fresh).data);
    assert(node_key.sid() < pre.cap());
    assert(pre.cap() <= lake_it.cap());
}


/// Invokes a node's step function.  The component state and the node's
/// context holder are moved out of the slot for the duration of the call and
/// moved back afterwards; the step function sees the lake read-only through
/// the control handle, so the step phase changes nothing in the lake beyond
/// the node's own component state and context.  The seeds and the re-render
/// flag are user decisions the runtime promises nothing about.
pub(crate) fn run_step_fn<C: Component>(lake: &mut NodeLake<C>, node_key: Key) -> (r: (
    Vec<Seed<C>>,
    NodeControlResult,
))
    requires
        old(lake).wf_core(),
        old(lake).data_ok(),
        old(lake).contains(node_key),
    ensures
        final(lake).wf_core(),
        final(lake).data_ok(),
        NodeLake::same_but(*old(lake), *final(lake), node_key),
        final(lake).tag_of(node_key) == old(lake).tag_of(node_key),
        final(lake).key_of(node_key) == old(lake).key_of(node_key),
        final(lake).self_render_of(node_key) == old(lake).self_render_of(node_key),
        final(lake).spec_node(node_key).relations == old(lake).spec_node(node_key).relations,
        final(lake).has_data(node_key),
        final(lake).input_of(node_key) == old(lake).input_of(node_key),
        final(lake).population() == old(lake).population(),
{
    let (raw, holder) = lake.take_for_step(&node_key);
    proof {
        assert forall|j: Key|
            lake.contains(j) implies #[trigger] lake.spec_node(j).relations == old(lake).spec_node(j).relations by {
            if j != node_key {
                assert(lake.spec_node(j) == old(lake).spec_node(j));
            }
        }
        NodeLake::lemma_wf_core_same_relations(*old(lake), *lake);
    }
    let RawData { input, mut state } = raw;
    let mut control = NodeControl {
        lake: &*lake,
        current: node_key,
        holder,
        rerender_flag: false,
    };
    let new_seeds = state.step(&mut control, &input);
    let NodeControl { holder: holder_after, rerender_flag, .. } = control;
    lake.restore_after_step(&node_key, RawData { input, state }, holder_after);
    proof {
        NodeLake::lemma_wf_core_same_relations(*old(lake), *lake);
        assert forall|j: Key| lake.contains(j) implies #[trigger] lake.has_data(j) by {
            assert(old(lake).has_data(j));
            if j != node_key {
                assert(lake.spec_node(j) == old(lake).spec_node(j));
            }
        }
        assert forall|j: Key|
            j != node_key && old(lake).contains(j) implies #[trigger] lake.spec_node(j) == old(lake).spec_node(j) by {}
    }
    (new_seeds, NodeControlResult { rerender_flag })
}

/// Removes a node and, recursively, every present descendant reachable
/// through child links, handing back the removed pairs in pre-order.  The
/// recursion terminates because every removal shrinks the lake.
pub(crate) fn unlink_recursively<C: Component>(lake: &mut NodeLake<C>, node_key: Key) -> (pairs:
    Vec<UnlinkedPair<C>>)
    requires
        old(lake).wf_core(),
        old(lake).data_ok(),
    ensures
        final(lake).wf_core(),
        final(lake).data_ok(),
        NodeLake::shrinks(*old(lake), *final(lake)),
        !final(lake).contains(node_key),
        !old(lake).contains(node_key) ==> *final(lake) == *old(lake) && pairs@.len() == 0,
        forall|p: Key, ci: int|
            old(lake).contains(p) && !final(lake).contains(p) && 0 <= ci < old(lake).children_of(
                p,
            ).len() ==> !final(lake).contains(#[trigger] old(lake).children_of(p)[ci]),
        forall|j: Key|
            #![trigger old(lake).contains(j), final(lake).contains(j)]
            old(lake).contains(j) && !final(lake).contains(j) && j != node_key ==> exists|p: Key|
                old(lake).contains(p) && !final(lake).contains(p) && #[trigger] old(lake).children_of(p).contains(j),
        forall|j: Key|
            #![trigger old(lake).contains(j), final(lake).contains(j)]
            old(lake).contains(j) && !final(lake).contains(j) ==> j.sid() >= node_key.sid(),
        pairs@.len() + final(lake).population() == old(lake).population(),
        forall|pi: int|
            0 <= pi < pairs@.len() ==> old(lake).contains((#[trigger] pairs@[pi]).0) && !final(lake).contains(pairs@[pi].0) && pairs@[pi].1 == old(lake).spec_node(pairs@[pi].0),
        forall|j: Key|
            #![trigger old(lake).contains(j), final(lake).contains(j)]
            old(lake).contains(j) && !final(lake).contains(j) ==> exists|pi: int|
                0 <= pi < pairs@.len() && (#[trigger] pairs@[pi]).0 == j,
    decreases old(lake).population(),
{
    let removed_opt = lake.remove(&node_key);
    let removed = match removed_opt {
        None => {
            return Vec::new();
        },
        Some(d) => d,
    };
    proof {
        NodeLake::lemma_wf_core_removal(*old(lake), *lake);
    }
    let children = copy_keys(&removed.relations.children);
    let mut pairs: Vec<UnlinkedPair<C>> = Vec::new();
    pairs.push((node_key, removed));
    proof {
        assert forall|j: Key|
            old(lake).contains(j) && !lake.contains(j) implies j == node_key by {
            if j != node_key {
                assert(lake.contains(j) == old(lake).contains(j));
            }
        }
        assert(pairs@[0].0 == node_key);
        assert(pairs@[0].1 == old(lake).spec_node(node_key));
        assert forall|j: Key| #[trigger] lake.contains(j) implies old(lake).contains(j)
            && lake.spec_node(j) == old(lake).spec_node(j) by {
            assert(j != node_key);
        }
    }
    let n = children.len();
    let mut i: usize = 0;
    while i < n
        invariant
            old(lake).wf_core(),
            old(lake).data_ok(),
            old(lake).contains(node_key),
            lake.wf_core(),
            lake.data_ok(),
            NodeLake::shrinks(*old(lake), *lake),
            !lake.contains(node_key),
            n == children@.len(),
            0 <= i <= n,
            children@ == old(lake).children_of(node_key),
            forall|ci: int| 0 <= ci < i ==> !lake.contains(#[trigger] children@[ci]),
            forall|p: Key, ci: int|
                old(lake).contains(p) && !lake.contains(p) && p != node_key && 0 <= ci < old(lake).children_of(p).len() ==> !lake.contains(#[trigger] old(lake).children_of(p)[ci]),
            forall|j: Key|
                #![trigger old(lake).contains(j), lake.contains(j)]
                old(lake).contains(j) && !lake.contains(j) && j != node_key ==> exists|p: Key|
                    old(lake).contains(p) && !lake.contains(p) && #[trigger] old(lake).children_of(p).contains(j),
            forall|j: Key|
                #![trigger old(lake).contains(j), lake.contains(j)]
                old(lake).contains(j) && !lake.contains(j) ==> j.sid() >= node_key.sid(),
            pairs@.len() + lake.population() == old(lake).population(),
            lake.population() < old(lake).population(),
            forall|pi: int|
                0 <= pi < pairs@.len() ==> old(lake).contains((#[trigger] pairs@[pi]).0)
                    && !lake.contains(pairs@[pi].0) && pairs@[pi].1 == old(lake).spec_node(
                    pairs@[pi].0,
                ),
            forall|j: Key|
                #![trigger old(lake).contains(j), lake.contains(j)]
                old(lake).contains(j) && !lake.contains(j) ==> exists|pi: int|
                    0 <= pi < pairs@.len() && (#[trigger] pairs@[pi]).0 == j,
        decreases n - i,
    {
        let child = children[i];
        let ghost mid = *lake;
        let ghost pairs_pre = pairs@;
        let mut sub = unlink_recursively(lake, child);
        let ghost subv = sub@;
        pairs.append(&mut sub);
        proof {
            lemma_unlink_loop_step(*old(lake), mid, *lake, node_key, child, i as int);
            if mid.contains(child) {
                assert(old(lake).contains(child));
                assert(old(lake).children_of(node_key)[i as int] == child);
                assert(old(lake).parent_of(child) == Some(node_key));
            }
            lemma_unlink_loop_ids(*old(lake), mid, *lake, node_key, child);
            assert forall|j: Key|
                #![trigger old(lake).contains(j), lake.contains(j)]
                old(lake).contains(j) && !lake.contains(j) implies exists|pi: int|
                    0 <= pi < pairs@.len() && (#[trigger] pairs@[pi]).0 == j by {
                if mid.contains(j) {
                    let spi = choose|spi: int|
                        0 <= spi < subv.len() && (#[trigger] subv[spi]).0 == j;
                    assert(pairs@[pairs_pre.len() + spi].0 == j);
                } else {
                    let pi = choose|pi: int|
                        0 <= pi < pairs_pre.len() && (#[trigger] pairs_pre[pi]).0 == j;
                    assert(pairs@[pi].0 == j);
                }
            }
            assert forall|pi: int|
                0 <= pi < pairs@.len() implies old(lake).contains((#[trigger] pairs@[pi]).0)
                && !lake.contains(pairs@[pi].0) && pairs@[pi].1 == old(lake).spec_node(
                pairs@[pi].0,
            ) by {
                if pi < pairs_pre.len() {
                    assert(pairs@[pi] == pairs_pre[pi]);
                } else {
                    assert(pairs@[pi] == subv[pi - pairs_pre.len()]);
                    let k = subv[pi - pairs_pre.len()].0;
                    assert(mid.contains(k));
                    assert(mid.spec_node(k) == old(lake).spec_node(k));
                }
            }
        }
        i = i + 1;
    }
    pairs
}

/// One step of the unlink loop: composing the facts of a child sub-unlink
/// with the facts accumulated so far.
#[verifier::rlimit(100)]
#[verifier::spinoff_prover]
proof fn lemma_unlink_loop_step<C: Component>(
    pre: NodeLake<C>,
    mid: NodeLake<C>,
    post: NodeLake<C>,
    node_key: Key,
    child: Key,
    i: int,
)
    requires
        pre.wf_core(),
        pre.data_ok(),
        pre.contains(node_key),
        NodeLake::shrinks(pre, mid),
        NodeLake::shrinks(mid, post),
        !mid.contains(node_key),
        0 <= i < pre.children_of(node_key).len(),
        child == pre.children_of(node_key)[i],
        forall|ci: int| 0 <= ci < i ==> !mid.contains(#[trigger] pre.children_of(node_key)[ci]),
        !post.contains(child),
        forall|p: Key, ci: int|
            pre.contains(p) && !mid.contains(p) && p != node_key && 0 <= ci < pre.children_of(
                p,
            ).len() ==> !mid.contains(#[trigger] pre.children_of(p)[ci]),
        forall|p: Key, ci: int|
            mid.contains(p) && !post.contains(p) && 0 <= ci < mid.children_of(p).len()
                ==> !post.contains(#[trigger] mid.children_of(p)[ci]),
        forall|j: Key|
            #![trigger pre.contains(j), mid.contains(j)]
            pre.contains(j) && !mid.contains(j) && j != node_key ==> exists|p: Key|
                pre.contains(p) && !mid.contains(p) && #[trigger] pre.children_of(p).contains(j),
        forall|j: Key|
            #![trigger mid.contains(j), post.contains(j)]
            mid.contains(j) && !post.contains(j) && j != child ==> exists|p: Key|
                mid.contains(p) && !post.contains(p) && #[trigger] mid.children_of(p).contains(j),
    ensures
        NodeLake::shrinks(pre, post),
        forall|ci: int| 0 <= ci < i + 1 ==> !post.contains(#[trigger] pre.children_of(node_key)[ci]),
        forall|p: Key, ci: int|
            pre.contains(p) && !post.contains(p) && p != node_key && 0 <= ci < pre.children_of(
                p,
            ).len() ==> !post.contains(#[trigger] pre.children_of(p)[ci]),
        forall|j: Key|
            #![trigger pre.contains(j), post.contains(j)]
            pre.contains(j) && !post.contains(j) && j != node_key ==> exists|p: Key|
                pre.contains(p) && !post.contains(p) && #[trigger] pre.children_of(p).contains(j),
{
    NodeLake::lemma_shrinks_trans(pre, mid, post);
    assert forall|ci: int| 0 <= ci < i + 1 implies !post.contains(
        #[trigger] pre.children_of(node_key)[ci],
    ) by {
        if ci < i {
            assert(!mid.contains(pre.children_of(node_key)[ci]));
        }
    }
    assert forall|p: Key, ci: int|
        pre.contains(p) && !post.contains(p) && p != node_key && 0 <= ci < pre.children_of(
            p,
        ).len() implies !post.contains(#[trigger] pre.children_of(p)[ci]) by {
        let c = pre.children_of(p)[ci];
        if mid.contains(p) {
            // p was removed by the sub-unlink; its children list was intact
            assert(mid.spec_node(p) == pre.spec_node(p));
            assert(!post.contains(mid.children_of(p)[ci]));
        } else {
            // p was already gone before the sub-unlink
            assert(!mid.contains(c));
        }
    }
    assert forall|j: Key|
        #![trigger pre.contains(j), post.contains(j)]
        pre.contains(j) && !post.contains(j) && j != node_key implies exists|p: Key|
            pre.contains(p) && !post.contains(p) && #[trigger] pre.children_of(p).contains(j) by {
        if !mid.contains(j) {
            let p = choose|p: Key|
                pre.contains(p) && !mid.contains(p) && #[trigger] pre.children_of(p).contains(j);
            assert(pre.contains(p) && !post.contains(p) && pre.children_of(p).contains(j));
        } else {
            // j was removed by the sub-unlink
            if j == child {
                assert(pre.children_of(node_key).contains(j));
                assert(pre.contains(node_key) && !post.contains(node_key));
            } else {
                let p = choose|p: Key|
                    mid.contains(p) && !post.contains(p) && #[trigger] mid.children_of(
                        p,
                    ).contains(j);
                assert(mid.spec_node(p) == pre.spec_node(p));
                assert(pre.children_of(p).contains(j));
                assert(pre.contains(p) && !post.contains(p));
            }
        }
    }
}

/// The slot indices of everything a child sub-unlink removed stay at or
/// above the unlinked node's own index.
proof fn lemma_unlink_loop_ids<C: Component>(
    pre: NodeLake<C>,
    mid: NodeLake<C>,
    post: NodeLake<C>,
    node_key: Key,
    child: Key,
)
    requires
        mid.contains(child) ==> node_key.sid() < child.sid(),
        forall|j: Key|
            #![trigger pre.contains(j), mid.contains(j)]
            pre.contains(j) && !mid.contains(j) ==> j.sid() >= node_key.sid(),
        forall|j: Key|
            #![trigger mid.contains(j), post.contains(j)]
            mid.contains(j) && !post.contains(j) ==> j.sid() >= child.sid(),
        forall|j: Key| #[trigger] post.contains(j) ==> mid.contains(j),
        forall|j: Key| #[trigger] mid.contains(j) ==> pre.contains(j),
        !mid.contains(child) ==> forall|j: Key| #[trigger] post.contains(j) == mid.contains(j),
    ensures
        forall|j: Key|
            #![trigger pre.contains(j), post.contains(j)]
            pre.contains(j) && !post.contains(j) ==> j.sid() >= node_key.sid(),
{
    assert forall|j: Key|
        #![trigger pre.contains(j), post.contains(j)]
        pre.contains(j) && !post.contains(j) implies j.sid() >= node_key.sid() by {
        if mid.contains(j) {
            assert(!post.contains(j));
            assert(j.sid() >= child.sid());
            assert(mid.contains(child));
        }
    }
}

/// Recursively unlinks every node in the unused list, concatenating the
/// removed pairs.
pub(crate) fn unlink_unused_nodes<C: Component>(
    lake: &mut NodeLake<C>,
    unused_nodes: Vec<Key>,
) -> (pairs: Vec<UnlinkedPair<C>>)
    requires
        old(lake).wf_core(),
        old(lake).data_ok(),
    ensures
        final(lake).wf_core(),
        final(lake).data_ok(),
        NodeLake::shrinks(*old(lake), *final(lake)),
        forall|u: int| 0 <= u < unused_nodes@.len() ==> !final(lake).contains(
            #[trigger] unused_nodes@[u],
        ),
        forall|p: Key, ci: int|
            old(lake).contains(p) && !final(lake).contains(p) && 0 <= ci < old(lake).children_of(
                p,
            ).len() ==> !final(lake).contains(#[trigger] old(lake).children_of(p)[ci]),
        forall|j: Key|
            #![trigger old(lake).contains(j), final(lake).contains(j)]
            old(lake).contains(j) && !final(lake).contains(j) && !unused_nodes@.contains(j)
                ==> exists|p: Key|
                old(lake).contains(p) && !final(lake).contains(p) && #[trigger] old(lake).children_of(p).contains(j),
        forall|j: Key|
            #![trigger old(lake).contains(j), final(lake).contains(j)]
            old(lake).contains(j) && !final(lake).contains(j) ==> exists|u: int|
                0 <= u < unused_nodes@.len() && j.sid() >= (#[trigger] unused_nodes@[u]).sid(),
        pairs@.len() + final(lake).population() == old(lake).population(),
        forall|pi: int|
            0 <= pi < pairs@.len() ==> old(lake).contains((#[trigger] pairs@[pi]).0) && !final(lake).contains(pairs@[pi].0) && pairs@[pi].1 == old(lake).spec_node(pairs@[pi].0),
        forall|j: Key|
            #![trigger old(lake).contains(j), final(lake).contains(j)]
            old(lake).contains(j) && !final(lake).contains(j) ==> exists|pi: int|
                0 <= pi < pairs@.len() && (#[trigger] pairs@[pi]).0 == j,
{
    let n = unused_nodes.len();
    let mut pairs: Vec<UnlinkedPair<C>> = Vec::new();
    let mut i: usize = 0;
    while i < n
        invariant
            old(lake).wf_core(),
            old(lake).data_ok(),
            lake.wf_core(),
            lake.data_ok(),
            NodeLake::shrinks(*old(lake), *lake),
            n == unused_nodes@.len(),
            0 <= i <= n,
            forall|u: int| 0 <= u < i ==> !lake.contains(#[trigger] unused_nodes@[u]),
            forall|p: Key, ci: int|
                old(lake).contains(p) && !lake.contains(p) && 0 <= ci < old(lake).children_of(
                    p,
                ).len() ==> !lake.contains(#[trigger] old(lake).children_of(p)[ci]),
            forall|j: Key|
                #![trigger old(lake).contains(j), lake.contains(j)]
                old(lake).contains(j) && !lake.contains(j) && !unused_nodes@.contains(j)
                    ==> exists|p: Key|
                    old(lake).contains(p) && !lake.contains(p) && #[trigger] old(lake).children_of(p).contains(j),
            forall|j: Key|
                #![trigger old(lake).contains(j), lake.contains(j)]
                old(lake).contains(j) && !lake.contains(j) ==> exists|u: int|
                    0 <= u < unused_nodes@.len() && j.sid() >= (#[trigger] unused_nodes@[u]).sid(),
            pairs@.len() + lake.population() == old(lake).population(),
            forall|pi: int|
                0 <= pi < pairs@.len() ==> old(lake).contains((#[trigger] pairs@[pi]).0)
                    && !lake.contains(pairs@[pi].0) && pairs@[pi].1 == old(lake).spec_node(
                    pairs@[pi].0,
                ),
            forall|j: Key|
                #![trigger old(lake).contains(j), lake.contains(j)]
                old(lake).contains(j) && !lake.contains(j) ==> exists|pi: int|
                    0 <= pi < pairs@.len() && (#[trigger] pairs@[pi]).0 == j,
        decreases n - i,
    {
        let u = unused_nodes[i];
        let ghost mid = *lake;
        let ghost pairs_pre = pairs@;
        let mut sub = unlink_recursively(lake, u);
        let ghost subv = sub@;
        pairs.append(&mut sub);
        proof {
            lemma_unlink_unused_step(*old(lake), mid, *lake, unused_nodes@, i as int);
            assert forall|j: Key|
                #![trigger old(lake).contains(j), lake.contains(j)]
                old(lake).contains(j) && !lake.contains(j) implies exists|pi: int|
                    0 <= pi < pairs@.len() && (#[trigger] pairs@[pi]).0 == j by {
                if mid.contains(j) {
                    let spi = choose|spi: int|
                        0 <= spi < subv.len() && (#[trigger] subv[spi]).0 == j;
                    assert(pairs@[pairs_pre.len() + spi].0 == j);
                } else {
                    let pi = choose|pi: int|
                        0 <= pi < pairs_pre.len() && (#[trigger] pairs_pre[pi]).0 == j;
                    assert(pairs@[pi].0 == j);
                }
            }
            assert forall|pi: int|
                0 <= pi < pairs@.len() implies old(lake).contains((#[trigger] pairs@[pi]).0)
                && !lake.contains(pairs@[pi].0) && pairs@[pi].1 == old(lake).spec_node(
                pairs@[pi].0,
            ) by {
                if pi < pairs_pre.len() {
                    assert(pairs@[pi] == pairs_pre[pi]);
                } else {
                    assert(pairs@[pi] == subv[pi - pairs_pre.len()]);
                    let k = subv[pi - pairs_pre.len()].0;
                    assert(mid.contains(k));
                    assert(mid.spec_node(k) == old(lake).spec_node(k));
                }
            }
        }
        i = i + 1;
    }
    pairs
}

/// One step of the unused-unlink loop.
proof fn lemma_unlink_unused_step<C: Component>(
    pre: NodeLake<C>,
    mid: NodeLake<C>,
    post: NodeLake<C>,
    unused: Seq<Key>,
    i: int,
)
    requires
        pre.wf_core(),
        pre.data_ok(),
        0 <= i < unused.len(),
        NodeLake::shrinks(pre, mid),
        NodeLake::shrinks(mid, post),
        forall|u: int| 0 <= u < i ==> !mid.contains(#[trigger] unused[u]),
        !post.contains(unused[i]),
        forall|p: Key, ci: int|
            pre.contains(p) && !mid.contains(p) && 0 <= ci < pre.children_of(p).len()
                ==> !mid.contains(#[trigger] pre.children_of(p)[ci]),
        forall|p: Key, ci: int|
            mid.contains(p) && !post.contains(p) && 0 <= ci < mid.children_of(p).len()
                ==> !post.contains(#[trigger] mid.children_of(p)[ci]),
        forall|j: Key|
            #![trigger pre.contains(j), mid.contains(j)]
            pre.contains(j) && !mid.contains(j) && !unused.contains(j) ==> exists|p: Key|
                pre.contains(p) && !mid.contains(p) && #[trigger] pre.children_of(p).contains(j),
        forall|j: Key|
            #![trigger mid.contains(j), post.contains(j)]
            mid.contains(j) && !post.contains(j) && j != unused[i] ==> exists|p: Key|
                mid.contains(p) && !post.contains(p) && #[trigger] mid.children_of(p).contains(j),
        forall|j: Key|
            #![trigger pre.contains(j), mid.contains(j)]
            pre.contains(j) && !mid.contains(j) ==> exists|u: int|
                0 <= u < unused.len() && j.sid() >= (#[trigger] unused[u]).sid(),
        forall|j: Key|
            #![trigger mid.contains(j), post.contains(j)]
            mid.contains(j) && !post.contains(j) ==> j.sid() >= unused[i].sid(),
    ensures
        NodeLake::shrinks(pre, post),
        forall|u: int| 0 <= u < i + 1 ==> !post.contains(#[trigger] unused[u]),
        forall|p: Key, ci: int|
            pre.contains(p) && !post.contains(p) && 0 <= ci < pre.children_of(p).len()
                ==> !post.contains(#[trigger] pre.children_of(p)[ci]),
        forall|j: Key|
            #![trigger pre.contains(j), post.contains(j)]
            pre.contains(j) && !post.contains(j) && !unused.contains(j) ==> exists|p: Key|
                pre.contains(p) && !post.contains(p) && #[trigger] pre.children_of(p).contains(j),
        forall|j: Key|
            #![trigger pre.contains(j), post.contains(j)]
            pre.contains(j) && !post.contains(j) ==> exists|u: int|
                0 <= u < unused.len() && j.sid() >= (#[trigger] unused[u]).sid(),
{
    NodeLake::lemma_shrinks_trans(pre, mid, post);
    assert forall|p: Key, ci: int|
        pre.contains(p) && !post.contains(p) && 0 <= ci < pre.children_of(p).len() implies
        !post.contains(#[trigger] pre.children_of(p)[ci]) by {
        let c = pre.children_of(p)[ci];
        if mid.contains(p) {
            assert(mid.spec_node(p) == pre.spec_node(p));
            assert(!post.contains(mid.children_of(p)[ci]));
        } else {
            assert(!mid.contains(c));
        }
    }
    assert forall|j: Key|
        #![trigger pre.contains(j), post.contains(j)]
        pre.contains(j) && !post.contains(j) && !unused.contains(j) implies exists|p: Key|
            pre.contains(p) && !post.contains(p) && #[trigger] pre.children_of(p).contains(j) by {
        if !mid.contains(j) {
            let p = choose|p: Key|
                pre.contains(p) && !mid.contains(p) && #[trigger] pre.children_of(p).contains(j);
            assert(pre.contains(p) && !post.contains(p) && pre.children_of(p).contains(j));
        } else {
            assert(j != unused[i]);
            let p = choose|p: Key|
                mid.contains(p) && !post.contains(p) && #[trigger] mid.children_of(p).contains(j);
            assert(mid.spec_node(p) == pre.spec_node(p));
            assert(pre.children_of(p).contains(j));
            assert(pre.contains(p) && !post.contains(p));
        }
    }
    assert forall|j: Key|
        #![trigger pre.contains(j), post.contains(j)]
        pre.contains(j) && !post.contains(j) implies exists|u: int|
            0 <= u < unused.len() && j.sid() >= (#[trigger] unused[u]).sid() by {
        if !mid.contains(j) {
        } else {
            assert(j.sid() >= unused[i].sid());
        }
    }
}

/// Relinking the rendered node's children preserves structural
/// well-formedness, provided no surviving child of another node is among
/// the new children.
proof fn lemma_link_wf<C: Component>(
    pre: NodeLake<C>,
    post: NodeLake<C>,
    node_key: Key,
    new_nodes: Seq<Key>,
)
    requires
        pre.wf_core(),
        pre.data_ok(),
        pre.contains(node_key),
        post.cap() == pre.cap(),
        forall|j: Key| #[trigger] post.contains(j) == pre.contains(j),
        post.children_of(node_key) == new_nodes,
        post.parent_of(node_key) == pre.parent_of(node_key),
        forall|i: int|
            0 <= i < new_nodes.len() ==> pre.contains(#[trigger] new_nodes[i]) && node_key.sid()
                < new_nodes[i].sid(),
        forall|i: int|
            0 <= i < new_nodes.len() ==> post.parent_of(#[trigger] new_nodes[i]) == Some(node_key),
        forall|j: Key|
            pre.contains(j) && j != node_key && !new_nodes.contains(j)
                ==> #[trigger] post.spec_node(j) == pre.spec_node(j),
        forall|j: Key|
            pre.contains(j) ==> #[trigger] post.spec_node(j).data == pre.spec_node(j).data,
        forall|j: Key|
            pre.contains(j) && j != node_key ==> #[trigger] post.children_of(j) == pre.children_of(
                j,
            ),
        forall|p: Key, ci: int, i: int|
            pre.contains(p) && p != node_key && 0 <= ci < pre.children_of(p).len() && 0 <= i
                < new_nodes.len() && pre.contains(#[trigger] pre.children_of(p)[ci])
                ==> pre.children_of(p)[ci] != #[trigger] new_nodes[i],
    ensures
        post.wf_core(),
        post.data_ok(),
{
    assert forall|p: Key, i: int|
        post.contains(p) && 0 <= i < post.children_of(p).len() implies (
    #[trigger] post.children_of(p)[i]).sid() < post.cap() by {
        if p == node_key {
            assert(pre.contains(new_nodes[i]));
        } else {
            assert(post.children_of(p) == pre.children_of(p));
        }
    }
    assert forall|j: Key|
        post.contains(j) && (#[trigger] post.parent_of(j)).is_some() implies post.parent_of(
        j,
    ).unwrap().sid() < j.sid() by {
        if new_nodes.contains(j) {
            let i = choose|i: int| 0 <= i < new_nodes.len() && new_nodes[i] == j;
            assert(post.parent_of(new_nodes[i]) == Some(node_key));
            assert(node_key.sid() < new_nodes[i].sid());
        } else if j == node_key {
            assert(post.parent_of(j) == pre.parent_of(j));
            assert(pre.contains(j) && (pre.parent_of(j)).is_some() ==> pre.parent_of(
                j,
            ).unwrap().sid() < j.sid());
        } else {
            assert(post.spec_node(j) == pre.spec_node(j));
            assert(pre.contains(j) && (pre.parent_of(j)).is_some() ==> pre.parent_of(
                j,
            ).unwrap().sid() < j.sid());
        }
    }
    assert forall|p: Key, i: int|
        post.contains(p) && 0 <= i < post.children_of(p).len() && post.contains(
            #[trigger] post.children_of(p)[i],
        ) implies post.parent_of(post.children_of(p)[i]) == Some(p) by {
        if p == node_key {
            assert(post.children_of(p)[i] == new_nodes[i]);
        } else {
            assert(post.children_of(p) == pre.children_of(p));
            let c = pre.children_of(p)[i];
            assert forall|ii: int| 0 <= ii < new_nodes.len() implies c != #[trigger] new_nodes[ii] by {}
            assert(!new_nodes.contains(c));
            if c == node_key {
                assert(pre.parent_of(c) == Some(p));
                assert(post.parent_of(node_key) == pre.parent_of(node_key));
            } else {
                assert(post.spec_node(c) == pre.spec_node(c));
                assert(pre.parent_of(c) == Some(p));
            }
        }
    }
    assert forall|j: Key| post.contains(j) implies #[trigger] post.has_data(j) by {
        assert(pre.contains(j));
        assert(pre.has_data(j));
        assert(post.spec_node(j).data == pre.spec_node(j).data);
    }
}

} // verus!
