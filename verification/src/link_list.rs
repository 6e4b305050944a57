//! The sorted bucket map: a fixed array of buckets, each heading a sorted
//! singly linked list of nodes, over the reclamation engine. Every
//! operation enters a protected section, walks its bucket by successor
//! fields, performs at most one compare-and-swap to splice a node in or
//! out, hands removed nodes to the engine, and leaves.

use vstd::prelude::*;

use crate::hyaline::Handle;
use crate::hyaline::distinct;
use crate::hyaline::MemoryTracker;
use crate::hyaline::MyAlloc;
use crate::hyaline::NodeView;
use crate::hyaline::linked;

verus! {

broadcast use vstd::std_specs::vec::axiom_spec_len;

/// The stable 64-bit hash: Fibonacci multiplicative hashing.
#[verifier::opaque]
pub open spec fn hash_u64(k: u64) -> u64 {
    ((k as int * 0x9E37_79B9_7F4A_7C15) % 0x1_0000_0000_0000_0000) as u64
}

/// The bucket that key `k` falls in among `b` buckets.
pub open spec fn bucket_of(k: u64, b: int) -> int
    recommends
        b > 0,
{
    hash_u64(k) as int % b
}

/// Whether some node of chain `c` carries key `k` in store `s`.
pub open spec fn chain_has_key<V>(s: Map<u64, NodeView<V>>, c: Seq<u64>, k: u64) -> bool {
    exists|i: int| 0 <= i < c.len() && #[trigger] s[c[i]].key == k
}

/// The position of the node of chain `c` carrying key `k`.
pub open spec fn key_index<V>(s: Map<u64, NodeView<V>>, c: Seq<u64>, k: u64) -> int {
    choose|i: int| 0 <= i < c.len() && #[trigger] s[c[i]].key == k
}

/// The payload stored under key `k` in chain `c`.
pub open spec fn chain_value<V>(s: Map<u64, NodeView<V>>, c: Seq<u64>, k: u64) -> V {
    s[c[key_index(s, c, k)]].value
}

/// One well-formed bucket: a chain from the bucket head, strictly
/// ascending in key, every key hashing to this bucket, and every node
/// live (its retirement count unused, at zero).
pub open spec fn chain_ok<V>(
    s: Map<u64, NodeView<V>>,
    c: Seq<u64>,
    head: u64,
    b: int,
    nb: int,
) -> bool {
    &&& linked(s, c, head, 0)
    &&& (forall|i: int, j: int| 0 <= i < j < c.len() ==> s[c[i]].key < s[c[j]].key)
    &&& (forall|i: int| 0 <= i < c.len() ==> bucket_of(s[#[trigger] c[i]].key, nb) == b)
    &&& (forall|i: int| 0 <= i < c.len() ==> s[#[trigger] c[i]].nref == 0)
}

/// In a strictly sorted chain, the node found at a position is the one
/// and only witness for its key.
proof fn lemma_sorted_key_index<V>(s: Map<u64, NodeView<V>>, c: Seq<u64>, i: int)
    requires
        forall|a: int, b: int| 0 <= a < b < c.len() ==> s[c[a]].key < s[c[b]].key,
        0 <= i < c.len(),
    ensures
        chain_has_key(s, c, s[c[i]].key),
        key_index(s, c, s[c[i]].key) == i,
        chain_value(s, c, s[c[i]].key) == s[c[i]].value,
{
    let k = s[c[i]].key;
    assert(chain_has_key(s, c, k)) by {
        assert(0 <= i < c.len() && s[c[i]].key == k);
    }
    let i2 = key_index(s, c, k);
    assert(0 <= i2 < c.len() && s[c[i2]].key == k);
    if i2 < i {
        assert(s[c[i2]].key < s[c[i]].key);
    } else if i2 > i {
        assert(s[c[i]].key < s[c[i2]].key);
    }
}

/// A walk that passed only smaller keys and stopped at a larger one (or
/// at the end) has seen the whole story: the key is absent.
proof fn lemma_walk_miss<V>(s: Map<u64, NodeView<V>>, c: Seq<u64>, k: u64, pos: int)
    requires
        forall|a: int, b: int| 0 <= a < b < c.len() ==> s[c[a]].key < s[c[b]].key,
        0 <= pos <= c.len(),
        forall|i: int| 0 <= i < pos ==> s[#[trigger] c[i]].key < k,
        pos < c.len() ==> s[c[pos]].key > k,
    ensures
        !chain_has_key(s, c, k),
{
    if chain_has_key(s, c, k) {
        let i = key_index(s, c, k);
        assert(0 <= i < c.len() && s[c[i]].key == k);
        if i >= pos {
            if i == pos {
            } else {
                assert(s[c[pos]].key < s[c[i]].key);
            }
        }
    }
}

/// Two chains of a well-formed map share no address: a node's key hashes
/// to exactly one bucket.
proof fn lemma_chains_disjoint<V>(
    s: Map<u64, NodeView<V>>,
    chains: Seq<Seq<u64>>,
    heads: Seq<u64>,
    nb: int,
    b1: int,
    i1: int,
    b2: int,
    i2: int,
)
    requires
        nb >= 1,
        chains.len() == nb,
        heads.len() == nb,
        forall|b: int| 0 <= b < nb ==> chain_ok(s, #[trigger] chains[b], heads[b], b, nb),
        0 <= b1 < nb,
        0 <= i1 < chains[b1].len(),
        0 <= b2 < nb,
        0 <= i2 < chains[b2].len(),
        chains[b1][i1] == chains[b2][i2],
    ensures
        b1 == b2,
        i1 == i2,
{
    let a = chains[b1][i1];
    assert(bucket_of(s[a].key, nb) == b1);
    assert(bucket_of(s[a].key, nb) == b2);
    if i1 != i2 {
        assert(b1 == b2);
        if i1 < i2 {
            assert(s[chains[b1][i1]].key < s[chains[b1][i2]].key);
        } else {
            assert(s[chains[b1][i2]].key < s[chains[b1][i1]].key);
        }
    }
}

/// Two stores that agree on a sorted chain's members tell the same story
/// about it: same keys present, same payloads.
proof fn lemma_chain_agree<V>(
    s1: Map<u64, NodeView<V>>,
    s2: Map<u64, NodeView<V>>,
    c: Seq<u64>,
    k: u64,
)
    requires
        forall|a: int, b: int| 0 <= a < b < c.len() ==> s1[c[a]].key < s1[c[b]].key,
        forall|i: int|
            0 <= i < c.len() ==> s2.contains_key(#[trigger] c[i]) && s2[c[i]] == s1[c[i]],
    ensures
        chain_has_key(s1, c, k) == chain_has_key(s2, c, k),
        chain_has_key(s1, c, k) ==> chain_value(s1, c, k) == chain_value(s2, c, k),
{
    if chain_has_key(s1, c, k) {
        let i = key_index(s1, c, k);
        assert(0 <= i < c.len() && s1[c[i]].key == k);
        assert(s2[c[i]].key == k);
        assert(chain_has_key(s2, c, k));
        lemma_sorted_key_index(s1, c, i);
        assert(forall|a: int, b: int| 0 <= a < b < c.len() ==> s2[c[a]].key < s2[c[b]].key);
        lemma_sorted_key_index(s2, c, i);
    }
    if chain_has_key(s2, c, k) {
        let i = key_index(s2, c, k);
        assert(0 <= i < c.len() && s2[c[i]].key == k);
        assert(s1[c[i]].key == k);
        assert(chain_has_key(s1, c, k));
    }
}

/// A well-formed bucket stays well-formed under a store change that keeps
/// each of its members intact.
proof fn lemma_chain_ok_agree<V>(
    s1: Map<u64, NodeView<V>>,
    s2: Map<u64, NodeView<V>>,
    c: Seq<u64>,
    head: u64,
    b: int,
    nb: int,
)
    requires
        chain_ok(s1, c, head, b, nb),
        forall|i: int|
            0 <= i < c.len() ==> s2.contains_key(#[trigger] c[i]) && s2[c[i]] == s1[c[i]],
    ensures
        chain_ok(s2, c, head, b, nb),
{
}

/// The keys read off one bucket chain are strictly ascending, and each
/// is carried by a chain node, hashed to this bucket.
#[verifier::rlimit(100)]
#[verifier::spinoff_prover]
proof fn lemma_bucket_keys_sound<V>(
    s0: Map<u64, NodeView<V>>,
    c: Seq<u64>,
    ks: Seq<u64>,
    head: u64,
    nb: int,
    idx: int,
)
    requires
        nb >= 1,
        0 <= idx < nb,
        chain_ok(s0, c, head, idx, nb),
        ks.len() == c.len(),
        forall|i: int| 0 <= i < c.len() ==> ks[i] == s0[#[trigger] c[i]].key,
    ensures
        forall|i: int, j: int| 0 <= i < j < ks.len() ==> ks[i] < ks[j],
        forall|i: int|
            0 <= i < ks.len() ==> chain_has_key(s0, c, #[trigger] ks[i]) && bucket_of(ks[i], nb)
                == idx,
    decreases 0int,
{
    assert forall|i: int, j: int| 0 <= i < j < ks.len() implies ks[i] < ks[j] by {
        assert(ks[i] == s0[c[i]].key && ks[j] == s0[c[j]].key);
        assert(s0[c[i]].key < s0[c[j]].key);
    }
    assert forall|i: int|
        0 <= i < ks.len() implies chain_has_key(s0, c, #[trigger] ks[i]) && bucket_of(ks[i], nb)
        == idx by {
        assert(0 <= i < c.len() && s0[c[i]].key == ks[i]);
        assert(bucket_of(s0[c[i]].key, nb) == idx);
    }
}

/// Every key of the map that hashes to this bucket is read off its chain.
#[verifier::rlimit(100)]
#[verifier::spinoff_prover]
proof fn lemma_bucket_keys_complete<V>(
    m: SortedUnorderedMap<V>,
    s0: Map<u64, NodeView<V>>,
    c: Seq<u64>,
    ks: Seq<u64>,
    nb: int,
    idx: int,
)
    requires
        m.mem.contents() == s0,
        nb == m.bucket_count as int,
        nb >= 1,
        0 <= idx < nb,
        m.chains@[idx] == c,
        chain_ok(s0, c, m.buckets@[idx], idx, nb),
        ks.len() == c.len(),
        forall|i: int| 0 <= i < c.len() ==> ks[i] == s0[#[trigger] c[i]].key,
    ensures
        forall|k: u64| m@.contains_key(k) && bucket_of(k, nb) == idx ==> ks.contains(k),
{
    assert forall|k: u64| m@.contains_key(k) && bucket_of(k, nb) == idx implies ks.contains(k) by {
        assert(chain_has_key(s0, c, k));
        let i = key_index(s0, c, k);
        assert(0 <= i < c.len() && s0[c[i]].key == k);
        assert(ks[i] == k);
    }
}

/// Splicing a fresh node in at the insertion point of a sorted walk keeps
/// the bucket well-formed, adds exactly the new key, and leaves every
/// other key with its payload.
#[verifier::rlimit(100)]
#[verifier::spinoff_prover]
proof fn lemma_splice_in<V>(
    s0: Map<u64, NodeView<V>>,
    slink: Map<u64, NodeView<V>>,
    c: Seq<u64>,
    c2: Seq<u64>,
    node: u64,
    pos: int,
    key: u64,
    head: u64,
    head2: u64,
    b: int,
    nb: int,
)
    requires
        chain_ok(s0, c, head, b, nb),
        0 <= pos <= c.len(),
        forall|i: int| 0 <= i < pos ==> s0[#[trigger] c[i]].key < key,
        pos < c.len() ==> s0[c[pos]].key > key,
        !s0.contains_key(node),
        node != 0,
        bucket_of(key, nb) == b,
        slink.dom() == s0.dom().insert(node),
        slink[node].key == key && slink[node].nref == 0 && slink[node].next == (if pos < c.len() {
            c[pos]
        } else {
            0
        }),
        forall|a: u64|
            #![trigger s0.contains_key(a)]
            s0.contains_key(a) && (pos == 0 || a != c[pos - 1]) ==> slink[a] == s0[a],
        pos > 0 ==> slink[c[pos - 1]].key == s0[c[pos - 1]].key && slink[c[pos - 1]].value == s0[c[
            pos - 1]].value && slink[c[pos - 1]].nref == s0[c[pos - 1]].nref && slink[c[pos
            - 1]].next == node,
        c2 == c.take(pos) + seq![node] + c.skip(pos),
        head2 == (if pos == 0 {
            node
        } else {
            head
        }),
    ensures
        chain_ok(slink, c2, head2, b, nb),
        chain_has_key(slink, c2, key),
        chain_value(slink, c2, key) == slink[node].value,
{
    assert(c2.len() == c.len() + 1);
    assert forall|i: int| 0 <= i < c2.len() implies #[trigger] c2[i] == (if i < pos {
        c[i]
    } else if i == pos {
        node
    } else {
        c[i - 1]
    }) by {}
    assert forall|i: int| 0 <= i < c.len() implies #[trigger] c[i] != node by {
        assert(s0.contains_key(c[i]));
    }
    assert(distinct(c)) by {
        assert forall|a: int, bb: int| 0 <= a < bb < c.len() implies c[a] != c[bb] by {
            assert(s0[c[a]].key < s0[c[bb]].key);
        }
    }
    // Links.
    assert forall|i: int| 0 <= i < c2.len() implies c2[i] != 0 && slink.contains_key(c2[i]) by {
        if i != pos {
            let iold: int = if i < pos {
                i
            } else {
                i - 1
            };
            assert(c2[i] == c[iold]);
            assert(s0.contains_key(c[iold]));
        }
    }
    assert forall|i: int| 0 <= i < c2.len() - 1 implies slink[#[trigger] c2[i]].next == c2[i
        + 1] by {
        if i < pos - 1 {
            assert(c2[i] == c[i] && c2[i + 1] == c[i + 1]);
            assert(slink[c[i]] == s0[c[i]]);
        } else if i == pos - 1 {
            assert(c2[i] == c[pos - 1] && c2[i + 1] == node);
        } else if i == pos {
            assert(c2[i] == node && c2[i + 1] == c[pos]);
        } else {
            assert(c2[i] == c[i - 1] && c2[i + 1] == c[i]);
            assert(c[i - 1] != c[pos - 1] || pos == 0);
            assert(slink[c[i - 1]] == s0[c[i - 1]]);
        }
    }
    if c2.len() > 0 {
        assert(slink[c2[c2.len() - 1]].next == 0) by {
            if pos == c.len() {
                assert(c2[c2.len() - 1] == node);
            } else {
                assert(c2[c2.len() - 1] == c[c.len() - 1]);
                assert(pos < c.len());
                if pos > 0 {
                    assert(c.len() - 1 != pos - 1 || c.len() == pos);
                }
                assert(slink[c[c.len() - 1]].next == s0[c[c.len() - 1]].next);
            }
        }
    }
    assert(head2 == c2[0]);
    // Keys: strictly ascending across the splice.
    assert forall|i: int, jj: int| 0 <= i < jj < c2.len() implies slink[#[trigger] c2[i]].key
        < slink[#[trigger] c2[jj]].key by {
        let ki = if i < pos {
            s0[c[i]].key
        } else if i == pos {
            key
        } else {
            s0[c[i - 1]].key
        };
        let kj = if jj < pos {
            s0[c[jj]].key
        } else if jj == pos {
            key
        } else {
            s0[c[jj - 1]].key
        };
        assert(slink[c2[i]].key == ki);
        assert(slink[c2[jj]].key == kj);
        if i < pos && jj > pos {
            assert(s0[c[i]].key < key);
            if jj - 1 == pos {
                assert(kj == s0[c[pos]].key);
            }
            assert(key < s0[c[jj - 1]].key);
        } else if i == pos && jj > pos {
            assert(key < s0[c[jj - 1]].key);
        }
    }
    assert forall|i: int| 0 <= i < c2.len() implies bucket_of(
        slink[#[trigger] c2[i]].key,
        nb,
    ) == b && slink[c2[i]].nref == 0 by {
        if i != pos {
            let iold: int = if i < pos {
                i
            } else {
                i - 1
            };
            assert(c2[i] == c[iold]);
            assert(slink[c[iold]].key == s0[c[iold]].key && slink[c[iold]].nref == s0[c[
                iold]].nref);
        }
    }
    assert(chain_ok(slink, c2, head2, b, nb));
    // The new key is present, at the splice position.
    lemma_sorted_key_index(slink, c2, pos);
}

/// After the splice, every other key reads exactly as before.
#[verifier::rlimit(100)]
#[verifier::spinoff_prover]
proof fn lemma_splice_in_keys<V>(
    s0: Map<u64, NodeView<V>>,
    slink: Map<u64, NodeView<V>>,
    c: Seq<u64>,
    c2: Seq<u64>,
    node: u64,
    pos: int,
    key: u64,
    head: u64,
    head2: u64,
    b: int,
    nb: int,
)
    requires
        chain_ok(s0, c, head, b, nb),
        0 <= pos <= c.len(),
        forall|i: int| 0 <= i < pos ==> s0[#[trigger] c[i]].key < key,
        pos < c.len() ==> s0[c[pos]].key > key,
        !s0.contains_key(node),
        node != 0,
        bucket_of(key, nb) == b,
        slink.dom() == s0.dom().insert(node),
        slink[node].key == key && slink[node].nref == 0 && slink[node].next == (if pos < c.len() {
            c[pos]
        } else {
            0
        }),
        forall|a: u64|
            #![trigger s0.contains_key(a)]
            s0.contains_key(a) && (pos == 0 || a != c[pos - 1]) ==> slink[a] == s0[a],
        pos > 0 ==> slink[c[pos - 1]].key == s0[c[pos - 1]].key && slink[c[pos - 1]].value == s0[c[
            pos - 1]].value && slink[c[pos - 1]].nref == s0[c[pos - 1]].nref && slink[c[pos
            - 1]].next == node,
        c2 == c.take(pos) + seq![node] + c.skip(pos),
        head2 == (if pos == 0 {
            node
        } else {
            head
        }),
        chain_ok(slink, c2, head2, b, nb),
    ensures
        forall|k2: u64|
            k2 != key ==> #[trigger] chain_has_key(slink, c2, k2) == chain_has_key(s0, c, k2),
        forall|k2: u64|
            k2 != key && chain_has_key(s0, c, k2) ==> #[trigger] chain_value(slink, c2, k2)
                == chain_value(s0, c, k2),
{
    assert(c2.len() == c.len() + 1);
    assert forall|i: int| 0 <= i < c2.len() implies #[trigger] c2[i] == (if i < pos {
        c[i]
    } else if i == pos {
        node
    } else {
        c[i - 1]
    }) by {}
    assert forall|i: int| 0 <= i < c.len() implies #[trigger] c[i] != node by {
        assert(s0.contains_key(c[i]));
    }
    assert(slink[c2[pos]].key == key);
    // The new key is present, at the splice position.
    lemma_sorted_key_index(slink, c2, pos);
    // Every other key reads as before.
    assert forall|k2: u64| k2 != key implies #[trigger] chain_has_key(slink, c2, k2)
        == chain_has_key(s0, c, k2) by {
        if chain_has_key(slink, c2, k2) {
            let i = key_index(slink, c2, k2);
            assert(0 <= i < c2.len() && slink[c2[i]].key == k2);
            assert(i != pos);
            let iold: int = if i < pos {
                i
            } else {
                i - 1
            };
            assert(c2[i] == c[iold]);
            assert(s0[c[iold]].key == k2);
            assert(chain_has_key(s0, c, k2));
        }
        if chain_has_key(s0, c, k2) {
            let i = key_index(s0, c, k2);
            assert(0 <= i < c.len() && s0[c[i]].key == k2);
            let inew: int = if i < pos {
                i
            } else {
                i + 1
            };
            assert(c2[inew] == c[i]);
            assert(slink[c2[inew]].key == k2);
            assert(chain_has_key(slink, c2, k2));
        }
    }
    assert forall|k2: u64| k2 != key && chain_has_key(s0, c, k2) implies #[trigger] chain_value(
        slink,
        c2,
        k2,
    ) == chain_value(s0, c, k2) by {
        let i = key_index(s0, c, k2);
        assert(0 <= i < c.len() && s0[c[i]].key == k2);
        lemma_sorted_key_index(s0, c, i);
        let inew: int = if i < pos {
            i
        } else {
            i + 1
        };
        assert(c2[inew] == c[i]);
        assert(slink[c2[inew]].key == k2 && slink[c2[inew]].value == s0[c[i]].value);
        lemma_sorted_key_index(slink, c2, inew);
    }
}

/// After one splice-in every bucket chain is still well-formed.
#[verifier::rlimit(100)]
proof fn lemma_insert_chains_ok<V>(
    s0: Map<u64, NodeView<V>>,
    slink: Map<u64, NodeView<V>>,
    chains0: Seq<Seq<u64>>,
    heads0: Seq<u64>,
    chains2: Seq<Seq<u64>>,
    heads2: Seq<u64>,
    nb: int,
    idx: int,
    c2: Seq<u64>,
    node: u64,
    pos: int,
)
    requires
        nb >= 1,
        chains0.len() == nb,
        heads0.len() == nb,
        0 <= idx < nb,
        forall|b: int| 0 <= b < nb ==> chain_ok(s0, #[trigger] chains0[b], heads0[b], b, nb),
        0 <= pos <= chains0[idx].len(),
        !s0.contains_key(node),
        slink.dom() == s0.dom().insert(node),
        forall|a: u64|
            #![trigger s0.contains_key(a)]
            s0.contains_key(a) && (pos == 0 || a != chains0[idx][pos - 1]) ==> slink[a] == s0[a],
        chains2 == chains0.update(idx, c2),
        heads2 == heads0.update(
            idx,
            (if pos == 0 {
                node
            } else {
                heads0[idx]
            }),
        ),
        chain_ok(slink, c2, heads2[idx], idx, nb),
    ensures
        forall|b: int| 0 <= b < nb ==> chain_ok(slink, #[trigger] chains2[b], heads2[b], b, nb),
{
    let c = chains0[idx];
    assert forall|b: int| 0 <= b < nb implies chain_ok(
        slink,
        #[trigger] chains2[b],
        heads2[b],
        b,
        nb,
    ) by {
        if b != idx {
            assert forall|i: int|
                0 <= i < chains0[b].len() implies slink.contains_key(#[trigger] chains0[b][i])
                && slink[chains0[b][i]] == s0[chains0[b][i]] by {
                let a = chains0[b][i];
                assert(s0.contains_key(a));
                if pos > 0 && a == c[pos - 1] {
                    lemma_chains_disjoint(s0, chains0, heads0, nb, b, i, idx, pos - 1);
                }
                assert(slink[a] == s0[a]);
            }
            lemma_chain_ok_agree(s0, slink, chains0[b], heads0[b], b, nb);
        }
    }
}

/// After one splice-in every allocated node still stands in a chain.
#[verifier::rlimit(100)]
proof fn lemma_insert_witness<V>(
    s0: Map<u64, NodeView<V>>,
    slink: Map<u64, NodeView<V>>,
    chains0: Seq<Seq<u64>>,
    chains2: Seq<Seq<u64>>,
    idx: int,
    c2: Seq<u64>,
    node: u64,
    pos: int,
)
    requires
        0 <= idx < chains0.len(),
        forall|a: u64|
            #[trigger] s0.contains_key(a) ==> exists|b: int, i: int|
                0 <= b < chains0.len() && 0 <= i < chains0[b].len() && #[trigger] chains0[b][i]
                    == a,
        slink.dom() == s0.dom().insert(node),
        0 <= pos <= chains0[idx].len(),
        c2 == chains0[idx].take(pos) + seq![node] + chains0[idx].skip(pos),
        chains2 == chains0.update(idx, c2),
    ensures
        forall|a: u64|
            #[trigger] slink.contains_key(a) ==> exists|b: int, i: int|
                0 <= b < chains2.len() && 0 <= i < chains2[b].len() && #[trigger] chains2[b][i]
                    == a,
{
    let c = chains0[idx];
    assert forall|a: u64| #[trigger] slink.contains_key(a) implies exists|b: int, i: int|
        0 <= b < chains2.len() && 0 <= i < chains2[b].len() && #[trigger] chains2[b][i] == a by {
        if a == node {
            assert(c2[pos] == node);
            assert(chains2[idx][pos] == a);
        } else {
            assert(s0.dom().contains(a));
            assert(s0.contains_key(a));
            let (b, i) = choose|b: int, i: int|
                0 <= b < chains0.len() && 0 <= i < chains0[b].len() && #[trigger] chains0[b][i]
                    == a;
            if b != idx {
                assert(chains2[b][i] == a);
            } else {
                let inew: int = if i < pos {
                    i
                } else {
                    i + 1
                };
                assert(c2[inew] == c[i]);
                assert(chains2[idx][inew] == a);
            }
        }
    }
}

/// After one splice-in the buckets hold the old keys plus the new one,
/// each with its payload as before.
#[verifier::rlimit(100)]
proof fn lemma_insert_keys<V>(
    s0: Map<u64, NodeView<V>>,
    slink: Map<u64, NodeView<V>>,
    chains0: Seq<Seq<u64>>,
    heads0: Seq<u64>,
    chains2: Seq<Seq<u64>>,
    heads2: Seq<u64>,
    nb: int,
    idx: int,
    c2: Seq<u64>,
    node: u64,
    pos: int,
    key: u64,
)
    requires
        nb >= 1,
        chains0.len() == nb,
        heads0.len() == nb,
        0 <= idx < nb,
        forall|b: int| 0 <= b < nb ==> chain_ok(s0, #[trigger] chains0[b], heads0[b], b, nb),
        forall|a: u64|
            #[trigger] s0.contains_key(a) ==> exists|b: int, i: int|
                0 <= b < chains0.len() && 0 <= i < chains0[b].len() && #[trigger] chains0[b][i]
                    == a,
        0 <= pos <= chains0[idx].len(),
        forall|i: int| 0 <= i < pos ==> s0[#[trigger] chains0[idx][i]].key < key,
        pos < chains0[idx].len() ==> s0[chains0[idx][pos]].key > key,
        !s0.contains_key(node),
        node != 0,
        bucket_of(key, nb) == idx,
        slink.dom() == s0.dom().insert(node),
        slink[node].key == key && slink[node].nref == 0 && slink[node].next == (if pos < chains0[
            idx].len() {
            chains0[idx][pos]
        } else {
            0
        }),
        forall|a: u64|
            #![trigger s0.contains_key(a)]
            s0.contains_key(a) && (pos == 0 || a != chains0[idx][pos - 1]) ==> slink[a] == s0[a],
        pos > 0 ==> slink[chains0[idx][pos - 1]].key == s0[chains0[idx][pos - 1]].key
            && slink[chains0[idx][pos - 1]].value == s0[chains0[idx][pos - 1]].value
            && slink[chains0[idx][pos - 1]].nref == s0[chains0[idx][pos - 1]].nref
            && slink[chains0[idx][pos - 1]].next == node,
        c2 == chains0[idx].take(pos) + seq![node] + chains0[idx].skip(pos),
        chains2 == chains0.update(idx, c2),
        heads2 == heads0.update(
            idx,
            (if pos == 0 {
                node
            } else {
                heads0[idx]
            }),
        ),
        chain_has_key(slink, c2, key),
        chain_value(slink, c2, key) == slink[node].value,
        forall|k2: u64|
            k2 != key ==> #[trigger] chain_has_key(slink, c2, k2) == chain_has_key(
                s0,
                chains0[idx],
                k2,
            ),
        forall|k2: u64|
            k2 != key && chain_has_key(s0, chains0[idx], k2) ==> #[trigger] chain_value(
                slink,
                c2,
                k2,
            ) == chain_value(s0, chains0[idx], k2),
    ensures
        forall|k2: u64|
            #![trigger chain_has_key(slink, chains2[bucket_of(k2, nb)], k2)]
            0 <= bucket_of(k2, nb) < nb ==> chain_has_key(slink, chains2[bucket_of(k2, nb)], k2)
                == (k2 == key || chain_has_key(s0, chains0[bucket_of(k2, nb)], k2)),
        chain_value(slink, chains2[idx], key) == slink[node].value,
        forall|k2: u64|
            #![trigger chain_value(slink, chains2[bucket_of(k2, nb)], k2)]
            k2 != key && 0 <= bucket_of(k2, nb) < nb && chain_has_key(
                s0,
                chains0[bucket_of(k2, nb)],
                k2,
            ) ==> chain_value(slink, chains2[bucket_of(k2, nb)], k2) == chain_value(
                s0,
                chains0[bucket_of(k2, nb)],
                k2,
            ),
{
    let c = chains0[idx];
    // Members of every other bucket are untouched.
    assert forall|b: int, i: int|
        0 <= b < nb && b != idx && 0 <= i < chains0[b].len() implies slink.contains_key(
        #[trigger] chains0[b][i],
    ) && slink[chains0[b][i]] == s0[chains0[b][i]] by {
        let a = chains0[b][i];
        assert(s0.contains_key(a));
        if pos > 0 && a == c[pos - 1] {
            lemma_chains_disjoint(s0, chains0, heads0, nb, b, i, idx, pos - 1);
        }
        assert(slink[a] == s0[a]);
    }
    assert forall|k2: u64| 0 <= bucket_of(k2, nb) < nb implies #[trigger] chain_has_key(
        slink,
        chains2[bucket_of(k2, nb)],
        k2,
    ) == (k2 == key || chain_has_key(s0, chains0[bucket_of(k2, nb)], k2)) by {
        let b2 = bucket_of(k2, nb);
        if b2 == idx {
            if k2 == key {
                assert(chain_has_key(slink, c2, key));
            }
        } else {
            lemma_chain_agree(s0, slink, chains0[b2], k2);
            if k2 == key {
                // A key hashing elsewhere cannot sit in this bucket.
                if chain_has_key(s0, chains0[b2], k2) {
                    let i = key_index(s0, chains0[b2], k2);
                    assert(bucket_of(s0[chains0[b2][i]].key, nb) == b2);
                }
            }
        }
    }
    assert forall|k2: u64|
        k2 != key && 0 <= bucket_of(k2, nb) < nb && chain_has_key(
            s0,
            chains0[bucket_of(k2, nb)],
            k2,
        ) implies #[trigger] chain_value(slink, chains2[bucket_of(k2, nb)], k2) == chain_value(
        s0,
        chains0[bucket_of(k2, nb)],
        k2,
    ) by {
        let b2 = bucket_of(k2, nb);
        if b2 != idx {
            lemma_chain_agree(s0, slink, chains0[b2], k2);
        }
    }
}

/// The sorted bucket map.
pub struct SortedUnorderedMap<V> {
    tracker: MemoryTracker,
    mem: MyAlloc<V>,
    buckets: Vec<u64>,
    handles: Vec<Handle>,
    bucket_count: usize,
    chains: Ghost<Seq<Seq<u64>>>,
}

impl<V> SortedUnorderedMap<V> {
    /// The number of buckets, fixed at construction.
    pub closed spec fn spec_bucket_count(self) -> int {
        self.bucket_count as int
    }

    /// The number of per-thread handle slots, fixed at construction.
    pub closed spec fn spec_thread_count(self) -> int {
        self.handles@.len() as int
    }

    /// How many node blocks the allocator has ever handed out.
    pub closed spec fn spec_arena_len(self) -> nat {
        self.mem.slot_count()
    }

    /// Well-formedness. At rest - outside any operation - no reader is
    /// inside a protected section, the retirement list is empty (every
    /// retired node has been freed), every bucket chain is sorted and
    /// hashed to its place, and no allocated node stands outside a chain.
    pub closed spec fn wf(self) -> bool {
        &&& self.bucket_count >= 1
        &&& self.buckets@.len() == self.bucket_count
        &&& self.chains@.len() == self.bucket_count
        &&& self.handles@.len() >= 1
        &&& self.tracker.href() == 0
        &&& self.tracker.hptr() == 0
        &&& self.tracker.rlist() == Seq::<u64>::empty()
        &&& (forall|b: int|
            0 <= b < self.bucket_count ==> chain_ok(
                self.mem.contents(),
                #[trigger] self.chains@[b],
                self.buckets@[b],
                b,
                self.bucket_count as int,
            ))
        &&& (forall|a: u64|
            #[trigger] self.mem.contents().contains_key(a) ==> exists|b: int, i: int|
                0 <= b < self.chains@.len() && 0 <= i < self.chains@[b].len()
                    && #[trigger] self.chains@[b][i] == a)
    }

    /// The map's meaning: the keys held in the bucket chains, each with
    /// its stored payload.
    pub closed spec fn view(self) -> Map<u64, V> {
        Map::new(
            |k: u64|
                chain_has_key(
                    self.mem.contents(),
                    self.chains@[bucket_of(k, self.bucket_count as int)],
                    k,
                ),
            |k: u64|
                chain_value(
                    self.mem.contents(),
                    self.chains@[bucket_of(k, self.bucket_count as int)],
                    k,
                ),
        )
    }

    fn hash(&self, key: u64) -> (idx: usize)
        requires
            self.spec_bucket_count() >= 1,
        ensures
            idx as int == bucket_of(key, self.spec_bucket_count()),
            idx < self.spec_bucket_count(),
    {
        let h = key.wrapping_mul(0x9E37_79B9_7F4A_7C15);
        proof {
            reveal(hash_u64);
            assert(h == hash_u64(key));
        }
        (h % (self.bucket_count as u64)) as usize
    }

    pub fn new(bucket_count: usize, num_threads: i32) -> (m: Self)
        requires
            bucket_count >= 1,
            num_threads >= 1,
        ensures
            m.wf(),
            m@ == Map::<u64, V>::empty(),
            m.spec_bucket_count() == bucket_count,
            m.spec_thread_count() == num_threads as int,
            m.spec_arena_len() == 0,
    {
        let tracker = MemoryTracker::new();
        let mem = MyAlloc::<V>::new();
        let mut buckets: Vec<u64> = Vec::new();
        let mut i: usize = 0;
        while i < bucket_count
            invariant
                i <= bucket_count,
                buckets@.len() == i,
                forall|b: int| 0 <= b < i ==> buckets@[b] == 0,
            decreases bucket_count - i,
        {
            buckets.push(0);
            i = i + 1;
        }
        let mut handles: Vec<Handle> = Vec::new();
        let mut t: i32 = 0;
        while t < num_threads
            invariant
                0 <= t <= num_threads,
                handles@.len() == t as int,
            decreases num_threads - t,
        {
            handles.push(Handle::new(0, 0));
            t = t + 1;
        }
        let m = SortedUnorderedMap {
            tracker,
            mem,
            buckets,
            handles,
            bucket_count,
            chains: Ghost(Seq::new(bucket_count as nat, |b: int| Seq::<u64>::empty())),
        };
        proof {
            assert(m.wf());
            assert(m@ =~= Map::<u64, V>::empty());
        }
        m
    }

    /// Looks the key up and hands back a copy of its payload. The walk
    /// runs inside a protected section and stops early once the keys
    /// passed the one sought.
    #[verifier::rlimit(100)]
    pub fn get(&mut self, key: u64, tid: i32) -> (r: Option<V>) where V: Clone
        requires
            old(self).wf(),
            0 <= tid < old(self).spec_thread_count(),
        ensures
            final(self).wf(),
            final(self)@ == old(self)@,
            final(self).spec_bucket_count() == old(self).spec_bucket_count(),
            final(self).spec_thread_count() == old(self).spec_thread_count(),
            final(self).spec_arena_len() == old(self).spec_arena_len(),
            (match r {
                Some(v) => old(self)@.contains_key(key) && cloned(old(self)@[key], v),
                None => !old(self)@.contains_key(key),
            }),
    {
        let ghost s0 = self.mem.contents();
        let h = self.tracker.enter();
        self.handles.set(tid as usize, h);
        let idx = self.hash(key);
        let ghost c = self.chains@[idx as int];
        let mut cur = self.buckets[idx];
        let ghost bhead = self.buckets@[idx as int];
        let ghost mut pos: int = 0;
        let mut found: Option<V> = None;
        let mut stop = false;
        while !stop && cur != 0
            invariant
                self.mem.contents() == s0,
                linked(s0, c, bhead, 0),
                forall|a: int, b: int| 0 <= a < b < c.len() ==> s0[c[a]].key < s0[c[b]].key,
                0 <= pos <= c.len(),
                cur == (if pos < c.len() {
                    c[pos]
                } else {
                    0
                }),
                forall|i: int| 0 <= i < pos ==> s0[#[trigger] c[i]].key < key,
                !stop ==> found is None,
                stop ==> (match found {
                    Some(v) => chain_has_key(s0, c, key) && cloned(chain_value(s0, c, key), v),
                    None => !chain_has_key(s0, c, key),
                }),
            decreases c.len() - pos, (if stop {
                0int
            } else {
                1int
            }),
        {
            let ck = self.mem.get_key(cur);
            if ck == key {
                found = Some(self.mem.clone_value(cur));
                proof {
                    lemma_sorted_key_index(s0, c, pos);
                }
                stop = true;
            } else if ck > key {
                proof {
                    lemma_walk_miss(s0, c, key, pos);
                }
                stop = true;
            } else {
                cur = self.mem.get_next(cur);
                proof {
                    pos = pos + 1;
                }
            }
        }
        proof {
            if !stop {
                assert(pos == c.len());
                lemma_walk_miss(s0, c, key, pos);
            }
        }
        let h2 = self.handles[tid as usize];
        self.tracker.leave_quiet(&mut self.mem, h2);
        proof {
            assert(self.wf());
            assert(self@ =~= old(self)@);
        }
        found
    }

    /// Inserts the key with its payload. Returns true when the key was
    /// absent and the node was spliced in; false on a duplicate, or when
    /// the one splice compare-and-swap loses its race - the loser's node,
    /// never linked, goes straight back to the allocator, and nothing is
    /// retired.
    #[verifier::rlimit(100)]
    #[verifier::spinoff_prover]
    pub fn insert(&mut self, key: u64, value: V, tid: i32) -> (r: bool)
        requires
            old(self).wf(),
            0 <= tid < old(self).spec_thread_count(),
            old(self).spec_arena_len() < usize::MAX,
        ensures
            final(self).wf(),
            r == !old(self)@.contains_key(key),
            final(self)@ == (if r {
                old(self)@.insert(key, value)
            } else {
                old(self)@
            }),
            final(self).spec_bucket_count() == old(self).spec_bucket_count(),
            final(self).spec_thread_count() == old(self).spec_thread_count(),
            final(self).spec_arena_len() <= old(self).spec_arena_len() + 1,
    {
        let ghost s0 = self.mem.contents();
        let ghost chains0 = self.chains@;
        let ghost heads0 = self.buckets@;
        let h = self.tracker.enter();
        self.handles.set(tid as usize, h);
        let idx = self.hash(key);
        let ghost c = self.chains@[idx as int];
        let ghost bhead = self.buckets@[idx as int];
        let mut prev_addr: u64 = 0;
        let mut cur = self.buckets[idx];
        let ghost mut pos: int = 0;
        let mut dup = false;
        let mut stop = false;
        while !stop && cur != 0
            invariant
                self.mem.contents() == s0,
                linked(s0, c, bhead, 0),
                forall|a: int, b: int| 0 <= a < b < c.len() ==> s0[c[a]].key < s0[c[b]].key,
                0 <= pos <= c.len(),
                cur == (if pos < c.len() {
                    c[pos]
                } else {
                    0
                }),
                prev_addr == (if pos == 0 {
                    0
                } else {
                    c[pos - 1]
                }),
                forall|i: int| 0 <= i < pos ==> s0[#[trigger] c[i]].key < key,
                !stop ==> !dup,
                dup ==> chain_has_key(s0, c, key),
                (stop && !dup) ==> (pos < c.len() && s0[c[pos]].key > key),
            decreases c.len() - pos, (if stop {
                0int
            } else {
                1int
            }),
        {
            let ck = self.mem.get_key(cur);
            if ck >= key {
                if ck == key {
                    proof {
                        lemma_sorted_key_index(s0, c, pos);
                    }
                    dup = true;
                }
                stop = true;
            } else {
                prev_addr = cur;
                cur = self.mem.get_next(cur);
                proof {
                    pos = pos + 1;
                }
            }
        }
        if dup {
            let h2 = self.handles[tid as usize];
            self.tracker.leave_quiet(&mut self.mem, h2);
            proof {
                assert(self.wf());
                assert(self@ =~= old(self)@);
            }
            return false;
        }
        proof {
            if !stop {
                assert(pos == c.len());
            }
            lemma_walk_miss(s0, c, key, pos);
        }
        let r = self.insert_at(idx, prev_addr, cur, key, value, tid, Ghost(pos));
        proof {
            assert(self@ =~= old(self)@.insert(key, value));
        }
        r
    }

    /// Splices a fresh node in at the point the walk found, then departs.
    #[verifier::rlimit(100)]
    #[verifier::spinoff_prover]
    fn insert_at(
        &mut self,
        idx: usize,
        prev_addr: u64,
        cur: u64,
        key: u64,
        value: V,
        tid: i32,
        Ghost(pos): Ghost<int>,
    ) -> (r: bool)
        requires
            old(self).bucket_count >= 1,
            old(self).buckets@.len() == old(self).bucket_count,
            old(self).chains@.len() == old(self).bucket_count,
            old(self).handles@.len() >= 1,
            0 <= tid < old(self).handles@.len(),
            old(self).handles@[tid as int].hptr_snapshot == 0,
            old(self).tracker.href() == 1,
            old(self).tracker.hptr() == 0,
            old(self).tracker.rlist() == Seq::<u64>::empty(),
            forall|b: int|
                0 <= b < old(self).bucket_count ==> chain_ok(
                    old(self).mem.contents(),
                    #[trigger] old(self).chains@[b],
                    old(self).buckets@[b],
                    b,
                    old(self).bucket_count as int,
                ),
            forall|a: u64|
                #[trigger] old(self).mem.contents().contains_key(a) ==> exists|b: int, i: int|
                    0 <= b < old(self).chains@.len() && 0 <= i < old(self).chains@[b].len()
                        && #[trigger] old(self).chains@[b][i] == a,
            old(self).mem.slot_count() < usize::MAX,
            idx < old(self).bucket_count,
            idx as int == bucket_of(key, old(self).bucket_count as int),
            ({
                let c = old(self).chains@[idx as int];
                let s0 = old(self).mem.contents();
                &&& 0 <= pos <= c.len()
                &&& cur == (if pos < c.len() {
                    c[pos]
                } else {
                    0
                })
                &&& prev_addr == (if pos == 0 {
                    0
                } else {
                    c[pos - 1]
                })
                &&& (forall|i: int| 0 <= i < pos ==> s0[#[trigger] c[i]].key < key)
                &&& (pos < c.len() ==> s0[c[pos]].key > key)
            }),
        ensures
            r,
            final(self).wf(),
            final(self)@ == old(self)@.insert(key, value),
            final(self).spec_bucket_count() == old(self).spec_bucket_count(),
            final(self).spec_thread_count() == old(self).spec_thread_count(),
            final(self).spec_arena_len() == old(self).spec_arena_len() + 1,
    {
        let ghost s0 = self.mem.contents();
        let ghost chains0 = self.chains@;
        let ghost heads0 = self.buckets@;
        let ghost c = self.chains@[idx as int];
        // Splice in: a fresh node ahead of the first larger key.
        let node = self.mem.allocate(key, value, cur);
        let okc: bool;
        if prev_addr == 0 {
            // The compare-and-swap on the bucket head.
            let head_now = self.buckets[idx];
            if head_now == cur {
                self.buckets.set(idx, node);
                okc = true;
            } else {
                okc = false;
            }
        } else {
            proof {
                assert(self.mem.contents().contains_key(prev_addr)) by {
                    assert(s0.contains_key(c[pos - 1]));
                }
            }
            okc = self.mem.cas_next(prev_addr, cur, node);
        }
        proof {
            assert(okc);
        }
        if !okc {
            // The race loser frees its never-linked node directly.
            self.mem.deallocate(node);
            let h2 = self.handles[tid as usize];
            self.tracker.leave_quiet(&mut self.mem, h2);
            return false;
        }
        let ghost slink = self.mem.contents();
        let ghost c2 = c.take(pos) + seq![node] + c.skip(pos);
        let ghost chains2 = chains0.update(idx as int, c2);
        let ghost nb = self.bucket_count as int;
        proof {
            assert(self.buckets@ =~= heads0.update(
                idx as int,
                (if pos == 0 {
                    node
                } else {
                    heads0[idx as int]
                }),
            ));
            lemma_insert_combine(
                s0,
                slink,
                chains0,
                heads0,
                chains2,
                self.buckets@,
                nb,
                idx as int,
                c2,
                node,
                pos,
                key,
                value,
            );
        }
        self.chains = Ghost(chains2);
        let h2 = self.handles[tid as usize];
        self.tracker.leave_quiet(&mut self.mem, h2);
        proof {
            assert(self.mem.contents() == slink);
            lemma_insert_final(
                *self,
                *old(self),
                s0,
                slink,
                chains0,
                chains2,
                nb,
                idx as int,
                key,
                value,
            );
        }
        true
    }

    /// Removes the key, handing back a copy of its payload. The unlinked
    /// node is retired to the reclamation engine, which frees it once no
    /// reader can still hold it - here, on this reader's own departure.
    #[verifier::rlimit(100)]
    #[verifier::spinoff_prover]
    pub fn remove(&mut self, key: u64, tid: i32) -> (r: Option<V>) where V: Clone
        requires
            old(self).wf(),
            0 <= tid < old(self).spec_thread_count(),
        ensures
            final(self).wf(),
            final(self)@ == old(self)@.remove(key),
            final(self).spec_bucket_count() == old(self).spec_bucket_count(),
            final(self).spec_thread_count() == old(self).spec_thread_count(),
            final(self).spec_arena_len() == old(self).spec_arena_len(),
            (match r {
                Some(v) => old(self)@.contains_key(key) && cloned(old(self)@[key], v),
                None => !old(self)@.contains_key(key),
            }),
    {
        let ghost s0 = self.mem.contents();
        let h = self.tracker.enter();
        self.handles.set(tid as usize, h);
        let idx = self.hash(key);
        let ghost c = self.chains@[idx as int];
        let ghost bhead = self.buckets@[idx as int];
        let mut prev_addr: u64 = 0;
        let mut cur = self.buckets[idx];
        let ghost mut pos: int = 0;
        let mut hit = false;
        let mut stop = false;
        while !stop && cur != 0
            invariant
                self.mem.contents() == s0,
                linked(s0, c, bhead, 0),
                forall|a: int, b: int| 0 <= a < b < c.len() ==> s0[c[a]].key < s0[c[b]].key,
                0 <= pos <= c.len(),
                cur == (if pos < c.len() {
                    c[pos]
                } else {
                    0
                }),
                prev_addr == (if pos == 0 {
                    0
                } else {
                    c[pos - 1]
                }),
                forall|i: int| 0 <= i < pos ==> s0[#[trigger] c[i]].key < key,
                !stop ==> !hit,
                hit ==> (pos < c.len() && s0[c[pos]].key == key),
                (stop && !hit) ==> (pos < c.len() && s0[c[pos]].key > key),
            decreases c.len() - pos, (if stop {
                0int
            } else {
                1int
            }),
        {
            let ck = self.mem.get_key(cur);
            if ck >= key {
                if ck == key {
                    hit = true;
                }
                stop = true;
            } else {
                prev_addr = cur;
                cur = self.mem.get_next(cur);
                proof {
                    pos = pos + 1;
                }
            }
        }
        if !hit {
            proof {
                if !stop {
                    assert(pos == c.len());
                }
                lemma_walk_miss(s0, c, key, pos);
            }
            let h2 = self.handles[tid as usize];
            self.tracker.leave_quiet(&mut self.mem, h2);
            proof {
                assert(self.wf());
                assert(self@ =~= old(self)@);
                assert(self@.remove(key) =~= self@);
            }
            return None;
        }
        let r = self.remove_at(idx, prev_addr, cur, key, tid, Ghost(pos));
        proof {
            lemma_sorted_key_index(s0, c, pos);
            assert(old(self)@.contains_key(key));
            assert(old(self)@[key] == s0[c[pos]].value);
            assert(self@ =~= old(self)@.remove(key));
        }
        Some(r)
    }

    /// Unlinks the node the walk found, copies its payload out, retires
    /// it, and departs; departure reclaims it.
    #[verifier::rlimit(100)]
    #[verifier::spinoff_prover]
    fn remove_at(
        &mut self,
        idx: usize,
        prev_addr: u64,
        cur: u64,
        key: u64,
        tid: i32,
        Ghost(pos): Ghost<int>,
    ) -> (r: V) where V: Clone
        requires
            old(self).bucket_count >= 1,
            old(self).buckets@.len() == old(self).bucket_count,
            old(self).chains@.len() == old(self).bucket_count,
            old(self).handles@.len() >= 1,
            0 <= tid < old(self).handles@.len(),
            old(self).handles@[tid as int].hptr_snapshot == 0,
            old(self).tracker.href() == 1,
            old(self).tracker.hptr() == 0,
            old(self).tracker.rlist() == Seq::<u64>::empty(),
            forall|b: int|
                0 <= b < old(self).bucket_count ==> chain_ok(
                    old(self).mem.contents(),
                    #[trigger] old(self).chains@[b],
                    old(self).buckets@[b],
                    b,
                    old(self).bucket_count as int,
                ),
            forall|a: u64|
                #[trigger] old(self).mem.contents().contains_key(a) ==> exists|b: int, i: int|
                    0 <= b < old(self).chains@.len() && 0 <= i < old(self).chains@[b].len()
                        && #[trigger] old(self).chains@[b][i] == a,
            idx < old(self).bucket_count,
            idx as int == bucket_of(key, old(self).bucket_count as int),
            ({
                let c = old(self).chains@[idx as int];
                let s0 = old(self).mem.contents();
                &&& 0 <= pos < c.len()
                &&& cur == c[pos]
                &&& prev_addr == (if pos == 0 {
                    0
                } else {
                    c[pos - 1]
                })
                &&& s0[c[pos]].key == key
            }),
        ensures
            final(self).wf(),
            final(self)@ == old(self)@.remove(key),
            final(self).spec_bucket_count() == old(self).spec_bucket_count(),
            final(self).spec_thread_count() == old(self).spec_thread_count(),
            final(self).spec_arena_len() == old(self).spec_arena_len(),
            cloned(old(self).mem.contents()[cur].value, r),
    {
        let ghost s0 = self.mem.contents();
        let ghost chains0 = self.chains@;
        let ghost heads0 = self.buckets@;
        let ghost c = self.chains@[idx as int];
        let ghost nb = self.bucket_count as int;
        let next = self.mem.get_next(cur);
        // Unlink: the one compare-and-swap, on the predecessor's successor
        // field or on the bucket head.
        let okc: bool;
        if prev_addr == 0 {
            let head_now = self.buckets[idx];
            if head_now == cur {
                self.buckets.set(idx, next);
                okc = true;
            } else {
                okc = false;
            }
        } else {
            proof {
                assert(self.mem.contents().contains_key(prev_addr)) by {
                    assert(s0.contains_key(c[pos - 1]));
                }
            }
            okc = self.mem.cas_next(prev_addr, cur, next);
        }
        proof {
            assert(okc);
        }
        let ghost sunlink = self.mem.contents();
        // Copy the payload out before the node is retired.
        let value = self.mem.clone_value(cur);
        proof {
            if pos > 0 {
                assert(cur != prev_addr) by {
                    assert(s0[c[pos - 1]].key < s0[c[pos]].key);
                }
            }
            assert(sunlink[cur] == s0[cur]);
        }
        // Retire the unlinked node, then depart; the departure walk finds
        // its count at zero and frees it.
        self.tracker.retire(&mut self.mem, cur);
        let h2 = self.handles[tid as usize];
        self.tracker.leave_collect_one(&mut self.mem, h2);
        let ghost sfin = self.mem.contents();
        let ghost c2 = c.take(pos) + c.skip(pos + 1);
        let ghost chains2 = chains0.update(idx as int, c2);
        self.chains = Ghost(chains2);
        proof {
            assert(sfin =~= sunlink.remove(cur));
            if pos == 0 {
                assert(sfin =~= s0.remove(cur));
            } else {
                assert(sfin =~= s0.insert(
                    c[pos - 1],
                    (NodeView {
                        key: s0[c[pos - 1]].key,
                        value: s0[c[pos - 1]].value,
                        next: (if pos + 1 < c.len() {
                            c[pos + 1]
                        } else {
                            0
                        }),
                        nref: s0[c[pos - 1]].nref,
                    }),
                ).remove(cur));
            }
            assert(self.buckets@ =~= heads0.update(
                idx as int,
                (if pos == 0 {
                    (if pos + 1 < c.len() {
                        c[pos + 1]
                    } else {
                        0
                    })
                } else {
                    heads0[idx as int]
                }),
            ));
            lemma_remove_combine(
                s0,
                sfin,
                chains0,
                heads0,
                chains2,
                self.buckets@,
                nb,
                idx as int,
                c2,
                cur,
                pos,
                key,
            );
            lemma_remove_witness(
                s0,
                sfin,
                chains0,
                heads0,
                chains2,
                self.buckets@,
                nb,
                idx as int,
                c2,
                cur,
                pos,
                key,
            );
            lemma_remove_keys(
                s0,
                sfin,
                chains0,
                heads0,
                chains2,
                self.buckets@,
                nb,
                idx as int,
                c2,
                cur,
                pos,
                key,
            );
            lemma_remove_final(
                *self,
                *old(self),
                s0,
                sfin,
                chains0,
                chains2,
                nb,
                idx as int,
                key,
            );
        }
        value
    }

    /// The number of readers currently inside a protected section. Every
    /// operation enters and leaves in balance, so at rest this is always
    /// zero.
    pub fn active_readers(&self) -> (n: i64)
        requires
            self.wf(),
        ensures
            n == 0,
    {
        self.tracker.current_href()
    }

    /// How many retired nodes still await reclamation. Every node a map
    /// operation retires is freed before the operation returns, so at
    /// rest the retirement list is always empty.
    pub fn retired_backlog(&self) -> (n: usize)
        requires
            self.wf(),
        ensures
            n == 0,
    {
        let hptr = self.tracker.current_hptr();
        if hptr == 0 {
            0
        } else {
            proof {
                assert(false);
            }
            0
        }
    }

    /// How many node blocks the allocator has ever handed out; `insert`
    /// asks for room for one more.
    pub fn arena_len(&self) -> (n: usize)
        ensures
            n == self.spec_arena_len(),
    {
        self.mem.block_count()
    }

    /// The keys of one bucket, in traversal order: strictly ascending,
    /// exactly the map's keys that hash to this bucket.
    #[verifier::rlimit(100)]
    pub fn bucket_keys(&self, idx: usize) -> (ks: Vec<u64>)
        requires
            self.wf(),
            idx < self.spec_bucket_count(),
        ensures
            forall|i: int, j: int| 0 <= i < j < ks@.len() ==> ks@[i] < ks@[j],
            forall|i: int|
                0 <= i < ks@.len() ==> self@.contains_key(#[trigger] ks@[i]) && bucket_of(
                    ks@[i],
                    self.spec_bucket_count(),
                ) == idx,
            forall|k: u64|
                self@.contains_key(k) && bucket_of(k, self.spec_bucket_count()) == idx
                    ==> ks@.contains(k),
    {
        let ghost s0 = self.mem.contents();
        let ghost c = self.chains@[idx as int];
        let ghost nb = self.bucket_count as int;
        let mut ks: Vec<u64> = Vec::new();
        let mut cur = self.buckets[idx];
        let ghost bhead = self.buckets@[idx as int];
        let ghost mut pos: int = 0;
        while cur != 0
            invariant
                self.mem.contents() == s0,
                linked(s0, c, bhead, 0),
                0 <= pos <= c.len(),
                cur == (if pos < c.len() {
                    c[pos]
                } else {
                    0
                }),
                ks@.len() == pos,
                forall|i: int| 0 <= i < pos ==> ks@[i] == s0[#[trigger] c[i]].key,
            decreases c.len() - pos,
        {
            ks.push(self.mem.get_key(cur));
            cur = self.mem.get_next(cur);
            proof {
                pos = pos + 1;
            }
        }
        proof {
            assert(pos == c.len());
            lemma_bucket_keys_sound(s0, c, ks@, bhead, nb, idx as int);
            lemma_bucket_keys_complete(*self, s0, c, ks@, nb, idx as int);
            assert forall|i: int|
                0 <= i < ks@.len() implies self@.contains_key(#[trigger] ks@[i]) && bucket_of(
                ks@[i],
                nb,
            ) == idx as int by {
                assert(chain_has_key(s0, c, ks@[i]));
            }
        }
        ks
    }
}

/// From the raw shape of the store after the splice's two writes, derives
/// the per-bucket conclusions of one splice-in.
#[verifier::rlimit(100)]
proof fn lemma_insert_combine<V>(
    s0: Map<u64, NodeView<V>>,
    slink: Map<u64, NodeView<V>>,
    chains0: Seq<Seq<u64>>,
    heads0: Seq<u64>,
    chains2: Seq<Seq<u64>>,
    heads2: Seq<u64>,
    nb: int,
    idx: int,
    c2: Seq<u64>,
    node: u64,
    pos: int,
    key: u64,
    value: V,
)
    requires
        nb >= 1,
        chains0.len() == nb,
        heads0.len() == nb,
        0 <= idx < nb,
        forall|b: int| 0 <= b < nb ==> chain_ok(s0, #[trigger] chains0[b], heads0[b], b, nb),
        forall|a: u64|
            #[trigger] s0.contains_key(a) ==> exists|b: int, i: int|
                0 <= b < chains0.len() && 0 <= i < chains0[b].len() && #[trigger] chains0[b][i]
                    == a,
        0 <= pos <= chains0[idx].len(),
        forall|i: int| 0 <= i < pos ==> s0[#[trigger] chains0[idx][i]].key < key,
        pos < chains0[idx].len() ==> s0[chains0[idx][pos]].key > key,
        !s0.contains_key(node),
        node != 0,
        bucket_of(key, nb) == idx,
        pos == 0 ==> slink == s0.insert(
            node,
            (NodeView {
                key,
                value,
                next: (if pos < chains0[idx].len() {
                    chains0[idx][pos]
                } else {
                    0
                }),
                nref: 0,
            }),
        ),
        pos > 0 ==> slink == s0.insert(
            node,
            (NodeView {
                key,
                value,
                next: (if pos < chains0[idx].len() {
                    chains0[idx][pos]
                } else {
                    0
                }),
                nref: 0,
            }),
        ).insert(
            chains0[idx][pos - 1],
            (NodeView {
                key: s0[chains0[idx][pos - 1]].key,
                value: s0[chains0[idx][pos - 1]].value,
                next: node,
                nref: s0[chains0[idx][pos - 1]].nref,
            }),
        ),
        c2 == chains0[idx].take(pos) + seq![node] + chains0[idx].skip(pos),
        chains2 == chains0.update(idx, c2),
        heads2 == heads0.update(
            idx,
            (if pos == 0 {
                node
            } else {
                heads0[idx]
            }),
        ),
    ensures
        forall|b: int| 0 <= b < nb ==> chain_ok(slink, #[trigger] chains2[b], heads2[b], b, nb),
        forall|a: u64|
            #[trigger] slink.contains_key(a) ==> exists|b: int, i: int|
                0 <= b < chains2.len() && 0 <= i < chains2[b].len() && #[trigger] chains2[b][i]
                    == a,
        forall|k2: u64|
            #![trigger chain_has_key(slink, chains2[bucket_of(k2, nb)], k2)]
            0 <= bucket_of(k2, nb) < nb ==> chain_has_key(slink, chains2[bucket_of(k2, nb)], k2)
                == (k2 == key || chain_has_key(s0, chains0[bucket_of(k2, nb)], k2)),
        chain_value(slink, chains2[idx], key) == value,
        forall|k2: u64|
            #![trigger chain_value(slink, chains2[bucket_of(k2, nb)], k2)]
            k2 != key && 0 <= bucket_of(k2, nb) < nb && chain_has_key(
                s0,
                chains0[bucket_of(k2, nb)],
                k2,
            ) ==> chain_value(slink, chains2[bucket_of(k2, nb)], k2) == chain_value(
                s0,
                chains0[bucket_of(k2, nb)],
                k2,
            ),
{
    let c = chains0[idx];
    assert(slink.dom() =~= s0.dom().insert(node));
    assert(slink[node].key == key && slink[node].value == value && slink[node].nref == 0);
    lemma_splice_in(s0, slink, c, c2, node, pos, key, heads0[idx], heads2[idx], idx, nb);
    lemma_splice_in_keys(s0, slink, c, c2, node, pos, key, heads0[idx], heads2[idx], idx, nb);
    lemma_insert_chains_ok(
        s0,
        slink,
        chains0,
        heads0,
        chains2,
        heads2,
        nb,
        idx,
        c2,
        node,
        pos,
    );
    lemma_insert_witness(s0, slink, chains0, chains2, idx, c2, node, pos);
    lemma_insert_keys(
        s0,
        slink,
        chains0,
        heads0,
        chains2,
        heads2,
        nb,
        idx,
        c2,
        node,
        pos,
        key,
    );
}

/// Splicing the node carrying a key out of a sorted chain keeps the
/// bucket well-formed and removes exactly that key.
#[verifier::rlimit(100)]
#[verifier::spinoff_prover]
proof fn lemma_splice_out<V>(
    s0: Map<u64, NodeView<V>>,
    sfin: Map<u64, NodeView<V>>,
    c: Seq<u64>,
    c2: Seq<u64>,
    node: u64,
    pos: int,
    key: u64,
    head: u64,
    head2: u64,
    b: int,
    nb: int,
)
    requires
        chain_ok(s0, c, head, b, nb),
        0 <= pos < c.len(),
        node == c[pos],
        s0[node].key == key,
        c2 == c.take(pos) + c.skip(pos + 1),
        sfin.dom() == s0.dom().remove(node),
        forall|a: u64|
            #![trigger s0.contains_key(a)]
            s0.contains_key(a) && a != node && (pos == 0 || a != c[pos - 1]) ==> sfin[a] == s0[a],
        pos > 0 ==> sfin[c[pos - 1]].key == s0[c[pos - 1]].key && sfin[c[pos - 1]].value == s0[c[
            pos - 1]].value && sfin[c[pos - 1]].nref == s0[c[pos - 1]].nref && sfin[c[pos
            - 1]].next == (if pos + 1 < c.len() {
            c[pos + 1]
        } else {
            0
        }),
        head2 == (if pos == 0 {
            (if pos + 1 < c.len() {
                c[pos + 1]
            } else {
                0
            })
        } else {
            head
        }),
    ensures
        chain_ok(sfin, c2, head2, b, nb),
        !chain_has_key(sfin, c2, key),
{
    assert(c2.len() == c.len() - 1);
    assert(distinct(c)) by {
        assert forall|a: int, bb: int| 0 <= a < bb < c.len() implies c[a] != c[bb] by {
            assert(s0[c[a]].key < s0[c[bb]].key);
        }
    }
    assert forall|i: int| 0 <= i < c2.len() implies #[trigger] c2[i] == (if i < pos {
        c[i]
    } else {
        c[i + 1]
    }) by {}
    assert forall|i: int| 0 <= i < c2.len() implies c2[i] != 0 && sfin.contains_key(c2[i])
        && sfin[c2[i]].key == s0[c2[i]].key && sfin[c2[i]].value == s0[c2[i]].value
        && sfin[c2[i]].nref == s0[c2[i]].nref by {
        let iold: int = if i < pos {
            i
        } else {
            i + 1
        };
        assert(c2[i] == c[iold] && iold != pos);
        assert(c[iold] != c[pos]);
        if pos > 0 && iold != pos - 1 {
            assert(c[iold] != c[pos - 1]);
        }
    }
    assert forall|i: int| 0 <= i < c2.len() - 1 implies sfin[#[trigger] c2[i]].next == c2[i
        + 1] by {
        let iold: int = if i < pos {
            i
        } else {
            i + 1
        };
        assert(c2[i] == c[iold] && c[iold] != c[pos]);
        if i == pos - 1 {
            assert(c2[i] == c[pos - 1]);
            assert(c2[i + 1] == c[pos + 1]);
        } else {
            assert(c2[i + 1] == c[iold + 1]);
            if pos > 0 && iold != pos - 1 {
                assert(c[iold] != c[pos - 1]);
            }
            assert(sfin[c2[i]].next == s0[c2[i]].next);
        }
    }
    if c2.len() > 0 {
        assert(sfin[c2[c2.len() - 1]].next == 0) by {
            let last: int = c2.len() - 1;
            if pos == c.len() - 1 {
                assert(last == pos - 1);
                assert(c2[last] == c[pos - 1]);
            } else {
                assert(c2[last] == c[c.len() - 1]);
                assert(c[c.len() - 1] != c[pos]);
                if pos > 0 && c.len() - 1 != pos - 1 {
                    assert(c[c.len() - 1] != c[pos - 1]);
                }
                assert(sfin[c2[last]].next == s0[c2[last]].next);
            }
        }
    }
    if c2.len() == 0 {
        assert(pos == 0 && c.len() == 1);
        assert(head2 == 0);
    } else {
        if pos == 0 {
            assert(c2[0] == c[1] && head2 == c[1]);
        } else {
            assert(c2[0] == c[0] && head2 == c[0]);
        }
    }
    assert(chain_ok(sfin, c2, head2, b, nb));
    assert(!chain_has_key(sfin, c2, key)) by {
        if chain_has_key(sfin, c2, key) {
            let i = key_index(sfin, c2, key);
            assert(0 <= i < c2.len() && sfin[c2[i]].key == key);
            let iold: int = if i < pos {
                i
            } else {
                i + 1
            };
            assert(c2[i] == c[iold] && iold != pos);
            assert(s0[c[iold]].key == key && s0[c[pos]].key == key);
            if iold < pos {
                assert(s0[c[iold]].key < s0[c[pos]].key);
            } else {
                assert(s0[c[pos]].key < s0[c[iold]].key);
            }
        }
    }
}

/// After the splice-out, every other key reads exactly as before.
#[verifier::rlimit(100)]
#[verifier::spinoff_prover]
proof fn lemma_splice_out_keys<V>(
    s0: Map<u64, NodeView<V>>,
    sfin: Map<u64, NodeView<V>>,
    c: Seq<u64>,
    c2: Seq<u64>,
    node: u64,
    pos: int,
    key: u64,
    head: u64,
    head2: u64,
    b: int,
    nb: int,
)
    requires
        chain_ok(s0, c, head, b, nb),
        0 <= pos < c.len(),
        node == c[pos],
        s0[node].key == key,
        c2 == c.take(pos) + c.skip(pos + 1),
        sfin.dom() == s0.dom().remove(node),
        forall|a: u64|
            #![trigger s0.contains_key(a)]
            s0.contains_key(a) && a != node && (pos == 0 || a != c[pos - 1]) ==> sfin[a] == s0[a],
        pos > 0 ==> sfin[c[pos - 1]].key == s0[c[pos - 1]].key && sfin[c[pos - 1]].value == s0[c[
            pos - 1]].value && sfin[c[pos - 1]].nref == s0[c[pos - 1]].nref && sfin[c[pos
            - 1]].next == (if pos + 1 < c.len() {
            c[pos + 1]
        } else {
            0
        }),
        head2 == (if pos == 0 {
            (if pos + 1 < c.len() {
                c[pos + 1]
            } else {
                0
            })
        } else {
            head
        }),
        chain_ok(sfin, c2, head2, b, nb),
    ensures
        forall|k2: u64|
            k2 != key ==> #[trigger] chain_has_key(sfin, c2, k2) == chain_has_key(s0, c, k2),
        forall|k2: u64|
            k2 != key && chain_has_key(s0, c, k2) ==> #[trigger] chain_value(sfin, c2, k2)
                == chain_value(s0, c, k2),
{
    assert(c2.len() == c.len() - 1);
    assert(distinct(c)) by {
        assert forall|a: int, bb: int| 0 <= a < bb < c.len() implies c[a] != c[bb] by {
            assert(s0[c[a]].key < s0[c[bb]].key);
        }
    }
    assert forall|i: int| 0 <= i < c2.len() implies #[trigger] c2[i] == (if i < pos {
        c[i]
    } else {
        c[i + 1]
    }) by {}
    assert forall|i: int| 0 <= i < c2.len() implies sfin.contains_key(c2[i]) && sfin[c2[i]].key
        == s0[#[trigger] c2[i]].key && sfin[c2[i]].value == s0[c2[i]].value by {
        let iold: int = if i < pos {
            i
        } else {
            i + 1
        };
        assert(c2[i] == c[iold] && iold != pos);
        assert(c[iold] != c[pos]);
        if pos > 0 && iold != pos - 1 {
            assert(c[iold] != c[pos - 1]);
        }
    }
    assert forall|k2: u64| k2 != key implies #[trigger] chain_has_key(sfin, c2, k2)
        == chain_has_key(s0, c, k2) by {
        if chain_has_key(sfin, c2, k2) {
            let i = key_index(sfin, c2, k2);
            assert(0 <= i < c2.len() && sfin[c2[i]].key == k2);
            let iold: int = if i < pos {
                i
            } else {
                i + 1
            };
            assert(c2[i] == c[iold]);
            assert(s0[c[iold]].key == k2);
            assert(chain_has_key(s0, c, k2));
        }
        if chain_has_key(s0, c, k2) {
            let i = key_index(s0, c, k2);
            assert(0 <= i < c.len() && s0[c[i]].key == k2);
            assert(i != pos);
            let inew: int = if i < pos {
                i
            } else {
                i - 1
            };
            assert(c2[inew] == c[i]);
            assert(sfin[c2[inew]].key == k2);
            assert(chain_has_key(sfin, c2, k2));
        }
    }
    assert forall|k2: u64| k2 != key && chain_has_key(s0, c, k2) implies #[trigger] chain_value(
        sfin,
        c2,
        k2,
    ) == chain_value(s0, c, k2) by {
        let i = key_index(s0, c, k2);
        assert(0 <= i < c.len() && s0[c[i]].key == k2);
        lemma_sorted_key_index(s0, c, i);
        assert(i != pos);
        let inew: int = if i < pos {
            i
        } else {
            i - 1
        };
        assert(c2[inew] == c[i]);
        assert(sfin[c2[inew]].key == k2 && sfin[c2[inew]].value == s0[c[i]].value);
        lemma_sorted_key_index(sfin, c2, inew);
    }
}

/// From the raw shape of the store after the unlink, retirement and
/// reclamation of one node, derives the per-bucket conclusions of one
/// splice-out.
#[verifier::rlimit(100)]
#[verifier::spinoff_prover]
proof fn lemma_remove_combine<V>(
    s0: Map<u64, NodeView<V>>,
    sfin: Map<u64, NodeView<V>>,
    chains0: Seq<Seq<u64>>,
    heads0: Seq<u64>,
    chains2: Seq<Seq<u64>>,
    heads2: Seq<u64>,
    nb: int,
    idx: int,
    c2: Seq<u64>,
    node: u64,
    pos: int,
    key: u64,
)
    requires
        nb >= 1,
        chains0.len() == nb,
        heads0.len() == nb,
        0 <= idx < nb,
        forall|b: int| 0 <= b < nb ==> chain_ok(s0, #[trigger] chains0[b], heads0[b], b, nb),
        forall|a: u64|
            #[trigger] s0.contains_key(a) ==> exists|b: int, i: int|
                0 <= b < chains0.len() && 0 <= i < chains0[b].len() && #[trigger] chains0[b][i]
                    == a,
        0 <= pos < chains0[idx].len(),
        node == chains0[idx][pos],
        s0[node].key == key,
        bucket_of(key, nb) == idx,
        pos == 0 ==> sfin == s0.remove(node),
        pos > 0 ==> sfin == s0.insert(
            chains0[idx][pos - 1],
            (NodeView {
                key: s0[chains0[idx][pos - 1]].key,
                value: s0[chains0[idx][pos - 1]].value,
                next: (if pos + 1 < chains0[idx].len() {
                    chains0[idx][pos + 1]
                } else {
                    0
                }),
                nref: s0[chains0[idx][pos - 1]].nref,
            }),
        ).remove(node),
        c2 == chains0[idx].take(pos) + chains0[idx].skip(pos + 1),
        chains2 == chains0.update(idx, c2),
        heads2 == heads0.update(
            idx,
            (if pos == 0 {
                (if pos + 1 < chains0[idx].len() {
                    chains0[idx][pos + 1]
                } else {
                    0
                })
            } else {
                heads0[idx]
            }),
        ),
    ensures
        forall|b: int| 0 <= b < nb ==> chain_ok(sfin, #[trigger] chains2[b], heads2[b], b, nb),
{
    let c = chains0[idx];
    assert(sfin.dom() =~= s0.dom().remove(node));
    lemma_splice_out(s0, sfin, c, c2, node, pos, key, heads0[idx], heads2[idx], idx, nb);
    assert(distinct(c)) by {
        assert forall|a: int, bb: int| 0 <= a < bb < c.len() implies c[a] != c[bb] by {
            assert(s0[c[a]].key < s0[c[bb]].key);
        }
    }
    // Members of every other bucket are untouched.
    assert forall|b: int, i: int|
        0 <= b < nb && b != idx && 0 <= i < chains0[b].len() implies sfin.contains_key(
        #[trigger] chains0[b][i],
    ) && sfin[chains0[b][i]] == s0[chains0[b][i]] by {
        let a = chains0[b][i];
        assert(s0.contains_key(a));
        if a == node {
            lemma_chains_disjoint(s0, chains0, heads0, nb, b, i, idx, pos);
        }
        if pos > 0 && a == c[pos - 1] {
            lemma_chains_disjoint(s0, chains0, heads0, nb, b, i, idx, pos - 1);
        }
        assert(sfin[a] == s0[a]);
    }
    assert forall|b: int| 0 <= b < nb implies chain_ok(
        sfin,
        #[trigger] chains2[b],
        heads2[b],
        b,
        nb,
    ) by {
        if b != idx {
            lemma_chain_ok_agree(s0, sfin, chains0[b], heads0[b], b, nb);
        }
    }
}

/// After one splice-out every remaining node still stands in a chain.
#[verifier::rlimit(100)]
#[verifier::spinoff_prover]
proof fn lemma_remove_witness<V>(
    s0: Map<u64, NodeView<V>>,
    sfin: Map<u64, NodeView<V>>,
    chains0: Seq<Seq<u64>>,
    heads0: Seq<u64>,
    chains2: Seq<Seq<u64>>,
    heads2: Seq<u64>,
    nb: int,
    idx: int,
    c2: Seq<u64>,
    node: u64,
    pos: int,
    key: u64,
)
    requires
        nb >= 1,
        chains0.len() == nb,
        heads0.len() == nb,
        0 <= idx < nb,
        forall|b: int| 0 <= b < nb ==> chain_ok(s0, #[trigger] chains0[b], heads0[b], b, nb),
        forall|a: u64|
            #[trigger] s0.contains_key(a) ==> exists|b: int, i: int|
                0 <= b < chains0.len() && 0 <= i < chains0[b].len() && #[trigger] chains0[b][i]
                    == a,
        0 <= pos < chains0[idx].len(),
        node == chains0[idx][pos],
        s0[node].key == key,
        bucket_of(key, nb) == idx,
        pos == 0 ==> sfin == s0.remove(node),
        pos > 0 ==> sfin == s0.insert(
            chains0[idx][pos - 1],
            (NodeView {
                key: s0[chains0[idx][pos - 1]].key,
                value: s0[chains0[idx][pos - 1]].value,
                next: (if pos + 1 < chains0[idx].len() {
                    chains0[idx][pos + 1]
                } else {
                    0
                }),
                nref: s0[chains0[idx][pos - 1]].nref,
            }),
        ).remove(node),
        c2 == chains0[idx].take(pos) + chains0[idx].skip(pos + 1),
        chains2 == chains0.update(idx, c2),
        heads2 == heads0.update(
            idx,
            (if pos == 0 {
                (if pos + 1 < chains0[idx].len() {
                    chains0[idx][pos + 1]
                } else {
                    0
                })
            } else {
                heads0[idx]
            }),
        ),
    ensures
        forall|a: u64|
            #[trigger] sfin.contains_key(a) ==> exists|b: int, i: int|
                0 <= b < chains2.len() && 0 <= i < chains2[b].len() && #[trigger] chains2[b][i]
                    == a,
{
    let c = chains0[idx];
    assert(sfin.dom() =~= s0.dom().remove(node));
    // Every remaining node still stands in a chain.
    assert forall|a: u64| #[trigger] sfin.contains_key(a) implies exists|b: int, i: int|
        0 <= b < chains2.len() && 0 <= i < chains2[b].len() && #[trigger] chains2[b][i] == a by {
        assert(s0.contains_key(a) && a != node);
        let (b, i) = choose|b: int, i: int|
            0 <= b < chains0.len() && 0 <= i < chains0[b].len() && #[trigger] chains0[b][i] == a;
        if b != idx {
            assert(chains2[b][i] == a);
        } else {
            assert(i != pos) by {
                if i == pos {
                    assert(chains0[idx][pos] == node);
                }
            }
            let inew: int = if i < pos {
                i
            } else {
                i - 1
            };
            assert(c2[inew] == c[i]);
            assert(chains2[idx][inew] == a);
        }
    }
}

/// The keys and payloads of every bucket after one splice-out.
#[verifier::rlimit(100)]
#[verifier::spinoff_prover]
proof fn lemma_remove_keys<V>(
    s0: Map<u64, NodeView<V>>,
    sfin: Map<u64, NodeView<V>>,
    chains0: Seq<Seq<u64>>,
    heads0: Seq<u64>,
    chains2: Seq<Seq<u64>>,
    heads2: Seq<u64>,
    nb: int,
    idx: int,
    c2: Seq<u64>,
    node: u64,
    pos: int,
    key: u64,
)
    requires
        nb >= 1,
        chains0.len() == nb,
        heads0.len() == nb,
        0 <= idx < nb,
        forall|b: int| 0 <= b < nb ==> chain_ok(s0, #[trigger] chains0[b], heads0[b], b, nb),
        forall|a: u64|
            #[trigger] s0.contains_key(a) ==> exists|b: int, i: int|
                0 <= b < chains0.len() && 0 <= i < chains0[b].len() && #[trigger] chains0[b][i]
                    == a,
        0 <= pos < chains0[idx].len(),
        node == chains0[idx][pos],
        s0[node].key == key,
        bucket_of(key, nb) == idx,
        pos == 0 ==> sfin == s0.remove(node),
        pos > 0 ==> sfin == s0.insert(
            chains0[idx][pos - 1],
            (NodeView {
                key: s0[chains0[idx][pos - 1]].key,
                value: s0[chains0[idx][pos - 1]].value,
                next: (if pos + 1 < chains0[idx].len() {
                    chains0[idx][pos + 1]
                } else {
                    0
                }),
                nref: s0[chains0[idx][pos - 1]].nref,
            }),
        ).remove(node),
        c2 == chains0[idx].take(pos) + chains0[idx].skip(pos + 1),
        chains2 == chains0.update(idx, c2),
        heads2 == heads0.update(
            idx,
            (if pos == 0 {
                (if pos + 1 < chains0[idx].len() {
                    chains0[idx][pos + 1]
                } else {
                    0
                })
            } else {
                heads0[idx]
            }),
        ),
    ensures
        forall|k2: u64|
            #![trigger chain_has_key(sfin, chains2[bucket_of(k2, nb)], k2)]
            0 <= bucket_of(k2, nb) < nb ==> chain_has_key(sfin, chains2[bucket_of(k2, nb)], k2)
                == (k2 != key && chain_has_key(s0, chains0[bucket_of(k2, nb)], k2)),
        forall|k2: u64|
            #![trigger chain_value(sfin, chains2[bucket_of(k2, nb)], k2)]
            k2 != key && 0 <= bucket_of(k2, nb) < nb && chain_has_key(
                s0,
                chains0[bucket_of(k2, nb)],
                k2,
            ) ==> chain_value(sfin, chains2[bucket_of(k2, nb)], k2) == chain_value(
                s0,
                chains0[bucket_of(k2, nb)],
                k2,
            ),
{
    let c = chains0[idx];
    assert(sfin.dom() =~= s0.dom().remove(node));
    lemma_splice_out(s0, sfin, c, c2, node, pos, key, heads0[idx], heads2[idx], idx, nb);
    lemma_splice_out_keys(s0, sfin, c, c2, node, pos, key, heads0[idx], heads2[idx], idx, nb);
    // Members of every other bucket are untouched.
    assert forall|b: int, i: int|
        0 <= b < nb && b != idx && 0 <= i < chains0[b].len() implies sfin.contains_key(
        #[trigger] chains0[b][i],
    ) && sfin[chains0[b][i]] == s0[chains0[b][i]] by {
        let a = chains0[b][i];
        assert(s0.contains_key(a));
        if a == node {
            lemma_chains_disjoint(s0, chains0, heads0, nb, b, i, idx, pos);
        }
        if pos > 0 && a == c[pos - 1] {
            lemma_chains_disjoint(s0, chains0, heads0, nb, b, i, idx, pos - 1);
        }
        assert(sfin[a] == s0[a]);
    }
    // Keys and payloads, bucket by bucket.
    assert forall|k2: u64| 0 <= bucket_of(k2, nb) < nb implies #[trigger] chain_has_key(
        sfin,
        chains2[bucket_of(k2, nb)],
        k2,
    ) == (k2 != key && chain_has_key(s0, chains0[bucket_of(k2, nb)], k2)) by {
        let b2 = bucket_of(k2, nb);
        if b2 == idx {
            if k2 == key {
                assert(!chain_has_key(sfin, c2, key));
            } else {
                lemma_sorted_key_index(s0, c, pos);
            }
        } else {
            lemma_chain_agree(s0, sfin, chains0[b2], k2);
            if k2 == key {
                if chain_has_key(s0, chains0[b2], k2) {
                    let i = key_index(s0, chains0[b2], k2);
                    assert(bucket_of(s0[chains0[b2][i]].key, nb) == b2);
                }
            }
        }
    }
    assert forall|k2: u64|
        k2 != key && 0 <= bucket_of(k2, nb) < nb && chain_has_key(
            s0,
            chains0[bucket_of(k2, nb)],
            k2,
        ) implies #[trigger] chain_value(sfin, chains2[bucket_of(k2, nb)], k2) == chain_value(
        s0,
        chains0[bucket_of(k2, nb)],
        k2,
    ) by {
        let b2 = bucket_of(k2, nb);
        if b2 != idx {
            lemma_chain_agree(s0, sfin, chains0[b2], k2);
        }
    }
}

/// Assembles the map's well-formedness and meaning after one splice-out
/// from the per-bucket conclusions.
#[verifier::rlimit(100)]
#[verifier::spinoff_prover]
proof fn lemma_remove_final<V>(
    m: SortedUnorderedMap<V>,
    m0: SortedUnorderedMap<V>,
    s0: Map<u64, NodeView<V>>,
    sfin: Map<u64, NodeView<V>>,
    chains0: Seq<Seq<u64>>,
    chains2: Seq<Seq<u64>>,
    nb: int,
    idx: int,
    key: u64,
)
    requires
        m0.bucket_count >= 1,
        nb == m0.bucket_count as int,
        m.bucket_count == m0.bucket_count,
        m0.mem.contents() == s0,
        m0.chains@ == chains0,
        m.mem.contents() == sfin,
        m.chains@ == chains2,
        chains2.len() == nb,
        m.buckets@.len() == nb,
        m.handles@.len() >= 1,
        m.tracker.href() == 0,
        m.tracker.hptr() == 0,
        m.tracker.rlist() == Seq::<u64>::empty(),
        0 <= idx < nb,
        bucket_of(key, nb) == idx,
        forall|b: int|
            0 <= b < nb ==> chain_ok(sfin, #[trigger] chains2[b], m.buckets@[b], b, nb),
        forall|a: u64|
            #[trigger] sfin.contains_key(a) ==> exists|b: int, i: int|
                0 <= b < chains2.len() && 0 <= i < chains2[b].len() && #[trigger] chains2[b][i]
                    == a,
        forall|k2: u64|
            #![trigger chain_has_key(sfin, chains2[bucket_of(k2, nb)], k2)]
            0 <= bucket_of(k2, nb) < nb ==> chain_has_key(sfin, chains2[bucket_of(k2, nb)], k2)
                == (k2 != key && chain_has_key(s0, chains0[bucket_of(k2, nb)], k2)),
        forall|k2: u64|
            #![trigger chain_value(sfin, chains2[bucket_of(k2, nb)], k2)]
            k2 != key && 0 <= bucket_of(k2, nb) < nb && chain_has_key(
                s0,
                chains0[bucket_of(k2, nb)],
                k2,
            ) ==> chain_value(sfin, chains2[bucket_of(k2, nb)], k2) == chain_value(
                s0,
                chains0[bucket_of(k2, nb)],
                k2,
            ),
    ensures
        m.wf(),
        m@ == m0@.remove(key),
{
    assert(m.wf());
    assert forall|k2: u64| #[trigger] m@.contains_key(k2) == m0@.remove(key).contains_key(k2) by {
        vstd::arithmetic::div_mod::lemma_mod_bound(hash_u64(k2) as int, nb);
        assert(chain_has_key(sfin, chains2[bucket_of(k2, nb)], k2) == (k2 != key
            && chain_has_key(s0, chains0[bucket_of(k2, nb)], k2)));
    }
    assert forall|k2: u64| m@.contains_key(k2) implies #[trigger] m@[k2] == m0@.remove(
        key,
    )[k2] by {
        vstd::arithmetic::div_mod::lemma_mod_bound(hash_u64(k2) as int, nb);
        assert(chain_has_key(sfin, chains2[bucket_of(k2, nb)], k2));
        assert(k2 != key && chain_has_key(s0, chains0[bucket_of(k2, nb)], k2));
        assert(chain_value(sfin, chains2[bucket_of(k2, nb)], k2) == chain_value(
            s0,
            chains0[bucket_of(k2, nb)],
            k2,
        ));
    }
    assert(m@ =~= m0@.remove(key));
}

/// Assembles the map's well-formedness and meaning after one splice-in
/// from the per-bucket conclusions.
#[verifier::rlimit(100)]
#[verifier::spinoff_prover]
proof fn lemma_insert_final<V>(
    m: SortedUnorderedMap<V>,
    m0: SortedUnorderedMap<V>,
    s0: Map<u64, NodeView<V>>,
    slink: Map<u64, NodeView<V>>,
    chains0: Seq<Seq<u64>>,
    chains2: Seq<Seq<u64>>,
    nb: int,
    idx: int,
    key: u64,
    value: V,
)
    requires
        m0.bucket_count >= 1,
        nb == m0.bucket_count as int,
        m.bucket_count == m0.bucket_count,
        m0.mem.contents() == s0,
        m0.chains@ == chains0,
        m.mem.contents() == slink,
        m.chains@ == chains2,
        chains2.len() == nb,
        m.buckets@.len() == nb,
        m.handles@.len() >= 1,
        m.tracker.href() == 0,
        m.tracker.hptr() == 0,
        m.tracker.rlist() == Seq::<u64>::empty(),
        0 <= idx < nb,
        bucket_of(key, nb) == idx,
        forall|b: int|
            0 <= b < nb ==> chain_ok(slink, #[trigger] chains2[b], m.buckets@[b], b, nb),
        forall|a: u64|
            #[trigger] slink.contains_key(a) ==> exists|b: int, i: int|
                0 <= b < chains2.len() && 0 <= i < chains2[b].len() && #[trigger] chains2[b][i]
                    == a,
        forall|k2: u64|
            #![trigger chain_has_key(slink, chains2[bucket_of(k2, nb)], k2)]
            0 <= bucket_of(k2, nb) < nb ==> chain_has_key(slink, chains2[bucket_of(k2, nb)], k2)
                == (k2 == key || chain_has_key(s0, chains0[bucket_of(k2, nb)], k2)),
        chain_value(slink, chains2[idx], key) == value,
        forall|k2: u64|
            #![trigger chain_value(slink, chains2[bucket_of(k2, nb)], k2)]
            k2 != key && 0 <= bucket_of(k2, nb) < nb && chain_has_key(
                s0,
                chains0[bucket_of(k2, nb)],
                k2,
            ) ==> chain_value(slink, chains2[bucket_of(k2, nb)], k2) == chain_value(
                s0,
                chains0[bucket_of(k2, nb)],
                k2,
            ),
    ensures
        m.wf(),
        m@ == m0@.insert(key, value),
{
    assert(m.wf());
    assert forall|k2: u64| #[trigger] m@.contains_key(k2) == m0@.insert(
        key,
        value,
    ).contains_key(k2) by {
        vstd::arithmetic::div_mod::lemma_mod_bound(hash_u64(k2) as int, nb);
        assert(chain_has_key(slink, chains2[bucket_of(k2, nb)], k2) == (k2 == key
            || chain_has_key(s0, chains0[bucket_of(k2, nb)], k2)));
    }
    assert forall|k2: u64| m@.contains_key(k2) implies #[trigger] m@[k2] == m0@.insert(
        key,
        value,
    )[k2] by {
        vstd::arithmetic::div_mod::lemma_mod_bound(hash_u64(k2) as int, nb);
        if k2 == key {
            assert(chain_value(slink, chains2[idx], key) == value);
        } else {
            assert(chain_has_key(slink, chains2[bucket_of(k2, nb)], k2));
            assert(chain_has_key(s0, chains0[bucket_of(k2, nb)], k2));
            assert(chain_value(slink, chains2[bucket_of(k2, nb)], k2) == chain_value(
                s0,
                chains0[bucket_of(k2, nb)],
                k2,
            ));
        }
    }
    assert(m@ =~= m0@.insert(key, value));
}

} // verus!
