//! The consistent-hashing ring.
//!
//! A ring owns a position-to-node assignment and an ascending list of the
//! stored positions. Each node is projected onto `replicas` positions by
//! hashing `"{identity}:{index}"` through the configured strategy; a lookup
//! hashes its key the same way and resolves to the node owning the first
//! position at or after the key's digest, wrapping around to the smallest
//! stored position.

use crate::digits::dec_chars;
use crate::node::RingNode;
use crate::order::{
    lemma_sorted_insert, lemma_sorted_remove, lemma_successor_at_index, lemma_successor_none,
    owner_position, strictly_sorted, successor_in,
};
use crate::strategy::{HashStrategy, XxHash64Strategy};
use std::collections::HashMap;
use vstd::prelude::*;
use vstd::string::StringExecFns;

verus! {

/// The characters of the replica key string `"{id}:{i}"`.
pub open spec fn replica_key_chars(id: Seq<char>, i: int) -> Seq<char> {
    id + seq![':'] + dec_chars(i)
}

/// The position a strategy assigns to a key string: the digest of the
/// string's UTF-8 bytes.
pub open spec fn digest_of_chars<S: HashStrategy>(s: S, key: Seq<char>) -> u64 {
    s.digest_spec(vstd::utf8::encode_utf8(key))
}

/// The position of replica `i` of a node with identity `id`.
pub open spec fn replica_position<S: HashStrategy>(s: S, id: Seq<char>, i: int) -> u64 {
    digest_of_chars(s, replica_key_chars(id, i))
}

/// The assignment after adding replicas `0 .. n` of `node`, in index order.
/// A replica whose position is already occupied overwrites that entry.
pub open spec fn map_after_add<T: RingNode, S: HashStrategy>(
    m: Map<u64, T>,
    s: S,
    node: T,
    n: int,
) -> Map<u64, T>
    decreases n,
{
    if n <= 0 {
        m
    } else {
        map_after_add(m, s, node, n - 1).insert(replica_position(s, node.id(), n - 1), node)
    }
}

/// The assignment after the removal pass for a node with identity `id`,
/// starting at replica index `i` of `n`: each index removes its position,
/// and the pass stops early at the first index whose position is absent.
/// A position is removed by value alone, without checking which node it is
/// assigned to, so in a pathological collision a position contributed by a
/// different node is evicted; this mirrors the documented behaviour.
pub open spec fn map_after_remove<T: RingNode, S: HashStrategy>(
    m: Map<u64, T>,
    s: S,
    id: Seq<char>,
    i: int,
    n: int,
) -> Map<u64, T>
    decreases n - i,
{
    if i >= n {
        m
    } else {
        let p = replica_position(s, id, i);
        if m.contains_key(p) {
            map_after_remove(m.remove(p), s, id, i + 1, n)
        } else {
            m
        }
    }
}

/// The assignment of a ring freshly built from `nodes` in order, `n`
/// replicas each.
pub open spec fn initial_map<T: RingNode, S: HashStrategy>(
    nodes: Seq<T>,
    s: S,
    n: int,
) -> Map<u64, T>
    decreases nodes.len(),
{
    if nodes.len() == 0 {
        Map::empty()
    } else {
        map_after_add(initial_map(nodes.drop_last(), s, n), s, nodes.last(), n)
    }
}

/// A consistent-hashing ring over nodes of type `T`, hashing with strategy
/// `S`. The ring is a passive, single-writer structure: it does no I/O and
/// holds its own copies of the nodes.
pub struct HashRing<T, S = XxHash64Strategy> {
    replicas: isize,
    ring: HashMap<u64, T>,
    sorted_keys: Vec<u64>,
    hash_builder: S,
}

impl<T: RingNode> HashRing<T, XxHash64Strategy> {
    /// Creates a new hash ring with the specified nodes, hashing with the
    /// default XXHash64 strategy. `replicas` is the number of virtual
    /// positions each node gets, for a better distribution; a value of zero
    /// or less degenerates to a ring that stays empty.
    pub fn new(nodes: Vec<T>, replicas: isize) -> (r: HashRing<T, XxHash64Strategy>)
        ensures
            r.wf(),
            r.spec_replicas() == replicas as int,
            r.assignment() == initial_map(nodes@, r.strategy(), replicas as int),
    {
        HashRing::with_hasher(nodes, replicas, XxHash64Strategy)
    }
}

impl<T: RingNode, S: HashStrategy> HashRing<T, S> {
    /// Builds an empty ring with the given strategy, then adds each of the
    /// given nodes in input order.
    pub fn with_hasher(nodes: Vec<T>, replicas: isize, hash_builder: S) -> (r: HashRing<T, S>)
        ensures
            r.wf(),
            r.spec_replicas() == replicas as int,
            r.strategy() == hash_builder,
            r.assignment() == initial_map(nodes@, hash_builder, replicas as int),
    {
        let mut new_hash_ring: HashRing<T, S> = HashRing {
            replicas,
            ring: HashMap::new(),
            sorted_keys: Vec::new(),
            hash_builder,
        };
        proof {
            assert(new_hash_ring.sorted_keys@.to_set() =~= new_hash_ring.ring@.dom());
        }
        let n: usize = nodes.len();
        let mut idx: usize = 0;
        while idx < n
            invariant
                n == nodes@.len(),
                0 <= idx <= n,
                new_hash_ring.wf(),
                new_hash_ring.spec_replicas() == replicas as int,
                new_hash_ring.strategy() == hash_builder,
                new_hash_ring.assignment() == initial_map(
                    nodes@.take(idx as int),
                    hash_builder,
                    replicas as int,
                ),
            decreases n - idx,
        {
            new_hash_ring.add_node(&nodes[idx]);
            proof {
                assert(nodes@.take(idx + 1).drop_last() =~= nodes@.take(idx as int));
                assert(nodes@.take(idx + 1).last() == nodes@[idx as int]);
            }
            idx = idx + 1;
        }
        proof {
            assert(nodes@.take(n as int) =~= nodes@);
        }
        new_hash_ring
    }

    /// The number of stored positions, which is also the number of
    /// assignment entries.
    pub fn position_count(&self) -> (c: usize)
        ensures
            c == self.positions().len(),
    {
        self.sorted_keys.len()
    }

    /// The number of entries in the position-to-node assignment.
    pub fn entry_count(&self) -> (c: usize)
        ensures
            c == self.assignment().dom().len(),
    {
        self.ring.len()
    }

    /// The number of positions each node is given.
    pub closed spec fn spec_replicas(self) -> int {
        self.replicas as int
    }

    /// The position-to-node assignment.
    pub closed spec fn assignment(self) -> Map<u64, T> {
        self.ring@
    }

    /// The stored positions, ascending.
    pub closed spec fn positions(self) -> Seq<u64> {
        self.sorted_keys@
    }

    /// The strategy the ring hashes with.
    pub closed spec fn strategy(self) -> S {
        self.hash_builder
    }

    /// Well-formed: the position list is ascending, duplicate-free, and
    /// lists exactly the assignment's domain — no stale and no missing
    /// entries.
    pub open spec fn wf(self) -> bool {
        &&& strictly_sorted(self.positions())
        &&& self.positions().to_set() == self.assignment().dom()
    }

    /// The node a key resolves to: none on an empty ring, otherwise the
    /// node assigned to the position owning the key's digest.
    pub open spec fn lookup(self, key: Seq<char>) -> Option<T> {
        if self.positions().len() == 0 {
            None
        } else {
            Some(
                self.assignment()[owner_position(
                    self.positions(),
                    digest_of_chars(self.strategy(), key),
                )],
            )
        }
    }

    /// Generates a position from a string key.
    fn gen_key(&self, key: &String) -> (h: u64)
        ensures
            h == digest_of_chars(self.strategy(), key@),
    {
        self.hash_builder.digest(key.as_str().as_bytes())
    }

    /// Adds a node to the hash ring: one position per replica index. A
    /// position that is already stored (a collision, or the same node added
    /// again) keeps its single list entry and its assignment is overwritten,
    /// so the position list stays exactly the assignment's domain.
    pub fn add_node(&mut self, node: &T)
        requires
            old(self).wf(),
        ensures
            final(self).wf(),
            final(self).spec_replicas() == old(self).spec_replicas(),
            final(self).strategy() == old(self).strategy(),
            final(self).assignment() == map_after_add(
                old(self).assignment(),
                old(self).strategy(),
                *node,
                old(self).spec_replicas(),
            ),
    {
        let base = node.identity();
        let mut i: isize = 0;
        while i < self.replicas
            invariant
                0 <= i,
                i <= self.replicas || i == 0,
                self.replicas == old(self).replicas,
                self.hash_builder == old(self).hash_builder,
                self.wf(),
                base@ == node.id(),
                self.ring@ == map_after_add(
                    old(self).ring@,
                    old(self).hash_builder,
                    *node,
                    i as int,
                ),
            decreases self.replicas - i,
        {
            let key = make_replica_key(&base, i);
            let p: u64 = self.gen_key(&key);
            let ghost prev_sorted = self.sorted_keys@;
            let ghost prev_map = self.ring@;
            let existed: bool = self.ring.contains_key(&p);
            self.ring.insert(p, node.duplicate());
            if !existed {
                let idx: usize = find_insert_index(&self.sorted_keys, p);
                self.sorted_keys.insert(idx, p);
                proof {
                    lemma_sorted_insert(prev_sorted, idx as int, p);
                }
            } else {
                proof {
                    assert(prev_map.dom().insert(p) =~= prev_map.dom());
                }
            }
            proof {
                assert(self.ring@ == map_after_add(
                    old(self).ring@,
                    old(self).hash_builder,
                    *node,
                    i + 1,
                ));
            }
            i = i + 1;
        }
    }

    /// Deletes a node from the hash ring, one replica index at a time in
    /// order. The pass stops at the first index whose position is absent:
    /// a node whose first missing replica is reached is treated as not a
    /// member, and indices already processed in this call stay removed.
    /// A position is removed by value alone, without checking which node
    /// owns it (see [`map_after_remove`]). Removing a node that was never
    /// added leaves the ring unchanged.
    pub fn remove_node(&mut self, node: &T)
        requires
            old(self).wf(),
        ensures
            final(self).wf(),
            final(self).spec_replicas() == old(self).spec_replicas(),
            final(self).strategy() == old(self).strategy(),
            final(self).assignment() == map_after_remove(
                old(self).assignment(),
                old(self).strategy(),
                node.id(),
                0,
                old(self).spec_replicas(),
            ),
    {
        let base = node.identity();
        let ghost n = old(self).replicas as int;
        let mut i: isize = 0;
        while i < self.replicas
            invariant
                0 <= i,
                i <= self.replicas || i == 0,
                self.replicas == old(self).replicas,
                n == old(self).replicas as int,
                self.hash_builder == old(self).hash_builder,
                self.wf(),
                base@ == node.id(),
                map_after_remove(
                    old(self).ring@,
                    old(self).hash_builder,
                    node.id(),
                    0,
                    n,
                ) == map_after_remove(
                    self.ring@,
                    old(self).hash_builder,
                    node.id(),
                    i as int,
                    n,
                ),
            decreases self.replicas - i,
        {
            let key = make_replica_key(&base, i);
            let p: u64 = self.gen_key(&key);
            if !self.ring.contains_key(&p) {
                proof {
                    assert(map_after_remove(
                        self.ring@,
                        old(self).hash_builder,
                        node.id(),
                        i as int,
                        n,
                    ) == self.ring@);
                }
                return;
            }
            let ghost prev_sorted = self.sorted_keys@;
            let ghost prev_map = self.ring@;
            self.ring.remove(&p);
            let mut j: usize = 0;
            while j < self.sorted_keys.len() && self.sorted_keys[j] != p
                invariant
                    0 <= j <= self.sorted_keys@.len(),
                    self.sorted_keys@ == prev_sorted,
                    prev_sorted.to_set().contains(p),
                    forall|k: int| 0 <= k < j ==> self.sorted_keys@[k] != p,
                decreases self.sorted_keys@.len() - j,
            {
                j = j + 1;
            }
            proof {
                if j == prev_sorted.len() {
                    let k = choose|k: int| 0 <= k < prev_sorted.len() && prev_sorted[k] == p;
                    assert(false);
                }
                assert(j < prev_sorted.len() && prev_sorted[j as int] == p);
            }
            let _removed: u64 = self.sorted_keys.remove(j);
            proof {
                lemma_sorted_remove(prev_sorted, j as int);
                assert(self.ring@ == prev_map.remove(p));
                assert(self.sorted_keys@.to_set() =~= self.ring@.dom());
                assert(map_after_remove(
                    prev_map,
                    old(self).hash_builder,
                    node.id(),
                    i as int,
                    n,
                ) == map_after_remove(
                    self.ring@,
                    old(self).hash_builder,
                    node.id(),
                    i + 1,
                    n,
                ));
            }
            i = i + 1;
        }
    }

    /// Gets the node a specific key belongs to: none only on an empty ring,
    /// otherwise the node owning the first stored position at or after the
    /// key's digest, wrapping around to the smallest stored position. The
    /// result is a function of the ring state and the key alone, so repeated
    /// lookups with fixed membership return the same node.
    pub fn get_node(&self, key: String) -> (r: Option<&T>)
        requires
            self.wf(),
        ensures
            r is Some <==> self.positions().len() > 0,
            match r {
                Some(node) => self.lookup(key@) == Some(*node),
                None => self.lookup(key@) is None,
            },
    {
        if self.sorted_keys.is_empty() {
            return None;
        }
        let generated_key: u64 = self.gen_key(&key);
        let n: usize = self.sorted_keys.len();
        let mut idx: usize = 0;
        while idx < n
            invariant
                self.wf(),
                n == self.sorted_keys@.len(),
                0 < n,
                0 <= idx <= n,
                generated_key == digest_of_chars(self.strategy(), key@),
                forall|k: int| 0 <= k < idx ==> self.sorted_keys@[k] < generated_key,
            decreases n - idx,
        {
            let node_key: u64 = self.sorted_keys[idx];
            if generated_key <= node_key {
                proof {
                    lemma_successor_at_index(self.sorted_keys@, generated_key, idx as int);
                    assert(successor_in(self.sorted_keys@, generated_key) == Some(node_key));
                    assert(owner_position(self.sorted_keys@, generated_key) == node_key);
                    assert(self.sorted_keys@.to_set().contains(node_key));
                    assert(self.ring@.dom().contains(node_key));
                }
                let got = self.ring.get(&node_key);
                match got {
                    Some(v) => {
                        proof {
                            assert(self.ring@.contains_key(node_key) && self.ring@[node_key]
                                == *v);
                            assert(self.lookup(key@) == Some(*v));
                        }
                        return Some(v);
                    },
                    None => {
                        proof {
                            assert(false);
                        }
                        return None;
                    },
                }
            }
            idx = idx + 1;
        }
        proof {
            lemma_successor_none(self.sorted_keys@, generated_key);
            assert(self.sorted_keys@.contains(self.sorted_keys@[0]));
            assert(self.sorted_keys@.to_set().contains(self.sorted_keys@[0]));
            assert(self.ring@.dom().contains(self.sorted_keys@[0]));
        }
        let node_key: u64 = self.sorted_keys[0];
        let got = self.ring.get(&node_key);
        match got {
            Some(v) => {
                proof {
                    assert(self.ring@.contains_key(node_key) && self.ring@[node_key] == *v);
                    assert(self.lookup(key@) == Some(*v));
                }
                Some(v)
            },
            None => {
                proof {
                    assert(false);
                }
                None
            },
        }
    }
}

/// The key string `"{base}:{i}"` for replica index `i`.
fn make_replica_key(base: &String, i: isize) -> (key: String)
    requires
        0 <= i,
    ensures
        key@ == replica_key_chars(base@, i as int),
{
    let mut key: String = base.clone();
    key.append(":");
    crate::digits::push_decimal(&mut key, i as u64);
    proof {
        reveal_strlit(":");
        assert(key@ =~= replica_key_chars(base@, i as int));
    }
    key
}

/// The index where `p` belongs in an ascending position list: the first
/// index whose position is at or after `p`.
fn find_insert_index(keys: &Vec<u64>, p: u64) -> (idx: usize)
    requires
        strictly_sorted(keys@),
    ensures
        0 <= idx <= keys@.len(),
        forall|k: int| 0 <= k < idx ==> keys@[k] < p,
        forall|k: int| idx <= k < keys@.len() ==> keys@[k] >= p,
{
    let n: usize = keys.len();
    let mut idx: usize = 0;
    while idx < n
        invariant
            n == keys@.len(),
            strictly_sorted(keys@),
            0 <= idx <= n,
            forall|k: int| 0 <= k < idx ==> keys@[k] < p,
        decreases n - idx,
    {
        if keys[idx] >= p {
            proof {
                assert forall|k: int| idx <= k < keys@.len() implies keys@[k] >= p by {
                    if k > idx {
                        assert(keys@[idx as int] < keys@[k]);
                    }
                }
            }
            return idx;
        }
        idx = idx + 1;
    }
    idx
}

} // verus!
