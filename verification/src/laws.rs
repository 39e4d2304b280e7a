//! Ring-level laws.
//!
//! Each proof function here states a property of the ring that relates
//! several operations or holds of every state, over the same spec functions
//! that the operation contracts use.

use crate::hash_ring::{
    digest_of_chars, initial_map, map_after_add, map_after_remove, replica_position, HashRing,
};
use crate::node::RingNode;
use crate::order::{lemma_strictly_sorted_unique, lemma_successor_none};
use crate::strategy::HashStrategy;
use vstd::prelude::*;

verus! {

/// Determinism: a lookup is a function of the stored positions, the
/// assignment, and the digest the strategy gives the key — two rings that
/// agree on those resolve any key identically, so repeated calls with fixed
/// membership return the same node.
pub proof fn lemma_lookup_deterministic<T: RingNode, S: HashStrategy>(
    a: HashRing<T, S>,
    b: HashRing<T, S>,
    key: Seq<char>,
)
    requires
        a.positions() == b.positions(),
        a.assignment() == b.assignment(),
        digest_of_chars(a.strategy(), key) == digest_of_chars(b.strategy(), key),
    ensures
        a.lookup(key) == b.lookup(key),
{
}

/// Coverage: on a non-empty ring, no lookup comes back empty.
pub proof fn lemma_lookup_covers<T: RingNode, S: HashStrategy>(r: HashRing<T, S>, key: Seq<char>)
    requires
        r.positions().len() > 0,
    ensures
        r.lookup(key) is Some,
{
}

/// Emptiness: a ring whose assignment is empty — as a ring constructed from
/// zero nodes is — answers every lookup with no result.
pub proof fn lemma_empty_ring_lookup<T: RingNode, S: HashStrategy>(
    r: HashRing<T, S>,
    key: Seq<char>,
)
    requires
        r.wf(),
        r.assignment() == Map::<u64, T>::empty(),
    ensures
        r.lookup(key) is None,
{
    if r.positions().len() > 0 {
        assert(r.positions().contains(r.positions()[0]));
        assert(r.positions().to_set().contains(r.positions()[0]));
        assert(r.assignment().dom().contains(r.positions()[0]));
    }
}

/// Idempotent harmless removal: a removal pass for a node whose first
/// replica position is not stored — in particular, for a node that was
/// never added — leaves the ring exactly as it was, so every later lookup
/// is unchanged.
pub proof fn lemma_harmless_removal<T: RingNode, S: HashStrategy>(
    r0: HashRing<T, S>,
    r1: HashRing<T, S>,
    node: T,
)
    requires
        r0.wf(),
        r1.wf(),
        r1.strategy() == r0.strategy(),
        r1.assignment() == map_after_remove(
            r0.assignment(),
            r0.strategy(),
            node.id(),
            0,
            r0.spec_replicas(),
        ),
        r0.spec_replicas() <= 0 || !r0.assignment().contains_key(
            replica_position(r0.strategy(), node.id(), 0),
        ),
    ensures
        r1.assignment() == r0.assignment(),
        r1.positions() == r0.positions(),
        forall|key: Seq<char>| r1.lookup(key) == r0.lookup(key),
{
    assert(r1.assignment() == r0.assignment());
    lemma_strictly_sorted_unique(r1.positions(), r0.positions());
    assert forall|key: Seq<char>| #[trigger] r1.lookup(key) == r0.lookup(key) by {
        assert(digest_of_chars(r1.strategy(), key) == digest_of_chars(r0.strategy(), key));
    }
}

/// Wrap-around: when a key's digest is past every stored position, the
/// lookup wraps and resolves to the node owning the smallest position.
pub proof fn lemma_wrap_around<T: RingNode, S: HashStrategy>(r: HashRing<T, S>, key: Seq<char>)
    requires
        r.wf(),
        r.positions().len() > 0,
        forall|k: int|
            0 <= k < r.positions().len() ==> r.positions()[k] < digest_of_chars(
                r.strategy(),
                key,
            ),
    ensures
        r.lookup(key) == Some(r.assignment()[r.positions().first()]),
{
    lemma_successor_none(r.positions(), digest_of_chars(r.strategy(), key));
}

/// Degenerate strategy: when the strategy gives every input the same
/// digest, every key resolves to the same single node.
pub proof fn lemma_constant_strategy<T: RingNode, S: HashStrategy>(
    r: HashRing<T, S>,
    key1: Seq<char>,
    key2: Seq<char>,
)
    requires
        r.positions().len() > 0,
        forall|b1: Seq<u8>, b2: Seq<u8>|
            #![trigger r.strategy().digest_spec(b1), r.strategy().digest_spec(b2)]
            r.strategy().digest_spec(b1) == r.strategy().digest_spec(b2),
    ensures
        r.lookup(key1) is Some,
        r.lookup(key1) == r.lookup(key2),
{
    assert(digest_of_chars(r.strategy(), key1) == digest_of_chars(r.strategy(), key2));
}

/// Some replica index in `[lo, n)` of identity `id` lands on position `p`.
pub open spec fn position_among<S: HashStrategy>(
    s: S,
    id: Seq<char>,
    lo: int,
    n: int,
    p: u64,
) -> bool {
    exists|i: int| lo <= i < n && replica_position(s, id, i) == p
}

/// The `n` replicas of one identity land on pairwise different positions.
pub open spec fn distinct_replicas<S: HashStrategy>(s: S, id: Seq<char>, n: int) -> bool {
    forall|i: int, j: int|
        0 <= i < j < n ==> replica_position(s, id, i) != replica_position(s, id, j)
}

/// None of the `n` replica positions of `id` is stored in `m`.
pub open spec fn replicas_fresh<T, S: HashStrategy>(
    m: Map<u64, T>,
    s: S,
    id: Seq<char>,
    n: int,
) -> bool {
    forall|i: int| 0 <= i < n ==> !m.contains_key(replica_position(s, id, i))
}

/// No two replicas of `nodes` — across nodes or replica indices — share a
/// position.
pub open spec fn no_position_collisions<T: RingNode, S: HashStrategy>(
    nodes: Seq<T>,
    s: S,
    n: int,
) -> bool {
    forall|a: int, i: int, b: int, j: int|
        0 <= a < nodes.len() && 0 <= i < n && 0 <= b < nodes.len() && 0 <= j < n && (a != b || i
            != j) ==> replica_position(s, nodes[a].id(), i) != replica_position(
            s,
            nodes[b].id(),
            j,
        )
}

/// What adding a node does at one key `p`: exactly the node's replica
/// positions are added, each assigned to the node, and every other entry
/// is untouched.
proof fn lemma_map_after_add_at<T: RingNode, S: HashStrategy>(
    m: Map<u64, T>,
    s: S,
    node: T,
    n: int,
    p: u64,
)
    ensures
        map_after_add(m, s, node, n).contains_key(p) <==> (m.contains_key(p) || position_among(
            s,
            node.id(),
            0,
            n,
            p,
        )),
        map_after_add(m, s, node, n).contains_key(p) ==> map_after_add(m, s, node, n)[p] == (
        if position_among(s, node.id(), 0, n, p) {
            node
        } else {
            m[p]
        }),
    decreases n,
{
    if n <= 0 {
        if position_among(s, node.id(), 0, n, p) {
            let i = choose|i: int| 0 <= i < n && replica_position(s, node.id(), i) == p;
            assert(false);
        }
    } else {
        lemma_map_after_add_at(m, s, node, n - 1, p);
        let prev = map_after_add(m, s, node, n - 1);
        let p_last = replica_position(s, node.id(), n - 1);
        let cur = prev.insert(p_last, node);
        assert(map_after_add(m, s, node, n) == cur);
        if p == p_last {
            assert(0 <= n - 1 < n && replica_position(s, node.id(), n - 1) == p);
            assert(position_among(s, node.id(), 0, n, p));
            assert(cur[p] == node);
        } else {
            assert(cur.contains_key(p) <==> prev.contains_key(p));
            if position_among(s, node.id(), 0, n - 1, p) {
                let i = choose|i: int| 0 <= i < n - 1 && replica_position(s, node.id(), i) == p;
                assert(0 <= i < n && replica_position(s, node.id(), i) == p);
                assert(position_among(s, node.id(), 0, n, p));
            }
            if position_among(s, node.id(), 0, n, p) {
                let i = choose|i: int| 0 <= i < n && replica_position(s, node.id(), i) == p;
                assert(i != n - 1);
                assert(0 <= i < n - 1 && replica_position(s, node.id(), i) == p);
                assert(position_among(s, node.id(), 0, n - 1, p));
            }
            if cur.contains_key(p) {
                assert(cur[p] == prev[p]);
            }
        }
    }
}

/// Adding keeps the assignment's domain finite.
proof fn lemma_map_after_add_finite<T: RingNode, S: HashStrategy>(
    m: Map<u64, T>,
    s: S,
    node: T,
    n: int,
)
    requires
        m.dom().finite(),
    ensures
        map_after_add(m, s, node, n).dom().finite(),
    decreases n,
{
    if n > 0 {
        lemma_map_after_add_finite(m, s, node, n - 1);
    }
}

/// Adding a node whose replica positions are pairwise different and not yet
/// stored grows the assignment by exactly `n` entries.
proof fn lemma_map_after_add_card<T: RingNode, S: HashStrategy>(
    m: Map<u64, T>,
    s: S,
    node: T,
    n: int,
)
    requires
        m.dom().finite(),
        n >= 0,
        distinct_replicas(s, node.id(), n),
        replicas_fresh(m, s, node.id(), n),
    ensures
        map_after_add(m, s, node, n).dom().finite(),
        map_after_add(m, s, node, n).dom().len() == m.dom().len() + n,
    decreases n,
{
    lemma_map_after_add_finite(m, s, node, n);
    if n > 0 {
        lemma_map_after_add_card(m, s, node, n - 1);
        let prev = map_after_add(m, s, node, n - 1);
        let p_last = replica_position(s, node.id(), n - 1);
        lemma_map_after_add_at(m, s, node, n - 1, p_last);
        if prev.contains_key(p_last) {
            if position_among(s, node.id(), 0, n - 1, p_last) {
                let i = choose|i: int|
                    0 <= i < n - 1 && replica_position(s, node.id(), i) == p_last;
                assert(false);
            }
            assert(false);
        }
        assert(map_after_add(m, s, node, n).dom() =~= prev.dom().insert(p_last));
    }
}

/// Every stored position of a freshly built ring is some node's replica
/// position.
proof fn lemma_initial_map_covered<T: RingNode, S: HashStrategy>(
    nodes: Seq<T>,
    s: S,
    n: int,
    p: u64,
)
    requires
        initial_map(nodes, s, n).contains_key(p),
    ensures
        exists|a: int| 0 <= a < nodes.len() && position_among(s, nodes[a].id(), 0, n, p),
    decreases nodes.len(),
{
    if nodes.len() == 0 {
        assert(false);
    } else {
        let prefix = nodes.drop_last();
        let last = nodes.last();
        let len = nodes.len() as int;
        lemma_map_after_add_at(initial_map(prefix, s, n), s, last, n, p);
        if initial_map(prefix, s, n).contains_key(p) {
            lemma_initial_map_covered(prefix, s, n, p);
            let a = choose|a: int|
                0 <= a < prefix.len() && position_among(s, prefix[a].id(), 0, n, p);
            assert(prefix[a] == nodes[a]);
            assert(0 <= a < nodes.len() && position_among(s, nodes[a].id(), 0, n, p));
        } else {
            assert(position_among(s, last.id(), 0, n, p));
            assert(last == nodes[len - 1]);
            assert(0 <= len - 1 < nodes.len() && position_among(s, nodes[len - 1].id(), 0, n, p));
        }
    }
}

/// Replica accounting at the assignment level: building a ring from `nodes`
/// with `n` replicas each and no position collisions stores exactly
/// `nodes.len() * n` entries.
proof fn lemma_initial_map_card<T: RingNode, S: HashStrategy>(nodes: Seq<T>, s: S, n: int)
    requires
        n >= 0,
        no_position_collisions(nodes, s, n),
    ensures
        initial_map(nodes, s, n).dom().finite(),
        initial_map(nodes, s, n).dom().len() == nodes.len() * n,
    decreases nodes.len(),
{
    if nodes.len() == 0 {
        assert(initial_map(nodes, s, n).dom() =~= Set::<u64>::empty());
    } else {
        let prefix = nodes.drop_last();
        let last = nodes.last();
        let len = nodes.len() as int;
        assert(no_position_collisions(prefix, s, n)) by {
            assert forall|a: int, i: int, b: int, j: int|
                0 <= a < prefix.len() && 0 <= i < n && 0 <= b < prefix.len() && 0 <= j < n && (a
                    != b || i != j) implies replica_position(s, prefix[a].id(), i)
                != replica_position(s, prefix[b].id(), j) by {
                assert(prefix[a] == nodes[a]);
                assert(prefix[b] == nodes[b]);
            }
        }
        lemma_initial_map_card(prefix, s, n);
        let pm = initial_map(prefix, s, n);
        assert(distinct_replicas(s, last.id(), n)) by {
            assert forall|i: int, j: int| 0 <= i < j < n implies replica_position(
                s,
                last.id(),
                i,
            ) != replica_position(s, last.id(), j) by {
                assert(last == nodes[len - 1]);
            }
        }
        assert(replicas_fresh(pm, s, last.id(), n)) by {
            assert forall|i: int| 0 <= i < n implies !pm.contains_key(
                replica_position(s, last.id(), i),
            ) by {
                let p = replica_position(s, last.id(), i);
                if pm.contains_key(p) {
                    lemma_initial_map_covered(prefix, s, n, p);
                    let a = choose|a: int|
                        0 <= a < prefix.len() && position_among(s, prefix[a].id(), 0, n, p);
                    let j = choose|j: int|
                        0 <= j < n && replica_position(s, prefix[a].id(), j) == p;
                    assert(prefix[a] == nodes[a]);
                    assert(last == nodes[len - 1]);
                    assert(replica_position(s, nodes[a].id(), j) == replica_position(
                        s,
                        nodes[len - 1].id(),
                        i,
                    ));
                    assert(false);
                }
            }
        }
        lemma_map_after_add_card(pm, s, last, n);
        assert((len - 1) * n + n == len * n) by (nonlinear_arith);
    }
}

/// Replica accounting: a well-formed ring built from `nodes` with a
/// non-negative replica count and no position collisions stores exactly
/// `nodes.len() * replicas` positions, in the list and in the assignment.
pub proof fn lemma_replica_accounting<T: RingNode, S: HashStrategy>(
    r: HashRing<T, S>,
    nodes: Seq<T>,
)
    requires
        r.wf(),
        r.spec_replicas() >= 0,
        r.assignment() == initial_map(nodes, r.strategy(), r.spec_replicas()),
        no_position_collisions(nodes, r.strategy(), r.spec_replicas()),
    ensures
        r.assignment().dom().len() == nodes.len() * r.spec_replicas(),
        r.positions().len() == nodes.len() * r.spec_replicas(),
{
    lemma_initial_map_card(nodes, r.strategy(), r.spec_replicas());
    assert(r.positions().no_duplicates()) by {
        assert forall|i: int, j: int|
            0 <= i < r.positions().len() && 0 <= j < r.positions().len() && i != j
            implies r.positions()[i] != r.positions()[j] by {
            if i < j {
                assert(r.positions()[i] < r.positions()[j]);
            } else {
                assert(r.positions()[j] < r.positions()[i]);
            }
        }
    }
    r.positions().unique_seq_to_set();
}

/// The same additions written front-first: replicas `i .. n` of `node`,
/// with lower indices inserted last.
spec fn map_with_added_from<T: RingNode, S: HashStrategy>(
    m: Map<u64, T>,
    s: S,
    node: T,
    i: int,
    n: int,
) -> Map<u64, T>
    decreases n - i,
{
    if i >= n {
        m
    } else {
        map_with_added_from(m, s, node, i + 1, n).insert(replica_position(s, node.id(), i), node)
    }
}

/// What the front-first additions do at one key `p`.
proof fn lemma_map_with_added_from_at<T: RingNode, S: HashStrategy>(
    m: Map<u64, T>,
    s: S,
    node: T,
    i: int,
    n: int,
    p: u64,
)
    requires
        i <= n,
    ensures
        map_with_added_from(m, s, node, i, n).contains_key(p) <==> (m.contains_key(p)
            || position_among(s, node.id(), i, n, p)),
        map_with_added_from(m, s, node, i, n).contains_key(p) ==> map_with_added_from(
            m,
            s,
            node,
            i,
            n,
        )[p] == (if position_among(s, node.id(), i, n, p) {
            node
        } else {
            m[p]
        }),
    decreases n - i,
{
    if i >= n {
        if position_among(s, node.id(), i, n, p) {
            let k = choose|k: int| i <= k < n && replica_position(s, node.id(), k) == p;
            assert(false);
        }
    } else {
        lemma_map_with_added_from_at(m, s, node, i + 1, n, p);
        let inner = map_with_added_from(m, s, node, i + 1, n);
        let p_first = replica_position(s, node.id(), i);
        let cur = inner.insert(p_first, node);
        assert(map_with_added_from(m, s, node, i, n) == cur);
        if p == p_first {
            assert(i <= i < n && replica_position(s, node.id(), i) == p);
            assert(position_among(s, node.id(), i, n, p));
            assert(cur[p] == node);
        } else {
            assert(cur.contains_key(p) <==> inner.contains_key(p));
            if position_among(s, node.id(), i + 1, n, p) {
                let k = choose|k: int| i + 1 <= k < n && replica_position(s, node.id(), k) == p;
                assert(i <= k < n && replica_position(s, node.id(), k) == p);
                assert(position_among(s, node.id(), i, n, p));
            }
            if position_among(s, node.id(), i, n, p) {
                let k = choose|k: int| i <= k < n && replica_position(s, node.id(), k) == p;
                assert(k != i);
                assert(i + 1 <= k < n && replica_position(s, node.id(), k) == p);
                assert(position_among(s, node.id(), i + 1, n, p));
            }
            if cur.contains_key(p) {
                assert(cur[p] == inner[p]);
            }
        }
    }
}

/// Index order does not matter: adding replicas back-first and front-first
/// builds the same assignment.
proof fn lemma_add_orders_agree<T: RingNode, S: HashStrategy>(m: Map<u64, T>, s: S, node: T, n: int)
    requires
        n >= 0,
    ensures
        map_after_add(m, s, node, n) == map_with_added_from(m, s, node, 0, n),
{
    let a = map_after_add(m, s, node, n);
    let b = map_with_added_from(m, s, node, 0, n);
    assert forall|p: u64| #![auto] a.contains_key(p) <==> b.contains_key(p) by {
        lemma_map_after_add_at(m, s, node, n, p);
        lemma_map_with_added_from_at(m, s, node, 0, n, p);
    }
    assert forall|p: u64| #![auto] a.contains_key(p) implies a[p] == b[p] by {
        lemma_map_after_add_at(m, s, node, n, p);
        lemma_map_with_added_from_at(m, s, node, 0, n, p);
    }
    assert(a.dom() =~= b.dom());
    assert(a =~= b);
}

/// The removal pass undoes the front-first additions exactly, when the
/// replica positions are pairwise different and none was stored before.
proof fn lemma_remove_undoes<T: RingNode, S: HashStrategy>(
    m: Map<u64, T>,
    s: S,
    node: T,
    i: int,
    n: int,
)
    requires
        0 <= i <= n,
        distinct_replicas(s, node.id(), n),
        replicas_fresh(m, s, node.id(), n),
    ensures
        map_after_remove(map_with_added_from(m, s, node, i, n), s, node.id(), i, n) == m,
    decreases n - i,
{
    if i < n {
        let p = replica_position(s, node.id(), i);
        let inner = map_with_added_from(m, s, node, i + 1, n);
        let cur = inner.insert(p, node);
        assert(map_with_added_from(m, s, node, i, n) == cur);
        assert(cur.contains_key(p));
        lemma_map_with_added_from_at(m, s, node, i + 1, n, p);
        if inner.contains_key(p) {
            if position_among(s, node.id(), i + 1, n, p) {
                let k = choose|k: int| i + 1 <= k < n && replica_position(s, node.id(), k) == p;
                assert(false);
            }
            assert(false);
        }
        assert(cur.remove(p) =~= inner);
        lemma_remove_undoes(m, s, node, i + 1, n);
        assert(map_after_remove(cur, s, node.id(), i, n) == map_after_remove(
            cur.remove(p),
            s,
            node.id(),
            i + 1,
            n,
        ));
    }
}

/// Add/remove inverse in the collision-free case: removing a node that was
/// just added — none of whose replica positions was stored before the add,
/// nor collides with another — restores the assignment and the position
/// list exactly, so every lookup returns what it returned before the add.
pub proof fn lemma_add_remove_inverse<T: RingNode, S: HashStrategy>(
    r0: HashRing<T, S>,
    r1: HashRing<T, S>,
    r2: HashRing<T, S>,
    node: T,
)
    requires
        r0.wf(),
        r1.wf(),
        r2.wf(),
        r0.spec_replicas() >= 0,
        r1.strategy() == r0.strategy(),
        r2.strategy() == r0.strategy(),
        r1.assignment() == map_after_add(
            r0.assignment(),
            r0.strategy(),
            node,
            r0.spec_replicas(),
        ),
        r2.assignment() == map_after_remove(
            r1.assignment(),
            r0.strategy(),
            node.id(),
            0,
            r0.spec_replicas(),
        ),
        distinct_replicas(r0.strategy(), node.id(), r0.spec_replicas()),
        replicas_fresh(r0.assignment(), r0.strategy(), node.id(), r0.spec_replicas()),
    ensures
        r2.assignment() == r0.assignment(),
        r2.positions() == r0.positions(),
        forall|key: Seq<char>| r2.lookup(key) == r0.lookup(key),
{
    lemma_add_orders_agree(r0.assignment(), r0.strategy(), node, r0.spec_replicas());
    lemma_remove_undoes(r0.assignment(), r0.strategy(), node, 0, r0.spec_replicas());
    assert(r2.assignment() == r0.assignment());
    lemma_strictly_sorted_unique(r2.positions(), r0.positions());
    assert forall|key: Seq<char>| #[trigger] r2.lookup(key) == r0.lookup(key) by {
        assert(digest_of_chars(r2.strategy(), key) == digest_of_chars(r0.strategy(), key));
    }
}

} // verus!
