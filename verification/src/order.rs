//! Ascending position lists.
//!
//! The ring keeps its positions in a strictly ascending sequence. This module
//! defines that order, the successor-scan model that lookup follows, and the
//! lemmas about inserting into, removing from, and uniquely determining such
//! a sequence.

use vstd::prelude::*;

verus! {

/// Ascending with no duplicates.
pub open spec fn strictly_sorted(keys: Seq<u64>) -> bool {
    forall|i: int, j: int| 0 <= i < j < keys.len() ==> keys[i] < keys[j]
}

/// The first position in `keys` at or after `h`, scanning left to right,
/// if any position is at or after `h`.
pub open spec fn successor_in(keys: Seq<u64>, h: u64) -> Option<u64>
    decreases keys.len(),
{
    if keys.len() == 0 {
        None
    } else if keys[0] >= h {
        Some(keys[0])
    } else {
        successor_in(keys.drop_first(), h)
    }
}

/// The position that owns digest `h`: the first position at or after `h`,
/// wrapping around to the first stored position when `h` is past them all.
pub open spec fn owner_position(keys: Seq<u64>, h: u64) -> u64
    recommends
        keys.len() > 0,
{
    match successor_in(keys, h) {
        Some(p) => p,
        None => keys[0],
    }
}

/// Inserting `p` at its place keeps the sequence ascending and adds exactly
/// `p` to the set of elements.
pub proof fn lemma_sorted_insert(s: Seq<u64>, idx: int, p: u64)
    requires
        strictly_sorted(s),
        0 <= idx <= s.len(),
        forall|k: int| 0 <= k < idx ==> s[k] < p,
        forall|k: int| idx <= k < s.len() ==> s[k] >= p,
        !s.contains(p),
    ensures
        strictly_sorted(s.insert(idx, p)),
        s.insert(idx, p).to_set() == s.to_set().insert(p),
{
    s.insert_ensures(idx, p);
    let t = s.insert(idx, p);
    assert forall|k: int| idx <= k < s.len() implies s[k] > p by {
        assert(s[k] != p);
    }
    assert forall|a: int, b: int| 0 <= a < b < t.len() implies t[a] < t[b] by {
        if a < idx {
            assert(t[a] == s[a]);
        }
        if b < idx {
            assert(t[b] == s[b]);
        }
        if a > idx {
            assert(t[a] == s[a - 1]);
        }
        if b > idx {
            assert(t[b] == s[b - 1]);
        }
    }
    assert forall|x: u64| t.contains(x) implies (s.contains(x) || x == p) by {
        let k = choose|k: int| 0 <= k < t.len() && t[k] == x;
        if k < idx {
            assert(s[k] == x);
        } else if k > idx {
            assert(s[k - 1] == x);
        }
    }
    assert forall|x: u64| s.contains(x) implies t.contains(x) by {
        let k = choose|k: int| 0 <= k < s.len() && s[k] == x;
        if k < idx {
            assert(t[k] == x);
        } else {
            assert(t[k + 1] == x);
        }
    }
    assert(t[idx] == p);
    assert(t.contains(p));
    assert(t.to_set() =~= s.to_set().insert(p));
}

/// Removing the element at `idx` keeps the sequence ascending and removes
/// exactly that element from the set of elements.
pub proof fn lemma_sorted_remove(s: Seq<u64>, idx: int)
    requires
        strictly_sorted(s),
        0 <= idx < s.len(),
    ensures
        strictly_sorted(s.remove(idx)),
        s.remove(idx).to_set() == s.to_set().remove(s[idx]),
{
    s.remove_ensures(idx);
    let t = s.remove(idx);
    assert forall|a: int, b: int| 0 <= a < b < t.len() implies t[a] < t[b] by {
        if a < idx {
            assert(t[a] == s[a]);
        } else {
            assert(t[a] == s[a + 1]);
        }
        if b < idx {
            assert(t[b] == s[b]);
        } else {
            assert(t[b] == s[b + 1]);
        }
    }
    assert forall|x: u64| t.contains(x) implies (s.contains(x) && x != s[idx]) by {
        let k = choose|k: int| 0 <= k < t.len() && t[k] == x;
        if k < idx {
            assert(s[k] == x);
            assert(s[k] < s[idx]);
        } else {
            assert(s[k + 1] == x);
            assert(s[k + 1] > s[idx]);
        }
    }
    assert forall|x: u64| s.contains(x) && x != s[idx] implies t.contains(x) by {
        let k = choose|k: int| 0 <= k < s.len() && s[k] == x;
        if k < idx {
            assert(t[k] == x);
        } else {
            assert(k > idx);
            assert(t[k - 1] == x);
        }
    }
    assert(t.to_set() =~= s.to_set().remove(s[idx]));
}

/// Two ascending duplicate-free sequences over the same set of elements are
/// the same sequence: a set of positions has exactly one sorted listing.
pub proof fn lemma_strictly_sorted_unique(a: Seq<u64>, b: Seq<u64>)
    requires
        strictly_sorted(a),
        strictly_sorted(b),
        a.to_set() == b.to_set(),
    ensures
        a == b,
    decreases a.len(),
{
    if a.len() == 0 {
        if b.len() > 0 {
            assert(b.contains(b[0]));
            assert(b.to_set().contains(b[0]));
            assert(a.contains(b[0]));
        }
        assert(a =~= b);
    } else {
        assert(a.contains(a[0]));
        assert(a.to_set().contains(a[0]));
        assert(b.contains(a[0]));
        if b.len() == 0 {
            assert(b.to_set().contains(a[0]));
        }
        assert(b.contains(b[0]));
        assert(b.to_set().contains(b[0]));
        assert(a.contains(b[0]));
        let ka = choose|k: int| 0 <= k < a.len() && a[k] == b[0];
        let kb = choose|k: int| 0 <= k < b.len() && b[k] == a[0];
        assert(a[ka] >= a[0]);
        assert(b[kb] >= b[0]);
        assert(a[0] == b[0]);
        lemma_head_removed(a);
        lemma_head_removed(b);
        assert(a.drop_first().to_set() =~= b.drop_first().to_set());
        lemma_strictly_sorted_unique(a.drop_first(), b.drop_first());
        assert(a.len() == b.len());
        assert forall|i: int| 0 <= i < a.len() implies a[i] == b[i] by {
            if i > 0 {
                assert(a.drop_first()[i - 1] == a[i]);
                assert(b.drop_first()[i - 1] == b[i]);
            }
        }
        assert(a =~= b);
    }
}

/// Dropping the head of an ascending sequence removes exactly the head from
/// the set of elements.
proof fn lemma_head_removed(s: Seq<u64>)
    requires
        strictly_sorted(s),
        s.len() > 0,
    ensures
        s.drop_first().to_set() == s.to_set().remove(s[0]),
{
    lemma_sorted_remove(s, 0);
    assert(s.remove(0) =~= s.drop_first());
}

/// If everything before `idx` is below `h` and `keys[idx]` is not, then the
/// successor scan stops exactly at `idx`.
pub proof fn lemma_successor_at_index(keys: Seq<u64>, h: u64, idx: int)
    requires
        0 <= idx < keys.len(),
        forall|k: int| 0 <= k < idx ==> keys[k] < h,
        keys[idx] >= h,
    ensures
        successor_in(keys, h) == Some(keys[idx]),
    decreases idx,
{
    if idx == 0 {
    } else {
        assert(keys[0] < h);
        lemma_successor_at_index(keys.drop_first(), h, idx - 1);
    }
}

/// If every stored position is below `h`, the successor scan finds nothing.
pub proof fn lemma_successor_none(keys: Seq<u64>, h: u64)
    requires
        forall|k: int| 0 <= k < keys.len() ==> keys[k] < h,
    ensures
        successor_in(keys, h) is None,
    decreases keys.len(),
{
    if keys.len() > 0 {
        lemma_successor_none(keys.drop_first(), h);
    }
}

} // verus!
