//! The abstract state of a cache: its entries in recency order, most recently
//! used first, and the effect of each operation on that sequence.
use vstd::prelude::*;

verus! {

/// No key occurs twice among the entries.
pub open spec fn unique_keys<K, V>(s: Seq<(K, V)>) -> bool {
    forall|i: int, j: int| 0 <= i < s.len() && 0 <= j < s.len() && i != j ==> s[i].0 != s[j].0
}

/// Some entry carries key `k`.
pub open spec fn has_key<K, V>(s: Seq<(K, V)>, k: K) -> bool {
    exists|i: int| 0 <= i < s.len() && s[i].0 == k
}

/// The position of the entry with key `k` (meaningful when `has_key(s, k)`).
pub open spec fn key_index<K, V>(s: Seq<(K, V)>, k: K) -> int {
    choose|i: int| 0 <= i < s.len() && s[i].0 == k
}

/// The value stored under `k`, if any.
pub open spec fn lookup<K, V>(s: Seq<(K, V)>, k: K) -> Option<V> {
    if has_key(s, k) {
        Some(s[key_index(s, k)].1)
    } else {
        None
    }
}

/// The set of keys among the entries.
pub open spec fn key_set<K, V>(s: Seq<(K, V)>) -> Set<K> {
    Set::new(|k: K| has_key(s, k))
}

/// The entries after a read of `k`: a present key moves to the front.
pub open spec fn touch<K, V>(s: Seq<(K, V)>, k: K) -> Seq<(K, V)> {
    if has_key(s, k) {
        let i = key_index(s, k);
        seq![s[i]] + s.remove(i)
    } else {
        s
    }
}

/// The entries after writing `v` under `k` into a cache that holds at most
/// `cap` entries: any old entry for `k` goes; if the rest still fills the
/// cache, its last (least recently used) entry goes too; `(k, v)` comes first.
pub open spec fn store<K, V>(s: Seq<(K, V)>, k: K, v: V, cap: nat) -> Seq<(K, V)> {
    let rest = if has_key(s, k) {
        s.remove(key_index(s, k))
    } else {
        s
    };
    let kept = if rest.len() >= cap {
        rest.drop_last()
    } else {
        rest
    };
    seq![(k, v)] + kept
}

/// With distinct keys, the entry at `j` is the one that `key_index` finds.
pub proof fn lemma_key_index<K, V>(s: Seq<(K, V)>, j: int)
    requires
        unique_keys(s),
        0 <= j < s.len(),
    ensures
        has_key(s, s[j].0),
        key_index(s, s[j].0) == j,
        lookup(s, s[j].0) == Some(s[j].1),
{
    assert(has_key(s, s[j].0));
}

/// A write into a cache that holds at most `cap` entries leaves it holding
/// at most `cap` entries.
pub proof fn lemma_store_bounded<K, V>(s: Seq<(K, V)>, k: K, v: V, cap: nat)
    requires
        0 < cap,
        s.len() <= cap,
    ensures
        store(s, k, v, cap).len() <= cap,
{
}

/// Writing a key that is already present keeps the number of entries.
pub proof fn lemma_store_existing_keeps_size<K, V>(s: Seq<(K, V)>, k: K, v: V, cap: nat)
    requires
        s.len() <= cap,
        has_key(s, k),
    ensures
        store(s, k, v, cap).len() == s.len(),
{
}

/// Writing a new key into a full cache evicts exactly the key of the last
/// entry, the least recently used one, and adds the new key.
pub proof fn lemma_eviction_takes_least_recent<K, V>(s: Seq<(K, V)>, k: K, v: V, cap: nat)
    requires
        unique_keys(s),
        0 < cap,
        s.len() == cap,
        !has_key(s, k),
    ensures
        key_set(store(s, k, v, cap)) == key_set(s).remove(s.last().0).insert(k),
        !has_key(store(s, k, v, cap), s.last().0),
{
    let t = store(s, k, v, cap);
    assert(t =~= seq![(k, v)] + s.drop_last());
    assert forall|x: K| #[trigger] key_set(t).contains(x) == key_set(s).remove(s.last().0).insert(
        k,
    ).contains(x) by {
        if has_key(t, x) && x != k {
            let j = choose|j: int| 0 <= j < t.len() && t[j].0 == x;
            assert(s[j - 1].0 == x);
            assert(s.last().0 == s[s.len() - 1].0);
        }
        if has_key(s, x) && x != s.last().0 && x != k {
            let j = choose|j: int| 0 <= j < s.len() && s[j].0 == x;
            assert(t[j + 1].0 == x);
        }
        if x == k {
            assert(t[0].0 == k);
        }
    }
    assert(key_set(t) =~= key_set(s).remove(s.last().0).insert(k));
    if has_key(t, s.last().0) {
        let j = choose|j: int| 0 <= j < t.len() && t[j].0 == s.last().0;
        assert(s[j - 1].0 == s[s.len() - 1].0);
    }
}

/// A read of an absent key leaves the entries as they are.
pub proof fn lemma_touch_absent<K, V>(s: Seq<(K, V)>, k: K)
    requires
        !has_key(s, k),
    ensures
        touch(s, k) == s,
        lookup(s, k) is None,
{
}

/// A write of `v` under `k` followed at once by a read of `k` finds `v`, and
/// the read leaves the order as the write made it.
pub proof fn lemma_store_then_lookup<K, V>(s: Seq<(K, V)>, k: K, v: V, cap: nat)
    requires
        unique_keys(s),
        0 < cap,
        s.len() <= cap,
    ensures
        lookup(store(s, k, v, cap), k) == Some(v),
        touch(store(s, k, v, cap), k) == store(s, k, v, cap),
{
    let t = store(s, k, v, cap);
    lemma_store_unique(s, k, v, cap);
    lemma_key_index(t, 0);
    assert(t.remove(0) =~= t.subrange(1, t.len() as int));
    assert(seq![t[0]] + t.remove(0) =~= t);
}

/// A write keeps the keys distinct.
pub proof fn lemma_store_unique<K, V>(s: Seq<(K, V)>, k: K, v: V, cap: nat)
    requires
        unique_keys(s),
        0 < cap,
    ensures
        unique_keys(store(s, k, v, cap)),
{
    let rest = if has_key(s, k) {
        s.remove(key_index(s, k))
    } else {
        s
    };
    let kept = if rest.len() >= cap {
        rest.drop_last()
    } else {
        rest
    };
    let t = store(s, k, v, cap);
    assert(t =~= seq![(k, v)] + kept);
    assert(!has_key(rest, k)) by {
        if has_key(rest, k) {
            let a = choose|a: int| 0 <= a < rest.len() && rest[a].0 == k;
            let i = key_index(s, k);
            if a < i {
                assert(s[a].0 == k);
            } else {
                assert(s[a + 1].0 == k);
            }
        }
    }
    assert(unique_keys(rest)) by {
        if has_key(s, k) {
            let i = key_index(s, k);
            assert forall|a: int, b: int|
                0 <= a < rest.len() && 0 <= b < rest.len() && a != b implies rest[a].0
                != rest[b].0 by {
                let a2 = if a < i {
                    a
                } else {
                    a + 1
                };
                let b2 = if b < i {
                    b
                } else {
                    b + 1
                };
                assert(rest[a] == s[a2] && rest[b] == s[b2]);
            }
        }
    }
    assert forall|a: int, b: int|
        0 <= a < t.len() && 0 <= b < t.len() && a != b implies t[a].0 != t[b].0 by {
        if a > 0 && b > 0 {
            assert(t[a] == kept[a - 1] && kept[a - 1] == rest[a - 1]);
            assert(t[b] == kept[b - 1] && kept[b - 1] == rest[b - 1]);
        } else if a > 0 {
            assert(t[a] == kept[a - 1] && kept[a - 1] == rest[a - 1]);
        } else if b > 0 {
            assert(t[b] == kept[b - 1] && kept[b - 1] == rest[b - 1]);
        }
    }
}

} // verus!
