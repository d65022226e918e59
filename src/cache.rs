//! The cache engine: an arena of nodes, the recency list threaded through it,
//! and the key index, mutated together by `get` and `put`.
use std::collections::HashMap;
use std::collections::hash_map::RandomState;
use std::hash::Hash;
use vstd::prelude::*;
use vstd::std_specs::hash::{builds_valid_hashers, obeys_key_model};

use crate::model::{has_key, key_index, key_set, lookup, store, touch, unique_keys};
use crate::node::Node;

verus! {

broadcast use vstd::std_specs::hash::group_hash_axioms;

/// A cache of at most `capacity` entries that evicts the least recently used
/// one when a new key arrives in a full cache.
///
/// Nodes live in `nodes` and are addressed by their position there (a handle).
/// Every slot of the arena is live: a slot freed by replacement or eviction is
/// filled again by the node created in the same `put`.
pub struct LruCache<K, V> {
    nodes: Vec<Node<K, V>>,
    head: Option<usize>,
    tail: Option<usize>,
    map: HashMap<K, usize>,
    cap: usize,
    /// The handles of the recency list, from head to tail.
    order: Ghost<Seq<usize>>,
}

impl<K, V> View for LruCache<K, V> {
    type V = Seq<(K, V)>;

    /// The entries in recency order, most recently used first.
    closed spec fn view(&self) -> Seq<(K, V)> {
        self.order@.map_values(|i: usize| (self.nodes@[i as int].k, self.nodes@[i as int].v))
    }
}

impl<K, V> LruCache<K, V> {
    /// The fixed bound on the number of entries.
    pub closed spec fn capacity(&self) -> nat {
        self.cap as nat
    }

    /// The handles of the recency list, from head to tail.
    pub closed spec fn order(&self) -> Seq<usize> {
        self.order@
    }

    /// The node storage.
    pub closed spec fn slots(&self) -> Seq<Node<K, V>> {
        self.nodes@
    }

    /// The keys that the index resolves.
    pub closed spec fn indexed_keys(&self) -> Set<K> {
        self.map@.dom()
    }

    /// `self` holds the same keys and values in each slot as `other`, and the
    /// same index and capacity; only the links and the list may differ.
    pub closed spec fn same_contents(&self, other: &Self) -> bool {
        &&& self.nodes@.len() == other.nodes@.len()
        &&& forall|i: int|
            0 <= i < self.nodes@.len() ==> (#[trigger] self.nodes@[i]).k == other.nodes@[i].k
                && self.nodes@[i].v == other.nodes@[i].v
        &&& self.map@ == other.map@
        &&& self.cap == other.cap
    }

    /// The recency list is a well-formed doubly linked list through the arena
    /// that visits exactly the handles of `order`, in that order.
    pub closed spec fn linked(&self) -> bool {
        let ord = self.order@;
        let n = self.nodes@;
        &&& forall|j: int| 0 <= j < ord.len() ==> (#[trigger] ord[j] as int) < n.len()
        &&& ord.no_duplicates()
        &&& self.head == if ord.len() == 0 {
            None
        } else {
            Some(ord[0])
        }
        &&& self.tail == if ord.len() == 0 {
            None
        } else {
            Some(ord.last())
        }
        &&& forall|j: int|
            0 <= j < ord.len() ==> (#[trigger] n[ord[j] as int]).prev == if j == 0 {
                None
            } else {
                Some(ord[j - 1])
            }
        &&& forall|j: int|
            0 <= j < ord.len() ==> (#[trigger] n[ord[j] as int]).next == if j == ord.len() - 1 {
                None
            } else {
                Some(ord[j + 1])
            }
    }

    /// The index maps the key of every slot to that slot and nothing else.
    spec fn indexed(&self) -> bool {
        &&& forall|i: int|
            0 <= i < self.nodes@.len() ==> self.map@.contains_key(#[trigger] self.nodes@[i].k)
                && self.map@[self.nodes@[i].k] == i
        &&& forall|k: K| #[trigger]
            self.map@.contains_key(k) ==> (self.map@[k] as int) < self.nodes@.len()
                && self.nodes@[self.map@[k] as int].k == k
    }

    /// The whole invariant of a usable cache.
    pub closed spec fn wf(&self) -> bool {
        &&& self.linked()
        &&& self.order@.len() == self.nodes@.len()
        &&& forall|i: usize| i < self.nodes@.len() ==> #[trigger] self.order@.contains(i)
        &&& 0 < self.cap
        &&& self.nodes@.len() <= self.cap
        &&& self.indexed()
        &&& obeys_key_model::<K>()
        &&& builds_valid_hashers::<RandomState>()
    }

    /// In a well-formed cache the entries have distinct keys, and the index
    /// finds `k` exactly when an entry carries it, at that entry's slot.
    proof fn lemma_resolves(&self, k: K)
        requires
            self.wf(),
        ensures
            unique_keys(self@),
            self@.len() == self.nodes@.len(),
            self.map@.contains_key(k) <==> has_key(self@, k),
            self.map@.contains_key(k) ==> {
                let j = key_index(self@, k);
                &&& 0 <= j < self@.len()
                &&& self.order@[j] == self.map@[k]
                &&& self.order@.index_of(self.map@[k]) == j
                &&& self@[j] == (k, self.nodes@[self.map@[k] as int].v)
            },
    {
        let ord = self.order@;
        let s = self@;
        assert forall|a: int, b: int|
            0 <= a < s.len() && 0 <= b < s.len() && a != b implies s[a].0 != s[b].0 by {
            assert(self.map@[self.nodes@[ord[a] as int].k] == ord[a]);
            assert(self.map@[self.nodes@[ord[b] as int].k] == ord[b]);
        }
        if has_key(s, k) {
            let j = choose|j: int| 0 <= j < s.len() && s[j].0 == k;
            assert(self.nodes@[ord[j] as int].k == k);
        }
        if self.map@.contains_key(k) {
            let i = self.map@[k];
            assert(ord.contains(i));
            let j = ord.index_of(i);
            assert(s[j].0 == k);
            assert(has_key(s, k));
            assert(key_index(s, k) == j);
        }
    }

    /// The keys that the index resolves are exactly the keys of the entries in
    /// the recency order.
    pub proof fn lemma_index_matches_order(&self)
        requires
            self.wf(),
        ensures
            self.indexed_keys() == key_set(self@),
    {
        assert forall|k: K| #[trigger] self.indexed_keys().contains(k) == key_set(self@).contains(
            k,
        ) by {
            self.lemma_resolves(k);
        }
        assert(self.indexed_keys() =~= key_set(self@));
    }

    /// A usable cache holds at most its capacity of entries, under distinct
    /// keys.
    pub proof fn lemma_within_capacity(&self)
        requires
            self.wf(),
        ensures
            self@.len() <= self.capacity(),
            unique_keys(self@),
    {
        self.lemma_resolves(arbitrary());
    }
}

/// Keys are `Copy`: the index holds its own copy of each node's key.
impl<K: Copy + Hash + Eq, V> LruCache<K, V> {
    /// An empty cache that holds at most `cap` entries. A zero capacity is
    /// refused. `K`'s `Hash` and `Eq` must behave as a hash table key's do
    /// (`obeys_key_model`, which holds of the integer types).
    pub fn new(cap: usize) -> (c: Self)
        requires
            cap > 0,
            obeys_key_model::<K>(),
        ensures
            c.wf(),
            c@ == Seq::<(K, V)>::empty(),
            c.capacity() == cap,
    {
        let c = LruCache {
            nodes: Vec::new(),
            head: None,
            tail: None,
            map: HashMap::new(),
            cap,
            order: Ghost(Seq::empty()),
        };
        proof {
            assert(c@ =~= Seq::<(K, V)>::empty());
        }
        c
    }

    /// The number of entries held.
    pub fn len(&self) -> (n: usize)
        requires
            self.wf(),
        ensures
            n == self@.len(),
    {
        self.nodes.len()
    }

    /// Unlinks the node at handle `node` from the recency list, wherever it
    /// stands, and clears its links. The arena and the index are untouched.
    pub fn detach(&mut self, node: usize)
        requires
            old(self).linked(),
            old(self).order().contains(node),
        ensures
            final(self).linked(),
            final(self).order() == old(self).order().remove(old(self).order().index_of(node)),
            final(self).same_contents(old(self)),
            final(self).slots()[node as int].prev is None,
            final(self).slots()[node as int].next is None,
    {
        let ghost ord = self.order@;
        let ghost j = ord.index_of(node);
        let prev = self.nodes[node].prev;
        let next = self.nodes[node].next;
        match prev {
            Some(p) => {
                self.nodes[p].next = next;
            },
            None => {
                self.head = next;
            },
        }
        match next {
            Some(x) => {
                self.nodes[x].prev = prev;
            },
            None => {
                self.tail = prev;
            },
        }
        self.nodes[node].prev = None;
        self.nodes[node].next = None;
        proof {
            let nord = ord.remove(j);
            self.order@ = nord;
            assert forall|a: int| 0 <= a < nord.len() implies (#[trigger] self.nodes@[nord[a] as int]).prev
                == if a == 0 {
                None
            } else {
                Some(nord[a - 1])
            } by {
                if a < j {
                    assert(nord[a] == ord[a]);
                } else {
                    assert(nord[a] == ord[a + 1]);
                }
            }
            assert forall|a: int| 0 <= a < nord.len() implies (#[trigger] self.nodes@[nord[a] as int]).next
                == if a == nord.len() - 1 {
                None
            } else {
                Some(nord[a + 1])
            } by {
                if a < j {
                    assert(nord[a] == ord[a]);
                } else {
                    assert(nord[a] == ord[a + 1]);
                }
            }
        }
    }
    /// Links the node at handle `node`, which is not in the recency list, in
    /// as its new head. The arena and the index are untouched.
    fn attach(&mut self, node: usize)
        requires
            old(self).linked(),
            (node as int) < old(self).slots().len(),
            !old(self).order().contains(node),
        ensures
            final(self).linked(),
            final(self).order() == seq![node] + old(self).order(),
            final(self).same_contents(old(self)),
    {
        let ghost ord = self.order@;
        match self.head {
            Some(h) => {
                self.nodes[h].prev = Some(node);
                self.nodes[node].next = Some(h);
                self.nodes[node].prev = None;
                self.head = Some(node);
            },
            None => {
                self.nodes[node].prev = None;
                self.nodes[node].next = None;
                self.head = Some(node);
                self.tail = Some(node);
            },
        }
        proof {
            let nord = seq![node] + ord;
            self.order@ = nord;
            assert forall|a: int| 0 <= a < nord.len() implies (#[trigger] self.nodes@[nord[a] as int]).prev
                == if a == 0 {
                None
            } else {
                Some(nord[a - 1])
            } by {
                if a > 0 {
                    assert(nord[a] == ord[a - 1]);
                }
            }
            assert forall|a: int| 0 <= a < nord.len() implies (#[trigger] self.nodes@[nord[a] as int]).next
                == if a == nord.len() - 1 {
                None
            } else {
                Some(nord[a + 1])
            } by {
                if a > 0 {
                    assert(nord[a] == ord[a - 1]);
                }
            }
            assert forall|a: int, b: int|
                0 <= a < nord.len() && 0 <= b < nord.len() && a != b implies nord[a] != nord[b] by {
                if a > 0 && b > 0 {
                    assert(nord[a] == ord[a - 1] && nord[b] == ord[b - 1]);
                } else if a > 0 {
                    assert(nord[a] == ord[a - 1]);
                } else if b > 0 {
                    assert(nord[b] == ord[b - 1]);
                }
            }
        }
    }
    /// Looks `k` up. A present key becomes the most recently used and its
    /// value is returned; an absent key changes nothing.
    pub fn get(&mut self, k: &K) -> (r: Option<&V>)
        requires
            old(self).wf(),
        ensures
            final(self).wf(),
            final(self).capacity() == old(self).capacity(),
            final(self)@ == touch(old(self)@, *k),
            final(self)@.len() <= final(self).capacity(),
            match r {
                Some(v) => lookup(old(self)@, *k) == Some(*v),
                None => lookup(old(self)@, *k) is None,
            },
    {
        proof {
            self.lemma_resolves(*k);
        }
        let found: Option<usize> = match self.map.get(k) {
            Some(i) => Some(*i),
            None => None,
        };
        match found {
            Some(i) => {
                let ghost pre = *self;
                let ghost j = self.order@.index_of(i);
                self.detach(i);
                self.attach(i);
                proof {
                    lemma_move_front(pre.order@, j);
                    assert(self@ =~= touch(pre@, *k));
                }
                Some(&self.nodes[i].v)
            },
            None => None,
        }
    }

    /// Stores `v` under `k` as the most recently used entry and returns the
    /// value that `k` held before, if any. When `k` is new and the cache is
    /// full, the least recently used entry is evicted first.
    pub fn put(&mut self, k: K, v: V) -> (r: Option<V>)
        requires
            old(self).wf(),
        ensures
            final(self).wf(),
            final(self).capacity() == old(self).capacity(),
            final(self)@ == store(old(self)@, k, v, old(self).capacity()),
            r == lookup(old(self)@, k),
            final(self)@.len() <= final(self).capacity(),
    {
        proof {
            self.lemma_resolves(k);
        }
        let ghost pre = *self;
        let found: Option<usize> = match self.map.get(&k) {
            Some(i) => Some(*i),
            None => None,
        };
        let slot: usize;
        let previous: Option<V>;
        match found {
            Some(i) => {
                let ghost j = pre.order@.index_of(i);
                self.detach(i);
                self.map.remove(&k);
                let mut fresh = Node::new(k, v);
                std::mem::swap(&mut self.nodes[i], &mut fresh);
                previous = Some(fresh.v);
                slot = i;
                proof {
                    assert(!self.order@.contains(i)) by {
                        if self.order@.contains(i) {
                            let a = self.order@.index_of(i);
                            if a < j {
                                assert(pre.order@[a] == i);
                            } else {
                                assert(pre.order@[a + 1] == i);
                            }
                        }
                    }
                    lemma_move_front(pre.order@, j);
                    assert(seq![pre.order@[j]] + pre.order@.remove(j) =~= seq![slot] + self.order@);
                }
            },
            None => {
                if self.nodes.len() >= self.cap {
                    let t = self.tail.unwrap();
                    let ghost j = pre.order@.len() - 1;
                    proof {
                        assert(pre.order@.index_of(t) == j);
                    }
                    let evicted = self.nodes[t].k;
                    self.detach(t);
                    self.map.remove(&evicted);
                    self.nodes[t] = Node::new(k, v);
                    slot = t;
                    proof {
                        assert(self.order@ =~= pre.order@.drop_last());
                        assert(!self.order@.contains(t));
                        lemma_move_front(pre.order@, j);
                        assert(seq![pre.order@[j]] + pre.order@.remove(j) =~= seq![slot] + self.order@);
                    }
                } else {
                    slot = self.nodes.len();
                    self.nodes.push(Node::new(k, v));
                }
                previous = None;
            },
        }
        self.attach(slot);
        self.map.insert(k, slot);
        proof {
            assert(self@ =~= store(pre@, k, v, pre.capacity()));
            assert forall|x: usize| x < self.nodes@.len() implies #[trigger] self.order@.contains(x) by {
                if x == slot {
                    assert(self.order@[0] == x);
                } else {
                    assert(pre.order@.contains(x));
                    if found is None && pre.nodes@.len() < pre.cap {
                        let a = pre.order@.index_of(x);
                        assert(self.order@[a + 1] == x);
                    }
                }
            }
        }
        previous
    }
}

/// Moving the element at `j` to the front keeps every element.
proof fn lemma_move_front(ord: Seq<usize>, j: int)
    requires
        0 <= j < ord.len(),
    ensures
        forall|x: usize| ord.contains(x) ==> #[trigger] (seq![ord[j]] + ord.remove(j)).contains(x),
{
    let nord = seq![ord[j]] + ord.remove(j);
    assert forall|x: usize| ord.contains(x) implies #[trigger] nord.contains(x) by {
        let a = choose|a: int| 0 <= a < ord.len() && ord[a] == x;
        if a == j {
            assert(nord[0] == x);
        } else if a < j {
            assert(nord[a + 1] == x);
        } else {
            assert(nord[a] == x);
        }
    }
}

} // verus!
