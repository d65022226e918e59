use vstd::prelude::*;

verus! {

/// One storage cell of the cache: a key, its value, and the handles of its
/// neighbours in recency order.
pub struct Node<K, V> {
    pub k: K,
    pub v: V,
    /// The more recently used neighbour, `None` at the head.
    pub prev: Option<usize>,
    /// The less recently used neighbour, `None` at the tail.
    pub next: Option<usize>,
}

impl<K, V> Node<K, V> {
    /// A detached node holding `k` and `v`.
    pub fn new(k: K, v: V) -> (n: Self)
        ensures
            n.k == k,
            n.v == v,
            n.prev is None,
            n.next is None,
    {
        Node { k, v, prev: None, next: None }
    }
}

} // verus!
