//! The ordered offset map under the tracker: `offset -> (length, state)`,
//! held in a B-tree over a slab arena.

use vstd::prelude::*;

verus! {

/// What is known of a marked byte.
#[derive(Debug, Clone, Copy, PartialEq, Eq, Structural)]
pub enum RangeState {
    /// Transmitted, not yet acknowledged.
    Sent,
    /// Acknowledged by the peer. Terminal.
    Acked,
}

#[verifier::external_type_specification]
#[verifier::external_body]
#[verifier::reject_recursive_types(K)]
#[verifier::reject_recursive_types(V)]
#[verifier::reject_recursive_types(C)]
pub struct ExBTreeMap<K, V, C>(btree_slab::generic::BTreeMap<K, V, C>);

#[verifier::external_type_specification]
#[verifier::external_body]
#[verifier::reject_recursive_types(K)]
#[verifier::reject_recursive_types(V)]
pub struct ExNode<K, V>(btree_slab::generic::Node<K, V>);

#[verifier::external_type_specification]
#[verifier::external_body]
#[verifier::reject_recursive_types(T)]
pub struct ExSlab<T>(slab::Slab<T>);

/// The tree type that holds the entries.
pub type Tree = btree_slab::BTreeMap<u64, (u64, RangeState)>;

/// The length and state stored under an offset.
pub type Extent = (u64, RangeState);

/// The entries held by a tree: offset to (length, state).
pub uninterp spec fn tree_contents(t: Tree) -> Map<u64, Extent>;

/// Relies on `btree_slab::BTreeMap::new`: a new tree holds no entry.
#[verifier::external_body]
fn tree_new() -> (r: Tree)
    ensures
        tree_contents(r).is_empty(),
{
    btree_slab::BTreeMap::new()
}

/// Relies on `btree_slab::BTreeMap::get`: the value stored under `k`, if any.
#[verifier::external_body]
fn tree_get(t: &Tree, k: u64) -> (r: Option<Extent>)
    ensures
        r == (if tree_contents(*t).contains_key(k) {
            Some(tree_contents(*t)[k])
        } else {
            None::<Extent>
        }),
{
    t.get(&k).copied()
}

/// Relies on `btree_slab::BTreeMap::insert`: stores `v` under `k`, replacing
/// the value that was there.
#[verifier::external_body]
fn tree_insert(t: &mut Tree, k: u64, v: Extent)
    ensures
        tree_contents(*final(t)) == tree_contents(*old(t)).insert(k, v),
{
    t.insert(k, v);
}

/// Relies on `btree_slab::BTreeMap::remove`: drops the entry under `k`, if any.
#[verifier::external_body]
fn tree_remove(t: &mut Tree, k: u64)
    ensures
        tree_contents(*final(t)) == tree_contents(*old(t)).remove(k),
{
    t.remove(&k);
}

/// Relies on `btree_slab::BTreeMap::last_key_value`: the entry with the
/// greatest key, `None` when the tree is empty.
#[verifier::external_body]
fn tree_last(t: &Tree) -> (r: Option<(u64, Extent)>)
    ensures
        r.is_none() == tree_contents(*t).is_empty(),
        r.is_some() ==> tree_contents(*t).contains_key(r.unwrap().0),
        r.is_some() ==> tree_contents(*t)[r.unwrap().0] == r.unwrap().1,
        r.is_some() ==> forall|j: u64| tree_contents(*t).contains_key(j) ==> j <= r.unwrap().0,
{
    t.last_key_value().map(|(k, v)| (*k, *v))
}

/// Relies on `btree_slab::BTreeMap::iter`: every entry of the tree once, in
/// ascending order of key.
#[verifier::external_body]
fn tree_entries(t: &Tree) -> (r: Vec<(u64, Extent)>)
    ensures
        forall|i: int|
            0 <= i < r@.len() ==> tree_contents(*t).contains_key(#[trigger] r@[i].0)
                && tree_contents(*t)[r@[i].0] == r@[i].1,
        forall|i: int| forall|j: int| 0 <= i < j < r@.len() ==> #[trigger] r@[i].0 < #[trigger] r@[j].0,
        forall|k: u64|
            tree_contents(*t).contains_key(k) ==> exists|i: int| 0 <= i < r@.len() && #[trigger] r@[i].0 == k,
{
    t.iter().map(|(k, v)| (*k, *v)).collect()
}

/// The ordered map of marked ranges: each entry is `offset -> (length, state)`.
pub struct RangeMap {
    tree: Tree,
}

impl View for RangeMap {
    type V = Map<u64, Extent>;

    closed spec fn view(&self) -> Map<u64, Extent> {
        tree_contents(self.tree)
    }
}

impl RangeMap {
    /// An empty map.
    pub fn new() -> (r: RangeMap)
        ensures
            r@ == Map::<u64, Extent>::empty(),
    {
        RangeMap { tree: tree_new() }
    }

    /// The entry stored at offset `k`.
    pub fn get(&self, k: u64) -> (r: Option<Extent>)
        ensures
            r == (if self@.contains_key(k) {
                Some(self@[k])
            } else {
                None::<Extent>
            }),
    {
        tree_get(&self.tree, k)
    }

    /// Stores `v` at offset `k`, replacing what was there.
    pub fn insert(&mut self, k: u64, v: Extent)
        ensures
            final(self)@ == old(self)@.insert(k, v),
    {
        tree_insert(&mut self.tree, k, v)
    }

    /// Drops the entry at offset `k`, if any.
    pub fn remove(&mut self, k: u64)
        ensures
            final(self)@ == old(self)@.remove(k),
    {
        tree_remove(&mut self.tree, k)
    }

    /// The entry with the greatest offset.
    pub fn last(&self) -> (r: Option<(u64, Extent)>)
        ensures
            match r {
                None => self@.is_empty(),
                Some((k, v)) => self@.contains_key(k) && self@[k] == v && forall|j: u64|
                    self@.contains_key(j) ==> j <= k,
            },
    {
        tree_last(&self.tree)
    }

    /// The entry with the least offset at or above `x`.
    pub fn first_from(&self, x: u64) -> (r: Option<(u64, Extent)>)
        ensures
            match r {
                None => forall|j: u64| self@.contains_key(j) ==> j < x,
                Some((k, v)) => x <= k && self@.contains_key(k) && self@[k] == v && forall|j: u64|
                    self@.contains_key(j) && x <= j ==> k <= j,
            },
    {
        let all = tree_entries(&self.tree);
        let mut i: usize = 0;
        while i < all.len()
            invariant
                0 <= i <= all@.len(),
                forall|n: int|
                    0 <= n < all@.len() ==> self@.contains_key(#[trigger] all@[n].0)
                        && self@[all@[n].0] == all@[n].1,
                forall|n: int| forall|o: int| 0 <= n < o < all@.len() ==> #[trigger] all@[n].0 < #[trigger] all@[o].0,
                forall|k: u64|
                    self@.contains_key(k) ==> exists|n: int| 0 <= n < all@.len() && #[trigger] all@[n].0 == k,
                forall|n: int| 0 <= n < i ==> #[trigger] all@[n].0 < x,
            decreases all@.len() - i,
        {
            let (k, v) = all[i];
            if k >= x {
                proof {
                    assert forall|j: u64| self@.contains_key(j) && x <= j implies k <= j by {
                        let n = choose|n: int| 0 <= n < all@.len() && #[trigger] all@[n].0 == j;
                        if n < i {
                            assert(all@[n].0 < x);
                        } else if i < n {
                            assert(all@[i as int].0 < all@[n].0);
                        }
                    }
                }
                return Some((k, v));
            }
            i = i + 1;
        }
        proof {
            assert forall|j: u64| self@.contains_key(j) implies j < x by {
                let n = choose|n: int| 0 <= n < all@.len() && #[trigger] all@[n].0 == j;
                assert(all@[n].0 < x);
            }
        }
        None
    }

    /// The entry with the greatest offset below `x`.
    pub fn last_before(&self, x: u64) -> (r: Option<(u64, Extent)>)
        ensures
            match r {
                None => forall|j: u64| self@.contains_key(j) ==> x <= j,
                Some((k, v)) => k < x && self@.contains_key(k) && self@[k] == v && forall|j: u64|
                    self@.contains_key(j) && j < x ==> j <= k,
            },
    {
        let all = tree_entries(&self.tree);
        let mut i: usize = 0;
        let mut found: Option<(u64, Extent)> = None;
        while i < all.len() && all[i].0 < x
            invariant
                0 <= i <= all@.len(),
                forall|n: int|
                    0 <= n < all@.len() ==> self@.contains_key(#[trigger] all@[n].0)
                        && self@[all@[n].0] == all@[n].1,
                forall|n: int| forall|o: int| 0 <= n < o < all@.len() ==> #[trigger] all@[n].0 < #[trigger] all@[o].0,
                forall|k: u64|
                    self@.contains_key(k) ==> exists|n: int| 0 <= n < all@.len() && #[trigger] all@[n].0 == k,
                forall|n: int| 0 <= n < i ==> #[trigger] all@[n].0 < x,
                i == 0 ==> found.is_none(),
                i > 0 ==> found == Some(all@[i - 1]),
            decreases all@.len() - i,
        {
            found = Some(all[i]);
            i = i + 1;
        }
        proof {
            assert forall|j: u64| self@.contains_key(j) && j < x implies i > 0 && j <= all@[i - 1].0 by {
                let n = choose|n: int| 0 <= n < all@.len() && #[trigger] all@[n].0 == j;
                if n >= i {
                    if i < all@.len() {
                        if n > i {
                            assert(all@[i as int].0 < all@[n].0);
                        }
                    }
                }
                if n < i - 1 {
                    assert(all@[n].0 < all@[i - 1].0);
                }
            }
        }
        found
    }
}

} // verus!
