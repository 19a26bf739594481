//! A deduplicating record of the nodes one search wavefront has visited,
//! with a parent pointer per node for path reconstruction.
//!
//! The invariant the search relies on: a node enters the set at most once,
//! and the parent recorded at first discovery is never overwritten — the
//! first discoverer wins.

use vstd::prelude::*;

use std::collections::HashMap;

verus! {

broadcast use vstd::std_specs::hash::group_hash_axioms;

/// The visited set of one search side: each visited node id maps to the node
/// that discovered it (the root maps to itself).
pub struct FrontierSet {
    parents: HashMap<u32, u32>,
}

impl View for FrontierSet {
    type V = Map<u32, u32>;

    closed spec fn view(&self) -> Map<u32, u32> {
        self.parents@
    }
}

impl FrontierSet {
    /// An empty visited set.
    pub fn new() -> (f: FrontierSet)
        ensures
            f@ == Map::<u32, u32>::empty(),
            f@.dom().len() == 0,
    {
        let f = FrontierSet { parents: HashMap::new() };
        proof {
            assert(f@.dom() =~= Set::<u32>::empty());
        }
        f
    }

    /// The domain of the visited map is always finite.
    pub proof fn lemma_dom_finite(&self)
        ensures
            self@.dom().finite(),
    {
    }

    /// Record `node` as visited with parent `parent`, unless it was visited
    /// already: the first recorded parent is kept and `false` comes back.
    pub fn add_if_new(&mut self, node: u32, parent: u32) -> (added: bool)
        ensures
            added == !old(self)@.contains_key(node),
            added ==> final(self)@ == old(self)@.insert(node, parent),
            !added ==> final(self)@ == old(self)@,
    {
        if self.parents.contains_key(&node) {
            false
        } else {
            self.parents.insert(node, parent);
            true
        }
    }

    /// The parent recorded for `node` at its first discovery, or `None` when
    /// `node` was never visited.
    pub fn parent_of(&self, node: u32) -> (r: Option<u32>)
        ensures
            r == if self@.contains_key(node) {
                Some(self@[node])
            } else {
                None::<u32>
            },
    {
        match self.parents.get(&node) {
            Some(p) => Some(*p),
            None => None,
        }
    }

    /// Whether `node` was visited.
    pub fn contains(&self, node: u32) -> (b: bool)
        ensures
            b == self@.contains_key(node),
    {
        self.parents.contains_key(&node)
    }

    /// The parent recorded at a node's first discovery stays, whatever later
    /// additions offer: after `add_if_new(n, p)` succeeds on a fresh map,
    /// `n` is a key mapped to `p` — so by `add_if_new`'s contract a second
    /// call on `n` returns `false`, leaves the map unchanged, and
    /// `parent_of(n)` still answers `p`.
    pub proof fn lemma_first_parent_kept(m: Map<u32, u32>, n: u32, p: u32)
        requires
            !m.contains_key(n),
        ensures
            m.insert(n, p).contains_key(n),
            m.insert(n, p)[n] == p,
    {
    }

    /// How many nodes were visited.
    pub fn len(&self) -> (n: usize)
        ensures
            n == self@.dom().len(),
    {
        self.parents.len()
    }
}

} // verus!
