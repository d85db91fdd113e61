//! The node arena: a slab allocator over a dense vector of fixed-capacity
//! B-tree node records.  Node identifiers are indices into the vector;
//! they stay stable for the life of the arena, and freed slots are
//! recycled through a free list.

use vstd::prelude::*;

verus! {

/// A B-tree node with capacity for `2t - 1` keys and `2t` children.
#[derive(Debug, Clone)]
pub struct BtreeNode {
    /// Number of keys currently stored in the node.
    pub n: usize,
    /// Whether the node is a leaf.
    pub is_leaf: bool,
    /// The keys; entries at `0..n` are meaningful, in strictly increasing
    /// order.
    pub keys: Vec<u64>,
    /// Child node identifiers; entries at `0..n + 1` are meaningful when
    /// the node is internal.
    pub children: Vec<usize>,
}

/// A node slot holding no keys, shaped for minimum degree `t`: a leaf
/// with zeroed key and child arrays at full capacity.
pub open spec fn is_empty_node(nd: BtreeNode, t: int) -> bool {
    &&& nd.n == 0
    &&& nd.is_leaf
    &&& nd.keys@ == Seq::new((2 * t - 1) as nat, |i: int| 0u64)
    &&& nd.children@ == Seq::new((2 * t) as nat, |i: int| 0usize)
}

/// The arena owning every node of one tree.
#[derive(Debug)]
pub struct Arena {
    /// The node records, indexed by node id.
    pub nodes: Vec<BtreeNode>,
    /// Identifiers of freed slots awaiting reuse.
    pub free_list: Vec<usize>,
}

impl Arena {
    /// An empty arena.
    pub fn new() -> (a: Arena)
        ensures
            a.nodes@.len() == 0,
            a.free_list@.len() == 0,
    {
        Arena { nodes: Vec::new(), free_list: Vec::new() }
    }

    /// Allocates a node slot for minimum degree `t`: a recycled id from
    /// the free list if one is available, else a fresh record appended at
    /// index `nodes.len()`.  Either way the returned slot is initialised
    /// to the canonical empty state: a leaf with no keys and zeroed
    /// arrays at full capacity.  No other slot moves or changes.
    pub fn allocate_node(&mut self, t: usize) -> (id: usize)
        requires
            2 <= t <= usize::MAX / 4,
            forall|i: int|
                0 <= i < old(self).free_list@.len() ==> (#[trigger] (old(self).free_list@[i]
                    as int)) < old(self).nodes@.len(),
        ensures
            old(self).free_list@.len() == 0 ==> {
                &&& id == old(self).nodes@.len()
                &&& final(self).nodes@.len() == old(self).nodes@.len() + 1
                &&& final(self).free_list@ == old(self).free_list@
            },
            old(self).free_list@.len() > 0 ==> {
                &&& id == old(self).free_list@.last()
                &&& final(self).free_list@ == old(self).free_list@.drop_last()
                &&& final(self).nodes@.len() == old(self).nodes@.len()
                &&& (id as int) < old(self).nodes@.len()
            },
            is_empty_node(final(self).nodes@[id as int], t as int),
            forall|j: int|
                0 <= j < old(self).nodes@.len() && j != id ==> final(self).nodes@[j] == old(
                    self,
                ).nodes@[j],
    {
        if let Some(id) = self.free_list.pop() {
            let mut keys: Vec<u64> = Vec::new();
            let cap_keys: usize = 2 * t - 1;
            while keys.len() < cap_keys
                invariant
                    keys@ == Seq::new(keys@.len(), |i: int| 0u64),
                    keys@.len() <= cap_keys,
                decreases cap_keys - keys@.len(),
            {
                keys.push(0);
                proof {
                    assert(keys@ =~= Seq::new(keys@.len(), |i: int| 0u64));
                }
            }
            let mut children: Vec<usize> = Vec::new();
            let cap_children: usize = 2 * t;
            while children.len() < cap_children
                invariant
                    children@ == Seq::new(children@.len(), |i: int| 0usize),
                    children@.len() <= cap_children,
                decreases cap_children - children@.len(),
            {
                children.push(0);
                proof {
                    assert(children@ =~= Seq::new(children@.len(), |i: int| 0usize));
                }
            }
            self.nodes.set(id, BtreeNode { n: 0, is_leaf: true, keys, children });
            return id;
        }
        let id: usize = self.nodes.len();
        let mut keys: Vec<u64> = Vec::new();
        let cap_keys: usize = 2 * t - 1;
        while keys.len() < cap_keys
            invariant
                keys@ == Seq::new(keys@.len(), |i: int| 0u64),
                keys@.len() <= cap_keys,
            decreases cap_keys - keys@.len(),
        {
            keys.push(0);
            proof {
                assert(keys@ =~= Seq::new(keys@.len(), |i: int| 0u64));
            }
        }
        let mut children: Vec<usize> = Vec::new();
        let cap_children: usize = 2 * t;
        while children.len() < cap_children
            invariant
                children@ == Seq::new(children@.len(), |i: int| 0usize),
                children@.len() <= cap_children,
            decreases cap_children - children@.len(),
        {
            children.push(0);
            proof {
                assert(children@ =~= Seq::new(children@.len(), |i: int| 0usize));
            }
        }
        self.nodes.push(BtreeNode { n: 0, is_leaf: true, keys, children });
        id
    }

    /// Writes key slot `i` of node `id`.
    pub fn set_key(&mut self, id: usize, i: usize, k: u64)
        requires
            id < old(self).nodes@.len(),
            i < old(self).nodes@[id as int].keys@.len(),
        ensures
            final(self).nodes@.len() == old(self).nodes@.len(),
            final(self).free_list@ == old(self).free_list@,
            forall|j: int|
                0 <= j < old(self).nodes@.len() && j != id ==> final(self).nodes@[j] == old(
                    self,
                ).nodes@[j],
            final(self).nodes@[id as int].n == old(self).nodes@[id as int].n,
            final(self).nodes@[id as int].is_leaf == old(self).nodes@[id as int].is_leaf,
            final(self).nodes@[id as int].children@ == old(self).nodes@[id as int].children@,
            final(self).nodes@[id as int].keys@ == old(self).nodes@[id as int].keys@.update(
                i as int,
                k,
            ),
    {
        let node = vstd::std_specs::vec::vec_index_mut(&mut self.nodes, id);
        node.keys.set(i, k);
    }

    /// Writes child slot `i` of node `id`.
    pub fn set_child(&mut self, id: usize, i: usize, c: usize)
        requires
            id < old(self).nodes@.len(),
            i < old(self).nodes@[id as int].children@.len(),
        ensures
            final(self).nodes@.len() == old(self).nodes@.len(),
            final(self).free_list@ == old(self).free_list@,
            forall|j: int|
                0 <= j < old(self).nodes@.len() && j != id ==> final(self).nodes@[j] == old(
                    self,
                ).nodes@[j],
            final(self).nodes@[id as int].n == old(self).nodes@[id as int].n,
            final(self).nodes@[id as int].is_leaf == old(self).nodes@[id as int].is_leaf,
            final(self).nodes@[id as int].keys@ == old(self).nodes@[id as int].keys@,
            final(self).nodes@[id as int].children@ == old(self).nodes@[id as int].children@.update(
                i as int,
                c,
            ),
    {
        let node = vstd::std_specs::vec::vec_index_mut(&mut self.nodes, id);
        node.children.set(i, c);
    }

    /// Writes the key count of node `id`.
    pub fn set_n(&mut self, id: usize, n: usize)
        requires
            id < old(self).nodes@.len(),
        ensures
            final(self).nodes@.len() == old(self).nodes@.len(),
            final(self).free_list@ == old(self).free_list@,
            forall|j: int|
                0 <= j < old(self).nodes@.len() && j != id ==> final(self).nodes@[j] == old(
                    self,
                ).nodes@[j],
            final(self).nodes@[id as int].n == n,
            final(self).nodes@[id as int].is_leaf == old(self).nodes@[id as int].is_leaf,
            final(self).nodes@[id as int].keys@ == old(self).nodes@[id as int].keys@,
            final(self).nodes@[id as int].children@ == old(self).nodes@[id as int].children@,
    {
        let node = vstd::std_specs::vec::vec_index_mut(&mut self.nodes, id);
        node.n = n;
    }

    /// Marks node `id` as a leaf or an internal node.
    pub fn set_leaf(&mut self, id: usize, is_leaf: bool)
        requires
            id < old(self).nodes@.len(),
        ensures
            final(self).nodes@.len() == old(self).nodes@.len(),
            final(self).free_list@ == old(self).free_list@,
            forall|j: int|
                0 <= j < old(self).nodes@.len() && j != id ==> final(self).nodes@[j] == old(
                    self,
                ).nodes@[j],
            final(self).nodes@[id as int].n == old(self).nodes@[id as int].n,
            final(self).nodes@[id as int].is_leaf == is_leaf,
            final(self).nodes@[id as int].keys@ == old(self).nodes@[id as int].keys@,
            final(self).nodes@[id as int].children@ == old(self).nodes@[id as int].children@,
    {
        let node = vstd::std_specs::vec::vec_index_mut(&mut self.nodes, id);
        node.is_leaf = is_leaf;
    }

    /// Resets the node to the canonical empty state and pushes its id to
    /// the free list.  Double frees and use after free are caller bugs
    /// and are not defended against here, as the identifier stays valid.
    pub fn deallocate_node(&mut self, id: usize, t: usize)
        requires
            2 <= t <= usize::MAX / 4,
            id < old(self).nodes@.len(),
        ensures
            final(self).free_list@ == old(self).free_list@.push(id),
            final(self).nodes@.len() == old(self).nodes@.len(),
            is_empty_node(final(self).nodes@[id as int], t as int),
            forall|j: int|
                0 <= j < old(self).nodes@.len() && j != id ==> final(self).nodes@[j] == old(
                    self,
                ).nodes@[j],
    {
        self.free_list.push(id);
        let mut keys: Vec<u64> = Vec::new();
        let cap_keys: usize = 2 * t - 1;
        while keys.len() < cap_keys
            invariant
                keys@ == Seq::new(keys@.len(), |i: int| 0u64),
                keys@.len() <= cap_keys,
            decreases cap_keys - keys@.len(),
        {
            keys.push(0);
            proof {
                assert(keys@ =~= Seq::new(keys@.len(), |i: int| 0u64));
            }
        }
        let mut children: Vec<usize> = Vec::new();
        let cap_children: usize = 2 * t;
        while children.len() < cap_children
            invariant
                children@ == Seq::new(children@.len(), |i: int| 0usize),
                children@.len() <= cap_children,
            decreases cap_children - children@.len(),
        {
            children.push(0);
            proof {
                assert(children@ =~= Seq::new(children@.len(), |i: int| 0usize));
            }
        }
        self.nodes.set(id, BtreeNode { n: 0, is_leaf: true, keys, children });
    }
}

} // verus!
