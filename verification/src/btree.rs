//! The ordered-map engine: a B-tree over 64-bit keys, indexed by arena
//! node identifiers rather than pointers.
//!
//! A tree of minimum degree `t` keeps every non-root node between `t - 1`
//! and `2t - 1` keys, all leaves at the same depth, and each internal
//! key strictly separating the key ranges of its two adjacent subtrees.
//! `node_inv` states those invariants for the subtree under one node,
//! together with the open interval `(lo, hi)` its keys must lie in, and
//! `subtree_keys` gives the mathematical key set a subtree holds.

use vstd::prelude::*;
use crate::arena::Arena;
use crate::arena::BtreeNode;

verus! {

/// One past the largest key, as an exclusive spec-level upper bound.
pub open spec fn key_sup() -> int {
    0x10000000000000000
}

/// The keys stored in the node record itself.
pub open spec fn node_keys(nd: BtreeNode) -> Set<u64> {
    Set::new(|k: u64| exists|i: int| 0 <= i < nd.n && nd.keys@[i] == k)
}

/// Lower bound for the keys of child `i`: the key to its left, or the
/// node's own lower bound for the leftmost child.
pub open spec fn child_lo(nd: BtreeNode, i: int, lo: int) -> int {
    if i == 0 {
        lo
    } else {
        nd.keys@[i - 1] as int
    }
}

/// Upper bound for the keys of child `i`: the key to its right, or the
/// node's own upper bound for the rightmost child.
pub open spec fn child_hi(nd: BtreeNode, i: int, hi: int) -> int {
    if i == nd.n {
        hi
    } else {
        nd.keys@[i] as int
    }
}

/// The B-tree invariant for the subtree rooted at `id`, of height `h`
/// (0 for a leaf), in a tree of minimum degree `t`, with every key of the
/// subtree strictly inside `(lo, hi)`.  A root may hold fewer than
/// `t - 1` keys; every other node may not.
pub open spec fn node_inv(
    nodes: Seq<BtreeNode>,
    id: int,
    h: nat,
    t: int,
    lo: int,
    hi: int,
    is_root: bool,
) -> bool
    decreases h,
{
    &&& 0 <= id < nodes.len()
    &&& t >= 2
    &&& nodes[id].keys@.len() == 2 * t - 1
    &&& nodes[id].children@.len() == 2 * t
    &&& nodes[id].n <= 2 * t - 1
    &&& (is_root || nodes[id].n >= t - 1)
    &&& (nodes[id].is_leaf <==> h == 0)
    &&& (forall|i: int| 0 <= i < nodes[id].n ==> lo < #[trigger] (nodes[id].keys@[i] as int) < hi)
    &&& (forall|i: int, j: int|
        0 <= i < j < nodes[id].n ==> #[trigger] nodes[id].keys@[i] < #[trigger] nodes[id].keys@[j])
    &&& (h > 0 ==> forall|i: int|
        0 <= i <= nodes[id].n ==> node_inv(
            nodes,
            #[trigger] (nodes[id].children@[i] as int),
            (h - 1) as nat,
            t,
            child_lo(nodes[id], i, lo),
            child_hi(nodes[id], i, hi),
            false,
        ))
}

/// The key set of the node at `id` together with the subtrees of its
/// first `cnt` children (no children are counted at height 0).
pub open spec fn subtree_keys_upto(nodes: Seq<BtreeNode>, id: int, h: nat, cnt: int) -> Set<u64>
    decreases h, cnt,
{
    if cnt <= 0 || h == 0 {
        node_keys(nodes[id])
    } else {
        subtree_keys_upto(nodes, id, h, cnt - 1) + subtree_keys_full(
            nodes,
            nodes[id].children@[cnt - 1] as int,
            (h - 1) as nat,
        )
    }
}

/// The key set of the whole subtree rooted at `id`, of height `h`.
pub open spec fn subtree_keys_full(nodes: Seq<BtreeNode>, id: int, h: nat) -> Set<u64>
    decreases h, 0x20000000000000000int,
{
    subtree_keys_upto(nodes, id, h, nodes[id].n + 1)
}

/// Every key of a subtree satisfying the invariant lies strictly inside
/// the subtree's bounds.
pub proof fn lemma_subtree_bounded(
    nodes: Seq<BtreeNode>,
    id: int,
    h: nat,
    t: int,
    lo: int,
    hi: int,
    is_root: bool,
    cnt: int,
)
    requires
        node_inv(nodes, id, h, t, lo, hi, is_root),
        cnt <= nodes[id].n + 1,
    ensures
        forall|k: u64|
            #[trigger] subtree_keys_upto(nodes, id, h, cnt).contains(k) ==> lo < (k as int) < hi,
    decreases h, cnt,
{
    if cnt <= 0 || h == 0 {
        assert forall|k: u64| #[trigger] subtree_keys_upto(nodes, id, h, cnt).contains(k) implies lo
            < (k as int) < hi by {
            let i = choose|i: int| 0 <= i < nodes[id].n && nodes[id].keys@[i] == k;
            assert(lo < (nodes[id].keys@[i] as int) < hi);
        }
    } else {
        lemma_subtree_bounded(nodes, id, h, t, lo, hi, is_root, cnt - 1);
        let c = nodes[id].children@[cnt - 1] as int;
        let clo = child_lo(nodes[id], cnt - 1, lo);
        let chi = child_hi(nodes[id], cnt - 1, hi);
        assert(node_inv(nodes, c, (h - 1) as nat, t, clo, chi, false));
        lemma_subtree_bounded(nodes, c, (h - 1) as nat, t, clo, chi, false, nodes[c].n + 1);
        assert(lo <= clo && chi <= hi);
        assert forall|k: u64| #[trigger] subtree_keys_upto(nodes, id, h, cnt).contains(k) implies lo
            < (k as int) < hi by {
            if subtree_keys_upto(nodes, id, h, cnt - 1).contains(k) {
            } else {
                assert(subtree_keys_full(nodes, c, (h - 1) as nat).contains(k));
                assert(subtree_keys_full(nodes, c, (h - 1) as nat) == subtree_keys_upto(
                    nodes,
                    c,
                    (h - 1) as nat,
                    nodes[c].n + 1,
                ));
            }
        }
    }
}

/// Membership in a subtree decomposes into the node's own keys and the
/// subtrees of its children.
pub proof fn lemma_subtree_decompose(nodes: Seq<BtreeNode>, id: int, h: nat, cnt: int, k: u64)
    requires
        cnt >= 0,
    ensures
        subtree_keys_upto(nodes, id, h, cnt).contains(k) <==> (node_keys(nodes[id]).contains(k) || (
        h > 0 && exists|j: int|
            0 <= j < cnt && subtree_keys_full(
                nodes,
                #[trigger] (nodes[id].children@[j] as int),
                (h - 1) as nat,
            ).contains(k))),
    decreases h, cnt,
{
    if cnt <= 0 || h == 0 {
    } else {
        lemma_subtree_decompose(nodes, id, h, cnt - 1, k);
    }
}

/// The node identifiers of the node at `id` together with the subtrees of
/// its first `cnt` children (no children are counted at height 0).
pub open spec fn subtree_ids_upto(nodes: Seq<BtreeNode>, id: int, h: nat, cnt: int) -> Set<int>
    decreases h, cnt,
{
    if cnt <= 0 || h == 0 {
        Set::<int>::empty().insert(id)
    } else {
        subtree_ids_upto(nodes, id, h, cnt - 1) + subtree_ids_full(
            nodes,
            nodes[id].children@[cnt - 1] as int,
            (h - 1) as nat,
        )
    }
}

/// The node identifiers of the whole subtree rooted at `id`.
pub open spec fn subtree_ids_full(nodes: Seq<BtreeNode>, id: int, h: nat) -> Set<int>
    decreases h, 0x20000000000000000int,
{
    subtree_ids_upto(nodes, id, h, nodes[id].n + 1)
}

/// Distinct subtrees own distinct arena slots: below any internal node
/// the children's id sets are pairwise disjoint and never contain the
/// node's own id, recursively.
pub open spec fn ids_ok(nodes: Seq<BtreeNode>, id: int, h: nat) -> bool
    decreases h,
{
    h > 0 ==> {
        &&& (forall|i: int, j: int|
            0 <= i < j <= nodes[id].n ==> subtree_ids_full(
                nodes,
                #[trigger] (nodes[id].children@[i] as int),
                (h - 1) as nat,
            ).disjoint(
                subtree_ids_full(nodes, #[trigger] (nodes[id].children@[j] as int), (h - 1) as nat),
            ))
        &&& (forall|i: int|
            0 <= i <= nodes[id].n ==> !subtree_ids_full(
                nodes,
                #[trigger] (nodes[id].children@[i] as int),
                (h - 1) as nat,
            ).contains(id))
        &&& (forall|i: int|
            0 <= i <= nodes[id].n ==> ids_ok(
                nodes,
                #[trigger] (nodes[id].children@[i] as int),
                (h - 1) as nat,
            ))
    }
}

/// The set of slot numbers on the free list.
pub open spec fn free_set(free: Seq<usize>) -> Set<int> {
    Set::new(|j: int| exists|i: int| 0 <= i < free.len() && free[i] == j)
}

/// A node is in its own subtree's id set.
pub proof fn lemma_ids_base(nodes: Seq<BtreeNode>, id: int, h: nat, cnt: int)
    requires
        cnt >= 0,
    ensures
        subtree_ids_upto(nodes, id, h, cnt).contains(id),
    decreases h, cnt,
{
    if cnt <= 0 || h == 0 {
    } else {
        lemma_ids_base(nodes, id, h, cnt - 1);
    }
}

/// Counting more children only grows the id set.
pub proof fn lemma_ids_upto_mono(nodes: Seq<BtreeNode>, id: int, h: nat, c1: int, c2: int)
    requires
        0 <= c1 <= c2,
    ensures
        forall|j: int|
            #[trigger] subtree_ids_upto(nodes, id, h, c1).contains(j) ==> subtree_ids_upto(
                nodes,
                id,
                h,
                c2,
            ).contains(j),
    decreases c2,
{
    if h == 0 {
        assert(subtree_ids_upto(nodes, id, h, c1) == Set::<int>::empty().insert(id));
        assert(subtree_ids_upto(nodes, id, h, c2) == Set::<int>::empty().insert(id));
    } else if c1 < c2 {
        lemma_ids_upto_mono(nodes, id, h, c1, c2 - 1);
        assert forall|j: int| #[trigger]
            subtree_ids_upto(nodes, id, h, c1).contains(j) implies subtree_ids_upto(
            nodes,
            id,
            h,
            c2,
        ).contains(j) by {
            assert(subtree_ids_upto(nodes, id, h, c2 - 1).contains(j));
            assert(subtree_ids_upto(nodes, id, h, c2) == subtree_ids_upto(nodes, id, h, c2 - 1)
                + subtree_ids_full(nodes, nodes[id].children@[c2 - 1] as int, (h - 1) as nat));
        }
    }
}

/// A child's subtree ids are among its parent subtree's ids.
pub proof fn lemma_ids_child_sub(nodes: Seq<BtreeNode>, id: int, h: nat, i: int)
    requires
        h > 0,
        0 <= i <= nodes[id].n,
    ensures
        forall|j: int|
            #[trigger] subtree_ids_full(nodes, nodes[id].children@[i] as int, (h - 1) as nat)
                .contains(j) ==> subtree_ids_full(nodes, id, h).contains(j),
{
    lemma_ids_upto_mono(nodes, id, h, i + 1, nodes[id].n + 1);
    assert forall|j: int| #[trigger]
        subtree_ids_full(nodes, nodes[id].children@[i] as int, (h - 1) as nat).contains(
        j,
    ) implies subtree_ids_full(nodes, id, h).contains(j) by {
        assert(subtree_ids_upto(nodes, id, h, i + 1) == subtree_ids_upto(nodes, id, h, i)
            + subtree_ids_full(nodes, nodes[id].children@[i] as int, (h - 1) as nat));
        assert(subtree_ids_upto(nodes, id, h, i + 1).contains(j));
        assert(subtree_ids_upto(nodes, id, h, nodes[id].n + 1).contains(j));
    }
}

/// Membership in a subtree's id set decomposes into the node itself and
/// the subtrees of its children.
pub proof fn lemma_ids_decompose(nodes: Seq<BtreeNode>, id: int, h: nat, cnt: int, x: int)
    requires
        cnt >= 0,
    ensures
        subtree_ids_upto(nodes, id, h, cnt).contains(x) <==> (x == id || (h > 0 && exists|m: int|
            0 <= m < cnt && subtree_ids_full(
                nodes,
                #[trigger] (nodes[id].children@[m] as int),
                (h - 1) as nat,
            ).contains(x))),
    decreases h, cnt,
{
    if cnt <= 0 || h == 0 {
    } else {
        lemma_ids_decompose(nodes, id, h, cnt - 1, x);
    }
}

/// Every id of a subtree satisfying the invariant is a valid arena slot.
pub proof fn lemma_ids_bounded(
    nodes: Seq<BtreeNode>,
    id: int,
    h: nat,
    t: int,
    lo: int,
    hi: int,
    is_root: bool,
    cnt: int,
)
    requires
        node_inv(nodes, id, h, t, lo, hi, is_root),
        cnt <= nodes[id].n + 1,
    ensures
        forall|j: int|
            #[trigger] subtree_ids_upto(nodes, id, h, cnt).contains(j) ==> 0 <= j < nodes.len(),
    decreases h, cnt,
{
    if cnt <= 0 || h == 0 {
    } else {
        lemma_ids_bounded(nodes, id, h, t, lo, hi, is_root, cnt - 1);
        let c = nodes[id].children@[cnt - 1] as int;
        assert(node_inv(
            nodes,
            c,
            (h - 1) as nat,
            t,
            child_lo(nodes[id], cnt - 1, lo),
            child_hi(nodes[id], cnt - 1, hi),
            false,
        ));
        lemma_ids_bounded(
            nodes,
            c,
            (h - 1) as nat,
            t,
            child_lo(nodes[id], cnt - 1, lo),
            child_hi(nodes[id], cnt - 1, hi),
            false,
            nodes[c].n + 1,
        );
        assert forall|j: int| #[trigger]
            subtree_ids_upto(nodes, id, h, cnt).contains(j) implies 0 <= j < nodes.len() by {
            if !subtree_ids_upto(nodes, id, h, cnt - 1).contains(j) {
                assert(subtree_ids_full(nodes, c, (h - 1) as nat).contains(j));
                assert(subtree_ids_full(nodes, c, (h - 1) as nat) == subtree_ids_upto(
                    nodes,
                    c,
                    (h - 1) as nat,
                    nodes[c].n + 1,
                ));
            }
        }
    }
}

/// Framing: a subtree satisfying the invariant is untouched by arena
/// changes outside its own id set.  Its invariant, its id set, its key
/// set and its id discipline all carry over to the changed arena.
pub proof fn lemma_frame(
    nodes1: Seq<BtreeNode>,
    nodes2: Seq<BtreeNode>,
    id: int,
    h: nat,
    t: int,
    lo: int,
    hi: int,
    is_root: bool,
)
    requires
        node_inv(nodes1, id, h, t, lo, hi, is_root),
        nodes2.len() >= nodes1.len(),
        forall|j: int|
            #[trigger] subtree_ids_full(nodes1, id, h).contains(j) ==> nodes2[j] == nodes1[j],
    ensures
        node_inv(nodes2, id, h, t, lo, hi, is_root),
        subtree_ids_full(nodes2, id, h) == subtree_ids_full(nodes1, id, h),
        subtree_keys_full(nodes2, id, h) == subtree_keys_full(nodes1, id, h),
        ids_ok(nodes1, id, h) ==> ids_ok(nodes2, id, h),
    decreases h, 0x20000000000000000int,
{
    lemma_ids_base(nodes1, id, h, nodes1[id].n + 1);
    assert(subtree_ids_full(nodes1, id, h).contains(id));
    assert(nodes2[id] == nodes1[id]);
    if h > 0 {
        assert forall|i: int| 0 <= i <= nodes1[id].n implies {
            &&& node_inv(
                nodes2,
                #[trigger] (nodes1[id].children@[i] as int),
                (h - 1) as nat,
                t,
                child_lo(nodes1[id], i, lo),
                child_hi(nodes1[id], i, hi),
                false,
            )
            &&& subtree_ids_full(nodes2, nodes1[id].children@[i] as int, (h - 1) as nat)
                == subtree_ids_full(nodes1, nodes1[id].children@[i] as int, (h - 1) as nat)
            &&& subtree_keys_full(nodes2, nodes1[id].children@[i] as int, (h - 1) as nat)
                == subtree_keys_full(nodes1, nodes1[id].children@[i] as int, (h - 1) as nat)
            &&& (ids_ok(nodes1, nodes1[id].children@[i] as int, (h - 1) as nat) ==> ids_ok(
                nodes2,
                nodes1[id].children@[i] as int,
                (h - 1) as nat,
            ))
        } by {
            let c = nodes1[id].children@[i] as int;
            lemma_ids_child_sub(nodes1, id, h, i);
            assert forall|j: int| #[trigger]
                subtree_ids_full(nodes1, c, (h - 1) as nat).contains(j) implies nodes2[j]
                == nodes1[j] by {
                assert(subtree_ids_full(nodes1, id, h).contains(j));
            }
            lemma_frame(
                nodes1,
                nodes2,
                c,
                (h - 1) as nat,
                t,
                child_lo(nodes1[id], i, lo),
                child_hi(nodes1[id], i, hi),
                false,
            );
        }
    }
    lemma_frame_upto(nodes1, nodes2, id, h, t, lo, hi, is_root, nodes1[id].n + 1);
}

/// The partial id and key sets are equally untouched by arena changes
/// outside the subtree.
pub proof fn lemma_frame_upto(
    nodes1: Seq<BtreeNode>,
    nodes2: Seq<BtreeNode>,
    id: int,
    h: nat,
    t: int,
    lo: int,
    hi: int,
    is_root: bool,
    cnt: int,
)
    requires
        node_inv(nodes1, id, h, t, lo, hi, is_root),
        0 <= cnt <= nodes1[id].n + 1,
        nodes2.len() >= nodes1.len(),
        forall|j: int|
            #[trigger] subtree_ids_full(nodes1, id, h).contains(j) ==> nodes2[j] == nodes1[j],
    ensures
        subtree_ids_upto(nodes2, id, h, cnt) == subtree_ids_upto(nodes1, id, h, cnt),
        subtree_keys_upto(nodes2, id, h, cnt) == subtree_keys_upto(nodes1, id, h, cnt),
    decreases h, cnt,
{
    lemma_ids_base(nodes1, id, h, nodes1[id].n + 1);
    assert(subtree_ids_full(nodes1, id, h).contains(id));
    assert(nodes2[id] == nodes1[id]);
    if cnt <= 0 || h == 0 {
    } else {
        lemma_frame_upto(nodes1, nodes2, id, h, t, lo, hi, is_root, cnt - 1);
        let c = nodes1[id].children@[cnt - 1] as int;
        lemma_ids_child_sub(nodes1, id, h, cnt - 1);
        assert forall|j: int| #[trigger]
            subtree_ids_full(nodes1, c, (h - 1) as nat).contains(j) implies nodes2[j]
            == nodes1[j] by {
            assert(subtree_ids_full(nodes1, id, h).contains(j));
        }
        lemma_frame(
            nodes1,
            nodes2,
            c,
            (h - 1) as nat,
            t,
            child_lo(nodes1[id], cnt - 1, lo),
            child_hi(nodes1[id], cnt - 1, hi),
            false,
        );
    }
}

/// The free list of `tree` names valid, reset arena slots outside the
/// subtree rooted at `id`, each at most once.
pub open spec fn free_ok(tree: Btree, id: int, h: nat) -> bool {
    &&& tree.arena.free_list@.no_duplicates()
    &&& forall|i: int|
        0 <= i < tree.arena.free_list@.len() ==> {
            &&& 0 <= #[trigger] (tree.arena.free_list@[i] as int) < tree.arena.nodes@.len()
            &&& crate::arena::is_empty_node(
                tree.arena.nodes@[tree.arena.free_list@[i] as int],
                tree.t as int,
            )
            &&& !subtree_ids_full(tree.arena.nodes@, id, h).contains(
                tree.arena.free_list@[i] as int,
            )
        }
}

/// The footprint of a mutation under the subtree rooted at `id`: the
/// arena only grows; slots outside the subtree change only if they were
/// taken off the free list; every slot of the changed subtree is an old
/// subtree slot, a recycled slot, or a fresh one; and the remaining free
/// list is a prefix of the old one, disjoint from the changed subtree.
pub open spec fn mutation_frame(tree1: Btree, tree2: Btree, id: int, h: nat) -> bool {
    let nodes1 = tree1.arena.nodes@;
    let nodes2 = tree2.arena.nodes@;
    &&& nodes2.len() >= nodes1.len()
    &&& forall|j: int|
        0 <= j < nodes1.len() && !subtree_ids_full(nodes1, id, h).contains(j) && (free_set(
            tree2.arena.free_list@,
        ).contains(j) || !free_set(tree1.arena.free_list@).contains(j)) ==> nodes2[j] == #[trigger] nodes1[j]
    &&& forall|j: int|
        #[trigger] subtree_ids_full(nodes2, id, h).contains(j) ==> (subtree_ids_full(
            nodes1,
            id,
            h,
        ).contains(j) || free_set(tree1.arena.free_list@).contains(j) || j >= nodes1.len())
    &&& tree2.arena.free_list@.is_prefix_of(tree1.arena.free_list@)
    &&& forall|j: int|
        #[trigger] subtree_ids_full(nodes2, id, h).contains(j) ==> !free_set(
            tree2.arena.free_list@,
        ).contains(j)
}

/// A sequence that is a prefix of a prefix is a prefix, and its entries
/// form a subset.
pub proof fn lemma_prefix_trans(f2: Seq<usize>, f1: Seq<usize>, f0: Seq<usize>)
    requires
        f2.is_prefix_of(f1),
        f1.is_prefix_of(f0),
    ensures
        f2.is_prefix_of(f0),
        forall|x: int| #[trigger] free_set(f2).contains(x) ==> free_set(f1).contains(x),
        forall|x: int| #[trigger] free_set(f1).contains(x) ==> free_set(f0).contains(x),
{
    assert(f2 =~= f0.subrange(0, f2.len() as int)) by {
        assert(forall|i: int| 0 <= i < f2.len() ==> f2[i] == f1.subrange(0, f2.len() as int)[i]);
    }
    assert forall|x: int| #[trigger] free_set(f2).contains(x) implies free_set(f1).contains(x) by {
        let i = choose|i: int| 0 <= i < f2.len() && f2[i] == x;
        assert(f1[i] == f2[i]);
    }
    assert forall|x: int| #[trigger] free_set(f1).contains(x) implies free_set(f0).contains(x) by {
        let i = choose|i: int| 0 <= i < f1.len() && f1[i] == x;
        assert(f0[i] == f1[i]);
    }
}

/// Mutation footprints compose: two successive mutations under the same
/// subtree are together one mutation under that subtree.
pub proof fn lemma_frame_trans(t0: Btree, t1: Btree, t2: Btree, id: int, h: nat)
    requires
        mutation_frame(t0, t1, id, h),
        mutation_frame(t1, t2, id, h),
    ensures
        mutation_frame(t0, t2, id, h),
{
    let n0 = t0.arena.nodes@;
    let n1 = t1.arena.nodes@;
    let n2 = t2.arena.nodes@;
    let f0 = t0.arena.free_list@;
    let f1 = t1.arena.free_list@;
    let f2 = t2.arena.free_list@;
    lemma_prefix_trans(f2, f1, f0);
    assert forall|j: int|
        0 <= j < n0.len() && !subtree_ids_full(n0, id, h).contains(j) && (free_set(f2).contains(j)
            || !free_set(f0).contains(j)) implies n2[j] == #[trigger] n0[j] by {
        assert(n1[j] == n0[j]);
        assert(!subtree_ids_full(n1, id, h).contains(j)) by {
            if subtree_ids_full(n1, id, h).contains(j) {
                assert(free_set(f0).contains(j) || j >= n0.len());
                assert(free_set(f2).contains(j));
                assert(!free_set(f1).contains(j));
                assert(false);
            }
        }
        assert(n2[j] == n1[j]);
    }
    assert forall|j: int| #[trigger] subtree_ids_full(n2, id, h).contains(j) implies (
    subtree_ids_full(n0, id, h).contains(j) || free_set(f0).contains(j) || j >= n0.len()) by {
        if subtree_ids_full(n1, id, h).contains(j) {
        } else {
            assert(free_set(f1).contains(j) || j >= n1.len());
        }
    }
}

/// The footprint of a deletion under the subtree rooted at `id`: the
/// arena keeps its length, slots outside the subtree are untouched, the
/// subtree only sheds slots, and the free list only grows (by slots the
/// subtree shed).
pub open spec fn deletion_frame(tree1: Btree, tree2: Btree, id: int, h: nat) -> bool {
    let nodes1 = tree1.arena.nodes@;
    let nodes2 = tree2.arena.nodes@;
    &&& nodes2.len() == nodes1.len()
    &&& forall|j: int|
        0 <= j < nodes1.len() && !subtree_ids_full(nodes1, id, h).contains(j) ==> nodes2[j]
            == #[trigger] nodes1[j]
    &&& forall|j: int|
        #[trigger] subtree_ids_full(nodes2, id, h).contains(j) ==> subtree_ids_full(
            nodes1,
            id,
            h,
        ).contains(j)
    &&& tree1.arena.free_list@.is_prefix_of(tree2.arena.free_list@)
}

/// Deletion footprints compose.
pub proof fn lemma_deletion_frame_trans(t0: Btree, t1: Btree, t2: Btree, id: int, h: nat)
    requires
        deletion_frame(t0, t1, id, h),
        deletion_frame(t1, t2, id, h),
    ensures
        deletion_frame(t0, t2, id, h),
{
    let n0 = t0.arena.nodes@;
    let n1 = t1.arena.nodes@;
    assert forall|j: int|
        0 <= j < n0.len() && !subtree_ids_full(n0, id, h).contains(j) implies t2.arena.nodes@[j]
        == #[trigger] n0[j] by {
        assert(n1[j] == n0[j]);
        if subtree_ids_full(n1, id, h).contains(j) {
            assert(subtree_ids_full(n0, id, h).contains(j));
            assert(false);
        }
    }
    assert(t0.arena.free_list@.is_prefix_of(t2.arena.free_list@)) by {
        let f0 = t0.arena.free_list@;
        let f1 = t1.arena.free_list@;
        let f2 = t2.arena.free_list@;
        assert(f0 =~= f2.subrange(0, f0.len() as int)) by {
            assert(forall|i: int|
                0 <= i < f0.len() ==> f0[i] == f1.subrange(0, f0.len() as int)[i]);
            assert(forall|i: int| 0 <= i < f0.len() ==> #[trigger] f1[i] == f2[i]);
        }
    }
}

/// The subtree invariant is monotone in its bounds: an interval that
/// contains the stated one works as well.
pub proof fn lemma_bounds_widen(
    nodes: Seq<BtreeNode>,
    id: int,
    h: nat,
    t: int,
    lo1: int,
    hi1: int,
    lo2: int,
    hi2: int,
    is_root: bool,
)
    requires
        node_inv(nodes, id, h, t, lo1, hi1, is_root),
        lo2 <= lo1,
        hi1 <= hi2,
    ensures
        node_inv(nodes, id, h, t, lo2, hi2, is_root),
    decreases h,
{
    if h > 0 {
        assert forall|i: int| 0 <= i <= nodes[id].n implies node_inv(
            nodes,
            #[trigger] (nodes[id].children@[i] as int),
            (h - 1) as nat,
            t,
            child_lo(nodes[id], i, lo2),
            child_hi(nodes[id], i, hi2),
            false,
        ) by {
            lemma_bounds_widen(
                nodes,
                nodes[id].children@[i] as int,
                (h - 1) as nat,
                t,
                child_lo(nodes[id], i, lo1),
                child_hi(nodes[id], i, hi1),
                child_lo(nodes[id], i, lo2),
                child_hi(nodes[id], i, hi2),
                false,
            );
        }
    }
}

/// A subtree whose keys all lie inside a tighter interval satisfies its
/// invariant over that interval.
pub proof fn lemma_bounds_tighten(
    nodes: Seq<BtreeNode>,
    id: int,
    h: nat,
    t: int,
    lo1: int,
    hi1: int,
    lo2: int,
    hi2: int,
    is_root: bool,
)
    requires
        node_inv(nodes, id, h, t, lo1, hi1, is_root),
        forall|k: u64|
            #[trigger] subtree_keys_full(nodes, id, h).contains(k) ==> lo2 < (k as int) < hi2,
    ensures
        node_inv(nodes, id, h, t, lo2, hi2, is_root),
    decreases h,
{
    let nd = nodes[id];
    assert(subtree_keys_full(nodes, id, h) == subtree_keys_upto(nodes, id, h, nd.n + 1));
    assert forall|i: int| 0 <= i < nd.n implies lo2 < #[trigger] (nd.keys@[i] as int) < hi2 by {
        assert(node_keys(nd).contains(nd.keys@[i]));
        lemma_subtree_decompose(nodes, id, h, nd.n + 1, nd.keys@[i]);
    }
    if h > 0 {
        assert forall|i: int| 0 <= i <= nd.n implies node_inv(
            nodes,
            #[trigger] (nd.children@[i] as int),
            (h - 1) as nat,
            t,
            child_lo(nd, i, lo2),
            child_hi(nd, i, hi2),
            false,
        ) by {
            let c = nd.children@[i] as int;
            assert(node_inv(
                nodes,
                c,
                (h - 1) as nat,
                t,
                child_lo(nd, i, lo1),
                child_hi(nd, i, hi1),
                false,
            ));
            lemma_subtree_bounded(
                nodes,
                c,
                (h - 1) as nat,
                t,
                child_lo(nd, i, lo1),
                child_hi(nd, i, hi1),
                false,
                nodes[c].n + 1,
            );
            assert forall|k: u64| #[trigger]
                subtree_keys_full(nodes, c, (h - 1) as nat).contains(k) implies child_lo(
                nd,
                i,
                lo2,
            ) < (k as int) < child_hi(nd, i, hi2) by {
                lemma_subtree_decompose(nodes, id, h, nd.n + 1, k);
                assert(subtree_keys_full(nodes, id, h).contains(k));
                assert(subtree_keys_upto(nodes, c, (h - 1) as nat, nodes[c].n + 1).contains(k));
            }
            lemma_bounds_tighten(
                nodes,
                c,
                (h - 1) as nat,
                t,
                child_lo(nd, i, lo1),
                child_hi(nd, i, hi1),
                child_lo(nd, i, lo2),
                child_hi(nd, i, hi2),
                false,
            );
        }
    }
}

/// Removing the key at `pos` of the meaningful prefix (shifting the tail
/// one place left) removes exactly that key from the node's key set,
/// provided the keys are distinct.
pub proof fn lemma_node_keys_remove(nd1: BtreeNode, nd2: BtreeNode, pos: int)
    requires
        nd1.n >= 1,
        nd2.n == nd1.n - 1,
        nd1.n <= nd1.keys@.len(),
        nd2.keys@.len() == nd1.keys@.len(),
        0 <= pos < nd1.n,
        forall|j: int| 0 <= j < pos ==> nd2.keys@[j] == nd1.keys@[j],
        forall|j: int| pos <= j < nd1.n - 1 ==> nd2.keys@[j] == nd1.keys@[j + 1],
        forall|a: int, b: int|
            0 <= a < b < nd1.n ==> #[trigger] nd1.keys@[a] != #[trigger] nd1.keys@[b],
    ensures
        node_keys(nd2) == node_keys(nd1).remove(nd1.keys@[pos]),
{
    let key = nd1.keys@[pos];
    assert forall|k: u64| #[trigger] node_keys(nd2).contains(k) implies node_keys(nd1).remove(
        key,
    ).contains(k) by {
        let i = choose|i: int| 0 <= i < nd2.n && nd2.keys@[i] == k;
        if i < pos {
            assert(nd1.keys@[i] == k);
        } else {
            assert(nd1.keys@[i + 1] == k);
        }
    }
    assert forall|k: u64| node_keys(nd1).remove(key).contains(k) implies #[trigger] node_keys(
        nd2,
    ).contains(k) by {
        let i = choose|i: int| 0 <= i < nd1.n && nd1.keys@[i] == k;
        if i < pos {
            assert(nd2.keys@[i] == k);
        } else {
            assert(i != pos);
            assert(nd2.keys@[i - 1] == k);
        }
    }
    assert(node_keys(nd2) =~= node_keys(nd1).remove(key));
}

/// Inserting `key` at `pos` of the meaningful key prefix, shifting the
/// tail one place right, adds exactly `key` to the node's key set.
pub proof fn lemma_node_keys_insert(nd1: BtreeNode, nd2: BtreeNode, pos: int, key: u64)
    requires
        nd2.n == nd1.n + 1,
        nd1.n < nd1.keys@.len(),
        nd2.keys@.len() == nd1.keys@.len(),
        0 <= pos <= nd1.n,
        forall|j: int| 0 <= j < pos ==> nd2.keys@[j] == nd1.keys@[j],
        nd2.keys@[pos] == key,
        forall|j: int| pos < j <= nd1.n ==> nd2.keys@[j] == nd1.keys@[j - 1],
    ensures
        node_keys(nd2) == node_keys(nd1).insert(key),
{
    assert forall|k: u64| #[trigger] node_keys(nd2).contains(k) implies node_keys(
        nd1,
    ).insert(key).contains(k) by {
        let i = choose|i: int| 0 <= i < nd2.n && nd2.keys@[i] == k;
        if i < pos {
            assert(nd1.keys@[i] == k);
        } else if i > pos {
            assert(nd1.keys@[i - 1] == k);
        }
    }
    assert forall|k: u64| node_keys(nd1).insert(key).contains(k) implies #[trigger] node_keys(
        nd2,
    ).contains(k) by {
        if k == key {
            assert(nd2.keys@[pos] == k);
        } else {
            let i = choose|i: int| 0 <= i < nd1.n && nd1.keys@[i] == k;
            if i < pos {
                assert(nd2.keys@[i] == k);
            } else {
                assert(nd2.keys@[i + 1] == k);
            }
        }
    }
    assert(node_keys(nd2) =~= node_keys(nd1).insert(key));
}

/// A full node's key set splits into the keys below the median, the
/// median, and the keys above it, as held by the two halves of a split.
pub proof fn lemma_node_keys_split(big: BtreeNode, left: BtreeNode, right: BtreeNode, t: int)
    requires
        t >= 2,
        big.n == 2 * t - 1,
        big.keys@.len() >= 2 * t - 1,
        left.n == t - 1,
        right.n == t - 1,
        forall|j: int| 0 <= j < t - 1 ==> left.keys@[j] == big.keys@[j],
        forall|j: int| 0 <= j < t - 1 ==> right.keys@[j] == big.keys@[j + t],
    ensures
        node_keys(big) == (node_keys(left) + node_keys(right)).insert(big.keys@[t - 1]),
{
    assert forall|k: u64| #[trigger] node_keys(big).contains(k) implies (node_keys(left)
        + node_keys(right)).insert(big.keys@[t - 1]).contains(k) by {
        let i = choose|i: int| 0 <= i < big.n && big.keys@[i] == k;
        if i < t - 1 {
            assert(left.keys@[i] == k);
            assert(node_keys(left).contains(k));
        } else if i >= t {
            assert(right.keys@[i - t] == k);
            assert(node_keys(right).contains(k));
        }
    }
    assert forall|k: u64| (node_keys(left) + node_keys(right)).insert(big.keys@[t - 1]).contains(
        k,
    ) implies #[trigger] node_keys(big).contains(k) by {
        if k == big.keys@[t - 1] {
            assert(0 <= t - 1 < big.n && big.keys@[t - 1] == k);
        } else if node_keys(left).contains(k) {
            let i = choose|i: int| 0 <= i < left.n && left.keys@[i] == k;
            assert(big.keys@[i] == k);
        } else {
            let i = choose|i: int| 0 <= i < right.n && right.keys@[i] == k;
            assert(big.keys@[i + t] == k);
        }
    }
    assert(node_keys(big) =~= (node_keys(left) + node_keys(right)).insert(big.keys@[t - 1]));
}

/// Round trip: after inserts of any keys, a lookup hits exactly the
/// inserted keys; after deletes of any keys it hits exactly the
/// remainder.  `insert` ensures the key set grows by its key, `delete`
/// ensures it shrinks by its key, and `search` answers membership in the
/// key set, so the law reduces to this fact about the model: adding a
/// key makes exactly it and the existing keys members, and removing a
/// key unmakes exactly it.
pub proof fn lemma_btree_roundtrip(s: Set<u64>, k: u64, probe: u64)
    ensures
        s.insert(k).contains(probe) <==> (s.contains(probe) || probe == k),
        s.remove(k).contains(probe) <==> (s.contains(probe) && probe != k),
{
}

/// Insert/delete symmetry: inserting then deleting a key that was absent
/// restores the tree's key set, since `insert` ensures the set grows by
/// the key and `delete` ensures the result shrinks by it.
pub proof fn lemma_insert_delete_symmetry(s: Set<u64>, k: u64)
    requires
        !s.contains(k),
    ensures
        s.insert(k).remove(k) == s,
{
    assert(s.insert(k).remove(k) =~= s);
}

/// Order: in every node of a well-formed subtree, the meaningful keys
/// are strictly increasing.
pub proof fn lemma_btree_order(
    nodes: Seq<BtreeNode>,
    id: int,
    h: nat,
    t: int,
    lo: int,
    hi: int,
    is_root: bool,
    x: int,
)
    requires
        node_inv(nodes, id, h, t, lo, hi, is_root),
        subtree_ids_full(nodes, id, h).contains(x),
    ensures
        forall|a: int, b: int|
            0 <= a < b < nodes[x].n ==> #[trigger] nodes[x].keys@[a] < #[trigger] nodes[x].keys@[b],
        nodes[x].n <= 2 * t - 1,
        x == id || nodes[x].n >= t - 1,
        is_root || nodes[x].n >= t - 1,
    decreases h,
{
    lemma_ids_decompose(nodes, id, h, nodes[id].n + 1, x);
    assert(subtree_ids_full(nodes, id, h) == subtree_ids_upto(nodes, id, h, nodes[id].n + 1));
    if x != id {
        let m = choose|m: int|
            0 <= m < nodes[id].n + 1 && subtree_ids_full(
                nodes,
                #[trigger] (nodes[id].children@[m] as int),
                (h - 1) as nat,
            ).contains(x);
        lemma_btree_order(
            nodes,
            nodes[id].children@[m] as int,
            (h - 1) as nat,
            t,
            child_lo(nodes[id], m, lo),
            child_hi(nodes[id], m, hi),
            false,
            x,
        );
    }
}

/// Balance: a well-formed subtree of height `h` has its leaves exactly
/// `h` levels down: the node is a leaf just when `h` is zero, and every
/// child of an internal node is a well-formed subtree of height `h - 1`.
pub proof fn lemma_btree_balance(
    nodes: Seq<BtreeNode>,
    id: int,
    h: nat,
    t: int,
    lo: int,
    hi: int,
    is_root: bool,
)
    requires
        node_inv(nodes, id, h, t, lo, hi, is_root),
    ensures
        nodes[id].is_leaf <==> h == 0,
        h > 0 ==> forall|i: int|
            0 <= i <= nodes[id].n ==> node_inv(
                nodes,
                #[trigger] (nodes[id].children@[i] as int),
                (h - 1) as nat,
                t,
                child_lo(nodes[id], i, lo),
                child_hi(nodes[id], i, hi),
                false,
            ),
{
}

/// Separator: for an internal node of a well-formed subtree, every key
/// under `children[i]` is less than `keys[i]`, and every key under
/// `children[i + 1]` is greater.
pub proof fn lemma_btree_separator(
    nodes: Seq<BtreeNode>,
    id: int,
    h: nat,
    t: int,
    lo: int,
    hi: int,
    is_root: bool,
    i: int,
)
    requires
        node_inv(nodes, id, h, t, lo, hi, is_root),
        h > 0,
        0 <= i < nodes[id].n,
    ensures
        forall|k: u64|
            #[trigger] subtree_keys_full(nodes, nodes[id].children@[i] as int, (h - 1) as nat)
                .contains(k) ==> (k as int) < (nodes[id].keys@[i] as int),
        forall|k: u64|
            #[trigger] subtree_keys_full(nodes, nodes[id].children@[i + 1] as int, (h - 1) as nat)
                .contains(k) ==> (nodes[id].keys@[i] as int) < (k as int),
{
    let cl = nodes[id].children@[i] as int;
    let cr = nodes[id].children@[i + 1] as int;
    assert(node_inv(
        nodes,
        cl,
        (h - 1) as nat,
        t,
        child_lo(nodes[id], i, lo),
        child_hi(nodes[id], i, hi),
        false,
    ));
    assert(node_inv(
        nodes,
        cr,
        (h - 1) as nat,
        t,
        child_lo(nodes[id], i + 1, lo),
        child_hi(nodes[id], i + 1, hi),
        false,
    ));
    lemma_subtree_bounded(
        nodes,
        cl,
        (h - 1) as nat,
        t,
        child_lo(nodes[id], i, lo),
        child_hi(nodes[id], i, hi),
        false,
        nodes[cl].n + 1,
    );
    lemma_subtree_bounded(
        nodes,
        cr,
        (h - 1) as nat,
        t,
        child_lo(nodes[id], i + 1, lo),
        child_hi(nodes[id], i + 1, hi),
        false,
        nodes[cr].n + 1,
    );
    assert forall|k: u64| #[trigger]
        subtree_keys_full(nodes, cl, (h - 1) as nat).contains(k) implies (k as int) < (
    nodes[id].keys@[i] as int) by {
        assert(subtree_keys_full(nodes, cl, (h - 1) as nat) == subtree_keys_upto(
            nodes,
            cl,
            (h - 1) as nat,
            nodes[cl].n + 1,
        ));
    }
    assert forall|k: u64| #[trigger]
        subtree_keys_full(nodes, cr, (h - 1) as nat).contains(k) implies (
    nodes[id].keys@[i] as int) < (k as int) by {
        assert(subtree_keys_full(nodes, cr, (h - 1) as nat) == subtree_keys_upto(
            nodes,
            cr,
            (h - 1) as nat,
            nodes[cr].n + 1,
        ));
    }
}

/// The B-tree: the minimum degree fixed at construction, the arena that
/// owns the nodes, and the root's identifier.
pub struct Btree {
    /// Minimum degree `t`: bounds every node to between `t - 1` and
    /// `2t - 1` keys.
    pub t: usize,
    /// Arena for the tree's nodes.
    pub arena: Arena,
    /// Identifier of the root node.
    pub root_id: usize,
    /// Height of the tree: the number of edges from the root down to any
    /// leaf (all leaves are at the same depth).
    pub height: Ghost<nat>,
}

impl Btree {
    /// Structural soundness of the whole tree: the root's subtree
    /// satisfies the B-tree invariant, subtrees own disjoint arena slots,
    /// the free list holds only reset slots outside the tree, and an
    /// internal root keeps at least one key.  The degree cap is the
    /// machine limit: below `usize::MAX / 4` every capacity the tree
    /// computes (`2t` children per node, the up-to-`4t` counts a merge
    /// touches) fits in a `usize`.
    pub open spec fn wf(&self) -> bool {
        &&& 2 <= self.t <= usize::MAX / 4
        &&& node_inv(
            self.arena.nodes@,
            self.root_id as int,
            self.height@,
            self.t as int,
            -1,
            key_sup(),
            true,
        )
        &&& ids_ok(self.arena.nodes@, self.root_id as int, self.height@)
        &&& self.free_wf()
        &&& (self.arena.nodes@[self.root_id as int].is_leaf
            || self.arena.nodes@[self.root_id as int].n >= 1)
    }

    /// The free list names valid, reset arena slots that no live subtree
    /// uses, each at most once.
    pub open spec fn free_wf(&self) -> bool {
        free_ok(*self, self.root_id as int, self.height@)
    }

    /// The set of keys the tree currently holds.
    pub open spec fn key_set(&self) -> Set<u64> {
        subtree_keys_full(self.arena.nodes@, self.root_id as int, self.height@)
    }

    /// A new, empty tree of the given minimum degree: a single leaf root
    /// with no keys.  Any degree of at least 2 is admitted, up to the
    /// machine limit at which node capacities would overflow a `usize`.
    pub fn new(minimum_degree: usize) -> (tree: Btree)
        requires
            2 <= minimum_degree <= usize::MAX / 4,
        ensures
            tree.wf(),
            tree.t == minimum_degree,
            tree.key_set() =~= Set::<u64>::empty(),
    {
        let mut arena = Arena::new();
        let id = arena.allocate_node(minimum_degree);
        let tree = Btree { t: minimum_degree, arena, root_id: id, height: Ghost(0nat) };
        proof {
            assert(forall|k: u64| !node_keys(tree.arena.nodes@[id as int]).contains(k));
        }
        tree
    }

    /// Arena referential integrity: every node id a well-formed tree
    /// reaches is a valid arena slot that is not on the free list.
    pub proof fn lemma_arena_integrity(&self, x: int)
        requires
            self.wf(),
            subtree_ids_full(self.arena.nodes@, self.root_id as int, self.height@).contains(x),
        ensures
            0 <= x < self.arena.nodes@.len(),
            !free_set(self.arena.free_list@).contains(x),
    {
        lemma_ids_bounded(
            self.arena.nodes@,
            self.root_id as int,
            self.height@,
            self.t as int,
            -1,
            key_sup(),
            true,
            self.arena.nodes@[self.root_id as int].n + 1,
        );
        assert(subtree_ids_full(self.arena.nodes@, self.root_id as int, self.height@)
            == subtree_ids_upto(
            self.arena.nodes@,
            self.root_id as int,
            self.height@,
            self.arena.nodes@[self.root_id as int].n + 1,
        ));
        if free_set(self.arena.free_list@).contains(x) {
            let i = choose|i: int|
                0 <= i < self.arena.free_list@.len() && self.arena.free_list@[i] == x;
            assert(!subtree_ids_full(self.arena.nodes@, self.root_id as int, self.height@).contains(
                self.arena.free_list@[i] as int,
            ));
            assert(false);
        }
    }

    /// Looks the key up, returning the node id and in-node index of the
    /// matching entry.  The result is `Some` exactly when the key is in
    /// the tree.
    pub fn search(&self, key: u64) -> (r: Option<(usize, usize)>)
        requires
            self.wf(),
        ensures
            r is Some <==> self.key_set().contains(key),
            r matches Some((nid, idx)) ==> {
                &&& (nid as int) < self.arena.nodes@.len()
                &&& (idx as int) < self.arena.nodes@[nid as int].n
                &&& self.arena.nodes@[nid as int].keys@[idx as int] == key
            },
    {
        self.recursive_search(
            self.root_id,
            key,
            Ghost(self.height@),
            Ghost(-1),
            Ghost(key_sup()),
        )
    }

    /// Search within the subtree rooted at `node_id`: linear scan to the
    /// smallest in-node index whose key is at least `key`, then either a
    /// hit, a miss at a leaf, or a descent into the one child whose range
    /// admits the key.
    fn recursive_search(
        &self,
        node_id: usize,
        key: u64,
        Ghost(h): Ghost<nat>,
        Ghost(lo): Ghost<int>,
        Ghost(hi): Ghost<int>,
    ) -> (r: Option<(usize, usize)>)
        requires
            2 <= self.t <= usize::MAX / 4,
            node_inv(self.arena.nodes@, node_id as int, h, self.t as int, lo, hi, true),
        ensures
            r is Some <==> subtree_keys_full(self.arena.nodes@, node_id as int, h).contains(key),
            r matches Some((nid, idx)) ==> {
                &&& (nid as int) < self.arena.nodes@.len()
                &&& (idx as int) < self.arena.nodes@[nid as int].n
                &&& self.arena.nodes@[nid as int].keys@[idx as int] == key
            },
        decreases h,
    {
        let ghost nodes = self.arena.nodes@;
        let node = &self.arena.nodes[node_id];
        let n: usize = node.n;
        let mut index: usize = 0;
        while index < n && node.keys[index] < key
            invariant
                index <= n,
                n == node.n <= node.keys@.len(),
                node == &self.arena.nodes@[node_id as int],
                forall|j: int| 0 <= j < index ==> #[trigger] node.keys@[j] < key,
            decreases n - index,
        {
            index = index + 1;
        }
        if index < n && node.keys[index] == key {
            proof {
                assert(node_keys(nodes[node_id as int]).contains(key));
                lemma_subtree_decompose(
                    nodes,
                    node_id as int,
                    h,
                    nodes[node_id as int].n + 1,
                    key,
                );
            }
            return Some((node_id, index));
        }
        proof {
            assert(!node_keys(nodes[node_id as int]).contains(key)) by {
                if node_keys(nodes[node_id as int]).contains(key) {
                    let i = choose|i: int|
                        0 <= i < nodes[node_id as int].n && nodes[node_id as int].keys@[i] == key;
                    let nd0 = nodes[node_id as int];
                    if i >= index {
                        assert(nd0.keys@[index as int] <= nd0.keys@[i]);
                    }
                }
            }
        }
        if node.is_leaf {
            proof {
                lemma_subtree_decompose(
                    nodes,
                    node_id as int,
                    h,
                    nodes[node_id as int].n + 1,
                    key,
                );
            }
            return None;
        }
        let ghost nd = nodes[node_id as int];
        proof {
            assert(node_inv(
                nodes,
                nd.children@[index as int] as int,
                (h - 1) as nat,
                self.t as int,
                child_lo(nd, index as int, lo),
                child_hi(nd, index as int, hi),
                false,
            ));
        }
        let child_id = node.children[index];
        let r = self.recursive_search(
            child_id,
            key,
            Ghost((h - 1) as nat),
            Ghost(child_lo(nd, index as int, lo)),
            Ghost(child_hi(nd, index as int, hi)),
        );
        proof {
            lemma_subtree_decompose(nodes, node_id as int, h, nd.n + 1, key);
            let cid = nd.children@[index as int] as int;
            if subtree_keys_full(nodes, node_id as int, h).contains(key) {
                let j = choose|j: int|
                    0 <= j < nd.n + 1 && subtree_keys_full(
                        nodes,
                        #[trigger] (nd.children@[j] as int),
                        (h - 1) as nat,
                    ).contains(key);
                if j != index {
                    let c = nd.children@[j] as int;
                    let clo = child_lo(nd, j, lo);
                    let chi = child_hi(nd, j, hi);
                    assert(node_inv(nodes, c, (h - 1) as nat, self.t as int, clo, chi, false));
                    lemma_subtree_bounded(
                        nodes,
                        c,
                        (h - 1) as nat,
                        self.t as int,
                        clo,
                        chi,
                        false,
                        nodes[c].n + 1,
                    );
                    assert(subtree_keys_upto(nodes, c, (h - 1) as nat, nodes[c].n + 1).contains(
                        key,
                    ));
                    if j < index {
                        assert(chi <= nd.keys@[j] as int);
                        assert(nd.keys@[j] < key);
                        assert(false);
                    } else {
                        assert(clo >= nd.keys@[j - 1] as int);
                        assert(nd.keys@[j - 1] >= nd.keys@[index as int]);
                        assert(nd.keys@[index as int] > key);
                        assert(false);
                    }
                }
                assert(subtree_keys_full(nodes, cid, (h - 1) as nat).contains(key));
            }
            if subtree_keys_full(nodes, cid, (h - 1) as nat).contains(key) {
                assert(subtree_keys_full(nodes, node_id as int, h).contains(key));
            }
        }
        r
    }
}

} // verus!
