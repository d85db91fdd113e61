//! B-tree insertion: proactive top-down splitting.
//!
//! If the root is full it is split first (the only place the tree grows
//! in height); on the way down every full child is split before being
//! entered, so the node finally descended into always has room.  A key
//! already present is left alone: the tree stores no duplicates.

use vstd::prelude::*;
use crate::arena::BtreeNode;
use crate::arena::is_empty_node;
use crate::btree::Btree;
use crate::btree::child_hi;
use crate::btree::child_lo;
use crate::btree::free_ok;
use crate::btree::free_set;
use crate::btree::ids_ok;
use crate::btree::key_sup;
use crate::btree::lemma_frame;
use crate::btree::lemma_frame_trans;
use crate::btree::lemma_ids_base;
use crate::btree::lemma_ids_bounded;
use crate::btree::lemma_ids_child_sub;
use crate::btree::lemma_ids_decompose;
use crate::btree::lemma_node_keys_insert;
use crate::btree::lemma_prefix_trans;
use crate::btree::lemma_node_keys_split;
use crate::btree::lemma_subtree_bounded;
use crate::btree::lemma_subtree_decompose;
use crate::btree::mutation_frame;
use crate::btree::node_inv;
use crate::btree::node_keys;
use crate::btree::subtree_ids_full;
use crate::btree::subtree_ids_upto;
use crate::btree::subtree_keys_full;
use crate::btree::subtree_keys_upto;

verus! {

/// After a split, any two distinct children of the parent own disjoint
/// arena slots: the two halves split the old child's slots between them
/// plus the fresh sibling slot, and every other child is untouched.
#[verifier::rlimit(60)]
proof fn lemma_split_pair_disjoint(
    o: Seq<BtreeNode>,
    n2: Seq<BtreeNode>,
    parent: int,
    child: int,
    sib: int,
    ci: int,
    h: nat,
    a: int,
    b: int,
)
    requires
        h >= 1,
        0 <= ci <= o[parent].n,
        child == o[parent].children@[ci] as int,
        n2[parent].n == o[parent].n + 1,
        0 <= a < b <= n2[parent].n,
        forall|j: int| 0 <= j <= ci ==> n2[parent].children@[j] == o[parent].children@[j],
        n2[parent].children@[ci + 1] == sib,
        forall|j: int|
            ci + 1 < j <= o[parent].n + 1 ==> n2[parent].children@[j] == o[parent].children@[j
                - 1],
        forall|j: int|
            0 <= j <= o[parent].n && j != ci ==> subtree_ids_full(
                n2,
                #[trigger] (o[parent].children@[j] as int),
                (h - 1) as nat,
            ) == subtree_ids_full(o, o[parent].children@[j] as int, (h - 1) as nat),
        forall|x: int|
            #[trigger] subtree_ids_full(n2, child, (h - 1) as nat).contains(x)
                ==> subtree_ids_full(o, child, (h - 1) as nat).contains(x),
        forall|x: int|
            #[trigger] subtree_ids_full(n2, sib, (h - 1) as nat).contains(x) ==> (
            subtree_ids_full(o, child, (h - 1) as nat).contains(x) || x == sib),
        forall|x: int|
            #[trigger] subtree_ids_full(n2, child, (h - 1) as nat).contains(x)
                ==> !subtree_ids_full(n2, sib, (h - 1) as nat).contains(x),
        forall|i: int, j: int|
            0 <= i < j <= o[parent].n ==> subtree_ids_full(
                o,
                #[trigger] (o[parent].children@[i] as int),
                (h - 1) as nat,
            ).disjoint(
                subtree_ids_full(o, #[trigger] (o[parent].children@[j] as int), (h - 1) as nat),
            ),
        forall|j: int|
            0 <= j <= o[parent].n ==> !subtree_ids_full(
                o,
                #[trigger] (o[parent].children@[j] as int),
                (h - 1) as nat,
            ).contains(sib),
    ensures
        subtree_ids_full(n2, n2[parent].children@[a] as int, (h - 1) as nat).disjoint(
            subtree_ids_full(n2, n2[parent].children@[b] as int, (h - 1) as nat),
        ),
{
    let h1 = (h - 1) as nat;
    let po = o[parent];
    let np = n2[parent];
    let sa = subtree_ids_full(n2, np.children@[a] as int, h1);
    let sb = subtree_ids_full(n2, np.children@[b] as int, h1);
    assert forall|x: int| #[trigger] sa.contains(x) implies !sb.contains(x) by {
        if sb.contains(x) {
            // Translate both new positions to the old picture.
            if a == ci {
                assert(np.children@[a] == child);
            } else if a == ci + 1 {
                assert(np.children@[a] == sib);
            } else if a < ci {
                assert(np.children@[a] == po.children@[a]);
            } else {
                assert(np.children@[a] == po.children@[a - 1]);
            }
            if b == ci {
                assert(np.children@[b] == child);
            } else if b == ci + 1 {
                assert(np.children@[b] == sib);
            } else if b < ci {
                assert(np.children@[b] == po.children@[b]);
            } else {
                assert(np.children@[b] == po.children@[b - 1]);
            }
            let sco = subtree_ids_full(o, child, h1);
            if a == ci && b == ci + 1 {
                assert(false);
            } else if a == ci || a == ci + 1 {
                // `b` is an old child to the right of the split.
                let bo = b - 1;
                assert(subtree_ids_full(n2, po.children@[bo] as int, h1) == subtree_ids_full(
                    o,
                    po.children@[bo] as int,
                    h1,
                ));
                assert(sco.contains(x) || x == sib);
                assert(subtree_ids_full(
                    o,
                    po.children@[ci] as int,
                    h1,
                ).disjoint(subtree_ids_full(o, po.children@[bo] as int, h1)));
                assert(false);
            } else if b == ci || b == ci + 1 {
                // `a` is an old child to the left of the split.
                assert(subtree_ids_full(n2, po.children@[a] as int, h1) == subtree_ids_full(
                    o,
                    po.children@[a] as int,
                    h1,
                ));
                assert(sco.contains(x) || x == sib);
                assert(subtree_ids_full(
                    o,
                    po.children@[a] as int,
                    h1,
                ).disjoint(subtree_ids_full(o, po.children@[ci] as int, h1)));
                assert(false);
            } else {
                let ao = if a < ci {
                    a
                } else {
                    a - 1
                };
                let bo = if b < ci {
                    b
                } else {
                    b - 1
                };
                assert(ao < bo);
                assert(subtree_ids_full(n2, po.children@[ao] as int, h1) == subtree_ids_full(
                    o,
                    po.children@[ao] as int,
                    h1,
                ));
                assert(subtree_ids_full(n2, po.children@[bo] as int, h1) == subtree_ids_full(
                    o,
                    po.children@[bo] as int,
                    h1,
                ));
                assert(subtree_ids_full(
                    o,
                    po.children@[ao] as int,
                    h1,
                ).disjoint(subtree_ids_full(o, po.children@[bo] as int, h1)));
                assert(false);
            }
        }
    }
}

/// After a split the parent's subtree holds exactly the keys it held
/// before: the median moved up into the parent, and the remaining keys
/// of the old full child are split between the two halves.
#[verifier::rlimit(100)]
pub(crate) proof fn lemma_split_keys(
    o: Seq<BtreeNode>,
    n2: Seq<BtreeNode>,
    parent: int,
    child: int,
    sib: int,
    ci: int,
    h: nat,
    t: int,
)
    requires
        h >= 1,
        t >= 2,
        0 <= ci <= o[parent].n,
        o[parent].n < 2 * t - 1,
        child == o[parent].children@[ci] as int,
        o[child].n == 2 * t - 1,
        o[child].keys@.len() >= 2 * t - 1,
        o[parent].keys@.len() >= o[parent].n + 1,
        n2[parent].n == o[parent].n + 1,
        n2[parent].keys@.len() == o[parent].keys@.len(),
        forall|j: int| 0 <= j < ci ==> n2[parent].keys@[j] == o[parent].keys@[j],
        n2[parent].keys@[ci] == o[child].keys@[t - 1],
        forall|j: int| ci < j <= o[parent].n ==> n2[parent].keys@[j] == o[parent].keys@[j - 1],
        forall|j: int| 0 <= j <= ci ==> n2[parent].children@[j] == o[parent].children@[j],
        n2[parent].children@[ci + 1] == sib,
        forall|j: int|
            ci + 1 < j <= o[parent].n + 1 ==> n2[parent].children@[j] == o[parent].children@[j
                - 1],
        n2[child].n == t - 1,
        n2[child].keys@.len() >= t - 1,
        forall|j: int| 0 <= j < t - 1 ==> n2[child].keys@[j] == o[child].keys@[j],
        !o[child].is_leaf ==> forall|j: int|
            0 <= j < t ==> n2[child].children@[j] == o[child].children@[j],
        n2[sib].n == t - 1,
        n2[sib].is_leaf == o[child].is_leaf,
        n2[sib].keys@.len() >= t - 1,
        forall|j: int| 0 <= j < t - 1 ==> n2[sib].keys@[j] == o[child].keys@[j + t],
        !o[child].is_leaf ==> forall|j: int|
            0 <= j < t ==> n2[sib].children@[j] == o[child].children@[j + t],
        (o[child].is_leaf <==> h - 1 == 0),
        forall|j: int|
            0 <= j <= o[parent].n && j != ci ==> subtree_keys_full(
                n2,
                #[trigger] (o[parent].children@[j] as int),
                (h - 1) as nat,
            ) == subtree_keys_full(o, o[parent].children@[j] as int, (h - 1) as nat),
        h >= 2 ==> forall|m: int|
            0 <= m <= 2 * t - 1 ==> subtree_keys_full(
                n2,
                #[trigger] (o[child].children@[m] as int),
                (h - 2) as nat,
            ) == subtree_keys_full(o, o[child].children@[m] as int, (h - 2) as nat),
    ensures
        subtree_keys_full(n2, parent, h) == subtree_keys_full(o, parent, h),
{
    let h1 = (h - 1) as nat;
    let po = o[parent];
    let np = n2[parent];
    let co = o[child];
    let pn = po.n as int;
    let med = co.keys@[t - 1];
    lemma_node_keys_insert(po, np, ci, med);
    lemma_node_keys_split(co, n2[child], n2[sib], t);
    assert(subtree_keys_full(n2, parent, h) == subtree_keys_upto(n2, parent, h, pn + 2));
    assert(subtree_keys_full(o, parent, h) == subtree_keys_upto(o, parent, h, pn + 1));
    assert forall|k: u64| #[trigger]
        subtree_keys_full(n2, parent, h).contains(k) implies subtree_keys_full(
        o,
        parent,
        h,
    ).contains(k) by {
        lemma_subtree_decompose(n2, parent, h, pn + 2, k);
        lemma_subtree_decompose(o, parent, h, pn + 1, k);
        lemma_subtree_decompose(o, child, h1, 2 * t, k);
        if node_keys(np).contains(k) {
            if !node_keys(po).contains(k) {
                assert(k == med);
                assert(node_keys(co).contains(k));
                assert(subtree_keys_full(o, child, h1).contains(k));
                assert(child_subtree_holds_key(o, parent, h, ci, k));
            }
        } else {
            let j = choose|j: int|
                0 <= j < pn + 2 && subtree_keys_full(
                    n2,
                    #[trigger] (np.children@[j] as int),
                    h1,
                ).contains(k);
            if j < ci {
                assert(np.children@[j] == po.children@[j]);
                assert(subtree_keys_full(o, po.children@[j] as int, h1).contains(k));
            } else if j == ci {
                assert(np.children@[j] == child);
                lemma_subtree_decompose(n2, child, h1, t, k);
                if node_keys(n2[child]).contains(k) {
                    assert(node_keys(co).contains(k));
                } else {
                    let m = choose|m: int|
                        0 <= m < t && subtree_keys_full(
                            n2,
                            #[trigger] (n2[child].children@[m] as int),
                            (h1 - 1) as nat,
                        ).contains(k);
                    assert(n2[child].children@[m] == co.children@[m]);
                    assert(subtree_keys_full(o, co.children@[m] as int, (h1 - 1) as nat).contains(
                        k,
                    ));
                }
                assert(subtree_keys_full(o, child, h1).contains(k));
                assert(child_subtree_holds_key(o, parent, h, ci, k));
            } else if j == ci + 1 {
                assert(np.children@[j] == sib);
                lemma_subtree_decompose(n2, sib, h1, t, k);
                if node_keys(n2[sib]).contains(k) {
                    assert(node_keys(co).contains(k));
                } else {
                    let m = choose|m: int|
                        0 <= m < t && subtree_keys_full(
                            n2,
                            #[trigger] (n2[sib].children@[m] as int),
                            (h1 - 1) as nat,
                        ).contains(k);
                    assert(n2[sib].children@[m] == co.children@[m + t]);
                    assert(subtree_keys_full(
                        o,
                        co.children@[m + t] as int,
                        (h1 - 1) as nat,
                    ).contains(k));
                }
                assert(subtree_keys_full(o, child, h1).contains(k));
                assert(child_subtree_holds_key(o, parent, h, ci, k));
            } else {
                assert(np.children@[j] == po.children@[j - 1]);
                assert(subtree_keys_full(o, po.children@[j - 1] as int, h1).contains(k));
            }
        }
    }
    assert forall|k: u64| #[trigger]
        subtree_keys_full(o, parent, h).contains(k) implies subtree_keys_full(
        n2,
        parent,
        h,
    ).contains(k) by {
        lemma_subtree_decompose(n2, parent, h, pn + 2, k);
        lemma_subtree_decompose(o, parent, h, pn + 1, k);
        if node_keys(po).contains(k) {
            assert(node_keys(np).contains(k));
        } else {
            let j = choose|j: int|
                0 <= j < pn + 1 && subtree_keys_full(
                    o,
                    #[trigger] (po.children@[j] as int),
                    h1,
                ).contains(k);
            assert(subtree_keys_full(o, po.children@[j] as int, h1).contains(k));
            if j != ci {
                let jn = if j < ci {
                    j
                } else {
                    j + 1
                };
                assert(np.children@[jn] == po.children@[j]);
                assert(subtree_keys_full(n2, po.children@[j] as int, h1).contains(k));
                assert(child_subtree_holds_key(n2, parent, h, jn, k));
            } else {
                lemma_subtree_decompose(o, child, h1, 2 * t, k);
                if node_keys(co).contains(k) {
                    if k == med {
                        assert(node_keys(np).contains(k));
                    } else if node_keys(n2[child]).contains(k) {
                        lemma_subtree_decompose(n2, child, h1, t, k);
                        assert(subtree_keys_full(n2, child, h1).contains(k));
                        assert(child_subtree_holds_key(n2, parent, h, ci, k));
                    } else {
                        assert(node_keys(n2[sib]).contains(k));
                        lemma_subtree_decompose(n2, sib, h1, t, k);
                        assert(subtree_keys_full(n2, sib, h1).contains(k));
                        assert(child_subtree_holds_key(n2, parent, h, ci + 1, k));
                    }
                } else {
                    let m = choose|m: int|
                        0 <= m < 2 * t && subtree_keys_full(
                            o,
                            #[trigger] (co.children@[m] as int),
                            (h1 - 1) as nat,
                        ).contains(k);
                    assert(subtree_keys_full(o, co.children@[m] as int, (h1 - 1) as nat).contains(
                        k,
                    ));
                    assert(subtree_keys_full(n2, co.children@[m] as int, (h1 - 1) as nat).contains(
                        k,
                    ));
                    if m < t {
                        lemma_subtree_decompose(n2, child, h1, t, k);
                        assert(n2[child].children@[m] == co.children@[m]);
                        assert(subtree_keys_full(n2, child, h1).contains(k));
                        assert(child_subtree_holds_key(n2, parent, h, ci, k));
                    } else {
                        lemma_subtree_decompose(n2, sib, h1, t, k);
                        assert(n2[sib].children@[m - t] == co.children@[m]);
                        assert(subtree_keys_full(n2, sib, h1).contains(k));
                        assert(child_subtree_holds_key(n2, parent, h, ci + 1, k));
                    }
                }
            }
        }
    }
    assert(subtree_keys_full(n2, parent, h) =~= subtree_keys_full(o, parent, h));
}

/// The key `k` appears in the subtree of child `j` of `id`; a spec
/// shorthand used to supply existential witnesses to the decomposition
/// lemma.
pub open spec fn child_subtree_holds_key(
    nodes: Seq<BtreeNode>,
    id: int,
    h: nat,
    j: int,
    k: u64,
) -> bool {
    h > 0 && 0 <= j <= nodes[id].n && subtree_keys_full(
        nodes,
        nodes[id].children@[j] as int,
        (h - 1) as nat,
    ).contains(k)
}

/// Lifts the contract of a recursive insert into child `pos` back to the
/// parent's level: the parent's subtree keeps its invariant and its id
/// discipline, holds its old keys plus `key`, and its footprint is the
/// child mutation's footprint.
#[verifier::rlimit(100)]
proof fn lemma_descend(
    o: Seq<BtreeNode>,
    n2: Seq<BtreeNode>,
    f1: Seq<usize>,
    f2: Seq<usize>,
    parent: int,
    pos: int,
    key: u64,
    h: nat,
    t: int,
    lo: int,
    hi: int,
)
    requires
        node_inv(o, parent, h, t, lo, hi, true),
        ids_ok(o, parent, h),
        h >= 1,
        0 <= pos <= o[parent].n,
        f1.no_duplicates(),
        forall|i: int|
            0 <= i < f1.len() ==> 0 <= #[trigger] (f1[i] as int) < o.len() && !subtree_ids_full(
                o,
                parent,
                h,
            ).contains(f1[i] as int),
        n2.len() >= o.len(),
        node_inv(
            n2,
            o[parent].children@[pos] as int,
            (h - 1) as nat,
            t,
            child_lo(o[parent], pos, lo),
            child_hi(o[parent], pos, hi),
            true,
        ),
        n2[o[parent].children@[pos] as int].n >= o[o[parent].children@[pos] as int].n,
        o[o[parent].children@[pos] as int].n >= t - 1,
        ids_ok(n2, o[parent].children@[pos] as int, (h - 1) as nat),
        subtree_keys_full(n2, o[parent].children@[pos] as int, (h - 1) as nat)
            == subtree_keys_full(o, o[parent].children@[pos] as int, (h - 1) as nat).insert(key),
        forall|j: int|
            0 <= j < o.len() && !subtree_ids_full(
                o,
                o[parent].children@[pos] as int,
                (h - 1) as nat,
            ).contains(j) && (free_set(f2).contains(j) || !free_set(f1).contains(j)) ==> n2[j]
                == #[trigger] o[j],
        forall|j: int|
            #[trigger] subtree_ids_full(n2, o[parent].children@[pos] as int, (h - 1) as nat)
                .contains(j) ==> (subtree_ids_full(
                o,
                o[parent].children@[pos] as int,
                (h - 1) as nat,
            ).contains(j) || free_set(f1).contains(j) || j >= o.len()),
        f2.is_prefix_of(f1),
        forall|j: int|
            #[trigger] subtree_ids_full(n2, o[parent].children@[pos] as int, (h - 1) as nat)
                .contains(j) ==> !free_set(f2).contains(j),
        forall|i: int|
            0 <= i < f2.len() ==> !subtree_ids_full(
                n2,
                o[parent].children@[pos] as int,
                (h - 1) as nat,
            ).contains(#[trigger] (f2[i] as int)),
    ensures
        n2[parent] == o[parent],
        node_inv(n2, parent, h, t, lo, hi, true),
        ids_ok(n2, parent, h),
        subtree_keys_full(n2, parent, h) == subtree_keys_full(o, parent, h).insert(key),
        forall|i: int|
            0 <= i < f2.len() ==> !subtree_ids_full(n2, parent, h).contains(
                #[trigger] (f2[i] as int),
            ),
        forall|j: int|
            0 <= j < o.len() && !subtree_ids_full(o, parent, h).contains(j) && (free_set(
                f2,
            ).contains(j) || !free_set(f1).contains(j)) ==> n2[j] == #[trigger] o[j],
        forall|j: int|
            #[trigger] subtree_ids_full(n2, parent, h).contains(j) ==> (subtree_ids_full(
                o,
                parent,
                h,
            ).contains(j) || free_set(f1).contains(j) || j >= o.len()),
        forall|j: int|
            #[trigger] subtree_ids_full(n2, parent, h).contains(j) ==> !free_set(f2).contains(j),
{
    let h1 = (h - 1) as nat;
    let po = o[parent];
    let pn = po.n as int;
    let c = po.children@[pos] as int;
    let sc_o = subtree_ids_full(o, c, h1);
    let sc_n = subtree_ids_full(n2, c, h1);
    lemma_ids_base(o, parent, h, pn + 1);
    assert(subtree_ids_full(o, parent, h).contains(parent));
    lemma_ids_child_sub(o, parent, h, pos);
    lemma_ids_base(o, c, h1, o[c].n + 1);
    assert(sc_o.contains(c));
    assert(subtree_ids_full(o, parent, h).contains(c));
    // The parent record itself is outside the child's subtrees and the
    // free list, so it is untouched.
    assert(!sc_o.contains(parent));
    assert(!free_set(f1).contains(parent)) by {
        if free_set(f1).contains(parent) {
            let i = choose|i: int| 0 <= i < f1.len() && f1[i] == parent;
            assert(!subtree_ids_full(o, parent, h).contains(f1[i] as int));
            assert(false);
        }
    }
    assert(n2[parent] == o[parent]);
    lemma_prefix_trans(f2, f1, f1);
    // Untouched siblings keep their invariant, sets and discipline.
    assert forall|j: int| 0 <= j <= pn && j != pos implies {
        &&& node_inv(
            n2,
            #[trigger] (po.children@[j] as int),
            h1,
            t,
            child_lo(po, j, lo),
            child_hi(po, j, hi),
            false,
        )
        &&& subtree_ids_full(n2, po.children@[j] as int, h1) == subtree_ids_full(
            o,
            po.children@[j] as int,
            h1,
        )
        &&& subtree_keys_full(n2, po.children@[j] as int, h1) == subtree_keys_full(
            o,
            po.children@[j] as int,
            h1,
        )
        &&& ids_ok(n2, po.children@[j] as int, h1)
    } by {
        let cj = po.children@[j] as int;
        assert(node_inv(o, cj, h1, t, child_lo(po, j, lo), child_hi(po, j, hi), false));
        lemma_ids_child_sub(o, parent, h, j);
        lemma_ids_bounded(
            o,
            cj,
            h1,
            t,
            child_lo(po, j, lo),
            child_hi(po, j, hi),
            false,
            o[cj].n + 1,
        );
        if j < pos {
            assert(subtree_ids_full(o, cj, h1).disjoint(sc_o));
        } else {
            assert(sc_o.disjoint(subtree_ids_full(o, cj, h1)));
        }
        assert forall|x: int| #[trigger]
            subtree_ids_full(o, cj, h1).contains(x) implies n2[x] == o[x] by {
            assert(subtree_ids_full(o, cj, h1) == subtree_ids_upto(o, cj, h1, o[cj].n + 1));
            assert(subtree_ids_full(o, parent, h).contains(x));
            assert(!sc_o.contains(x));
            assert(!free_set(f1).contains(x)) by {
                if free_set(f1).contains(x) {
                    let i = choose|i: int| 0 <= i < f1.len() && f1[i] == x;
                    assert(false);
                }
            }
            assert(0 <= x < o.len());
        }
        lemma_frame(o, n2, cj, h1, t, child_lo(po, j, lo), child_hi(po, j, hi), false);
    }
    // The parent invariant after the descent.
    assert forall|j: int| 0 <= j <= pn implies node_inv(
        n2,
        #[trigger] (po.children@[j] as int),
        h1,
        t,
        child_lo(po, j, lo),
        child_hi(po, j, hi),
        false,
    ) by {
        if j == pos {
            assert(n2[c].n >= t - 1);
        }
    }
    assert(node_inv(n2, parent, h, t, lo, hi, true));
    // Where the new subtree's slots may come from.
    assert forall|x: int| #[trigger]
        subtree_ids_full(n2, parent, h).contains(x) implies (x == parent || (exists|j: int|
            0 <= j <= pn && subtree_ids_full(n2, #[trigger] (po.children@[j] as int), h1).contains(
                x,
            ))) by {
        lemma_ids_decompose(n2, parent, h, pn + 1, x);
        assert(subtree_ids_full(n2, parent, h) == subtree_ids_upto(n2, parent, h, pn + 1));
    }
    assert forall|x: int| #[trigger]
        subtree_ids_full(n2, parent, h).contains(x) implies (subtree_ids_full(
        o,
        parent,
        h,
    ).contains(x) || free_set(f1).contains(x) || x >= o.len()) by {
        if x != parent {
            let j = choose|j: int|
                0 <= j <= pn && subtree_ids_full(
                    n2,
                    #[trigger] (po.children@[j] as int),
                    h1,
                ).contains(x);
            lemma_ids_child_sub(o, parent, h, j);
            if j != pos {
                assert(subtree_ids_full(o, po.children@[j] as int, h1).contains(x));
            } else {
                assert(sc_n.contains(x));
            }
        }
    }
    assert forall|x: int| #[trigger]
        subtree_ids_full(n2, parent, h).contains(x) implies !free_set(f2).contains(x) by {
        if free_set(f2).contains(x) {
            let i = choose|i: int| 0 <= i < f2.len() && f2[i] == x;
            assert(free_set(f1).contains(x));
            assert(x != parent);
            let j = choose|j: int|
                0 <= j <= pn && subtree_ids_full(
                    n2,
                    #[trigger] (po.children@[j] as int),
                    h1,
                ).contains(x);
            if j != pos {
                assert(subtree_ids_full(o, po.children@[j] as int, h1).contains(x));
                lemma_ids_child_sub(o, parent, h, j);
                let ii = choose|ii: int| 0 <= ii < f1.len() && f1[ii] == x;
                assert(!subtree_ids_full(o, parent, h).contains(f1[ii] as int));
                assert(false);
            } else {
                assert(sc_n.contains(x));
                assert(false);
            }
        }
    }
    assert forall|i: int| 0 <= i < f2.len() implies !subtree_ids_full(n2, parent, h).contains(
        #[trigger] (f2[i] as int),
    ) by {
        if subtree_ids_full(n2, parent, h).contains(f2[i] as int) {
            assert(free_set(f2).contains(f2[i] as int));
            assert(false);
        }
    }
    // Id discipline at the parent.
    assert(ids_ok(n2, parent, h)) by {
        assert forall|a: int, b: int| 0 <= a < b <= pn implies subtree_ids_full(
            n2,
            #[trigger] (po.children@[a] as int),
            h1,
        ).disjoint(subtree_ids_full(n2, #[trigger] (po.children@[b] as int), h1)) by {
            let sa = subtree_ids_full(n2, po.children@[a] as int, h1);
            let sb = subtree_ids_full(n2, po.children@[b] as int, h1);
            assert forall|x: int| #[trigger] sa.contains(x) implies !sb.contains(x) by {
                if sb.contains(x) {
                    if a == pos {
                        // `x` came from the child's mutation footprint.
                        assert(subtree_ids_full(o, po.children@[b] as int, h1).contains(x));
                        if sc_o.contains(x) {
                            assert(sc_o.disjoint(subtree_ids_full(o, po.children@[b] as int, h1)));
                            assert(false);
                        } else if free_set(f1).contains(x) {
                            let i = choose|i: int| 0 <= i < f1.len() && f1[i] == x;
                            lemma_ids_child_sub(o, parent, h, b);
                            assert(false);
                        } else {
                            lemma_ids_bounded(
                                o,
                                po.children@[b] as int,
                                h1,
                                t,
                                child_lo(po, b, lo),
                                child_hi(po, b, hi),
                                false,
                                o[po.children@[b] as int].n + 1,
                            );
                            assert(node_inv(
                                o,
                                po.children@[b] as int,
                                h1,
                                t,
                                child_lo(po, b, lo),
                                child_hi(po, b, hi),
                                false,
                            ));
                            assert(subtree_ids_full(o, po.children@[b] as int, h1)
                                == subtree_ids_upto(
                                o,
                                po.children@[b] as int,
                                h1,
                                o[po.children@[b] as int].n + 1,
                            ));
                            assert(x < o.len());
                            assert(false);
                        }
                    } else if b == pos {
                        assert(subtree_ids_full(o, po.children@[a] as int, h1).contains(x));
                        if sc_o.contains(x) {
                            assert(subtree_ids_full(o, po.children@[a] as int, h1).disjoint(sc_o));
                            assert(false);
                        } else if free_set(f1).contains(x) {
                            let i = choose|i: int| 0 <= i < f1.len() && f1[i] == x;
                            lemma_ids_child_sub(o, parent, h, a);
                            assert(false);
                        } else {
                            lemma_ids_bounded(
                                o,
                                po.children@[a] as int,
                                h1,
                                t,
                                child_lo(po, a, lo),
                                child_hi(po, a, hi),
                                false,
                                o[po.children@[a] as int].n + 1,
                            );
                            assert(node_inv(
                                o,
                                po.children@[a] as int,
                                h1,
                                t,
                                child_lo(po, a, lo),
                                child_hi(po, a, hi),
                                false,
                            ));
                            assert(subtree_ids_full(o, po.children@[a] as int, h1)
                                == subtree_ids_upto(
                                o,
                                po.children@[a] as int,
                                h1,
                                o[po.children@[a] as int].n + 1,
                            ));
                            assert(x < o.len());
                            assert(false);
                        }
                    } else {
                        assert(subtree_ids_full(o, po.children@[a] as int, h1).disjoint(
                            subtree_ids_full(o, po.children@[b] as int, h1),
                        ));
                        assert(false);
                    }
                }
            }
        }
        assert forall|a: int| 0 <= a <= pn implies !subtree_ids_full(
            n2,
            #[trigger] (po.children@[a] as int),
            h1,
        ).contains(parent) by {
            if subtree_ids_full(n2, po.children@[a] as int, h1).contains(parent) {
                if a == pos {
                    assert(sc_n.contains(parent));
                    assert(false);
                }
            }
        }
    }
    // The keys afterwards: the old keys plus the inserted one.
    let kp_o = subtree_keys_full(o, parent, h);
    let kp_n = subtree_keys_full(n2, parent, h);
    assert forall|k: u64| #[trigger] kp_n.contains(k) implies kp_o.insert(key).contains(k) by {
        lemma_subtree_decompose(n2, parent, h, pn + 1, k);
        lemma_subtree_decompose(o, parent, h, pn + 1, k);
        assert(kp_n == subtree_keys_upto(n2, parent, h, pn + 1));
        assert(kp_o == subtree_keys_upto(o, parent, h, pn + 1));
        if !node_keys(po).contains(k) {
            let j = choose|j: int|
                0 <= j < pn + 1 && subtree_keys_full(
                    n2,
                    #[trigger] (po.children@[j] as int),
                    h1,
                ).contains(k);
            if j == pos {
                assert(subtree_keys_full(o, c, h1).insert(key).contains(k));
            } else {
                assert(subtree_keys_full(o, po.children@[j] as int, h1).contains(k));
            }
        }
    }
    assert forall|k: u64| #[trigger] kp_o.insert(key).contains(k) implies kp_n.contains(k) by {
        lemma_subtree_decompose(n2, parent, h, pn + 1, k);
        lemma_subtree_decompose(o, parent, h, pn + 1, k);
        assert(kp_n == subtree_keys_upto(n2, parent, h, pn + 1));
        assert(kp_o == subtree_keys_upto(o, parent, h, pn + 1));
        if k == key {
            assert(subtree_keys_full(n2, c, h1).contains(k));
        } else if !node_keys(po).contains(k) {
            let j = choose|j: int|
                0 <= j < pn + 1 && subtree_keys_full(
                    o,
                    #[trigger] (po.children@[j] as int),
                    h1,
                ).contains(k);
            if j == pos {
                assert(subtree_keys_full(n2, c, h1).contains(k));
            } else {
                assert(subtree_keys_full(n2, po.children@[j] as int, h1).contains(k));
            }
        }
    }
    assert(kp_n =~= kp_o.insert(key));
}

/// Re-establishes the B-tree invariant after a split: with the old arena
/// `o` and the new arena `n2` related as `split_child` leaves them — the
/// full child `child` cut to its first `t - 1` keys, the new sibling
/// `sib` holding the upper `t - 1` keys, and the median risen into the
/// parent at `ci` — the parent's subtree satisfies the same invariant
/// over the same bounds, holds exactly the same keys, and has gained
/// only the slot `sib`.
#[verifier::rlimit(60)]
proof fn lemma_split(
    o: Seq<BtreeNode>,
    n2: Seq<BtreeNode>,
    parent: int,
    child: int,
    sib: int,
    ci: int,
    h: nat,
    t: int,
    lo: int,
    hi: int,
)
    requires
        node_inv(o, parent, h, t, lo, hi, true),
        ids_ok(o, parent, h),
        h >= 1,
        0 <= ci <= o[parent].n,
        o[parent].n < 2 * t - 1,
        child == o[parent].children@[ci] as int,
        o[child].n == 2 * t - 1,
        0 <= sib < n2.len(),
        !subtree_ids_full(o, parent, h).contains(sib),
        n2.len() >= o.len(),
        forall|j: int|
            0 <= j < o.len() && j != parent && j != child && j != sib ==> n2[j] == #[trigger] o[j],
        n2[parent].n == o[parent].n + 1,
        n2[parent].keys@.len() == o[parent].keys@.len(),
        n2[parent].children@.len() == o[parent].children@.len(),
        n2[parent].is_leaf == o[parent].is_leaf,
        forall|j: int| 0 <= j < ci ==> n2[parent].keys@[j] == o[parent].keys@[j],
        n2[parent].keys@[ci] == o[child].keys@[t - 1],
        forall|j: int| ci < j <= o[parent].n ==> n2[parent].keys@[j] == o[parent].keys@[j - 1],
        forall|j: int| 0 <= j <= ci ==> n2[parent].children@[j] == o[parent].children@[j],
        n2[parent].children@[ci + 1] == sib,
        forall|j: int|
            ci + 1 < j <= o[parent].n + 1 ==> n2[parent].children@[j] == o[parent].children@[j
                - 1],
        n2[child].n == t - 1,
        n2[child].is_leaf == o[child].is_leaf,
        n2[child].keys@ == o[child].keys@,
        n2[child].children@ == o[child].children@,
        n2[sib].n == t - 1,
        n2[sib].is_leaf == o[child].is_leaf,
        n2[sib].keys@.len() == 2 * t - 1,
        n2[sib].children@.len() == 2 * t,
        forall|j: int| 0 <= j < t - 1 ==> n2[sib].keys@[j] == o[child].keys@[j + t],
        !o[child].is_leaf ==> forall|j: int|
            0 <= j < t ==> n2[sib].children@[j] == o[child].children@[j + t],
    ensures
        node_inv(n2, parent, h, t, lo, hi, true),
        ids_ok(n2, parent, h),
        subtree_keys_full(n2, parent, h) == subtree_keys_full(o, parent, h),
        forall|x: int|
            #[trigger] subtree_ids_full(n2, parent, h).contains(x) ==> (subtree_ids_full(
                o,
                parent,
                h,
            ).contains(x) || x == sib),
{
    let po = o[parent];
    let pn = po.n as int;
    let h1 = (h - 1) as nat;
    let lo_c = child_lo(po, ci, lo);
    let hi_c = child_hi(po, ci, hi);
    let med = o[child].keys@[t - 1];
    assert(node_inv(o, child, h1, t, lo_c, hi_c, false));
    assert(ids_ok(o, child, h1));
    assert(!subtree_ids_full(o, child, h1).contains(parent));
    assert(parent != child);
    assert(subtree_ids_full(o, child, h1) == subtree_ids_upto(o, child, h1, o[child].n + 1));
    lemma_ids_base(o, child, h1, o[child].n + 1);
    lemma_ids_child_sub(o, parent, h, ci);
    assert(subtree_ids_full(o, parent, h).contains(child));
    lemma_ids_base(o, parent, h, pn + 1);
    assert(subtree_ids_full(o, parent, h).contains(parent));
    assert(sib != parent && sib != child);

    // The median is a key of the full child, so it lies strictly between
    // the child's bounds.
    assert(node_keys(o[child]).contains(med));
    lemma_subtree_decompose(o, child, h1, o[child].n + 1, med);
    assert(subtree_keys_full(o, child, h1) == subtree_keys_upto(o, child, h1, o[child].n + 1));
    assert(subtree_keys_full(o, child, h1).contains(med));
    lemma_subtree_bounded(o, child, h1, t, lo_c, hi_c, false, o[child].n + 1);
    assert(lo_c < (med as int) < hi_c);

    // Old siblings of the child keep their subtrees untouched.
    assert forall|j: int| 0 <= j <= pn && j != ci implies {
        &&& node_inv(
            n2,
            #[trigger] (po.children@[j] as int),
            h1,
            t,
            child_lo(po, j, lo),
            child_hi(po, j, hi),
            false,
        )
        &&& subtree_ids_full(n2, po.children@[j] as int, h1) == subtree_ids_full(
            o,
            po.children@[j] as int,
            h1,
        )
        &&& subtree_keys_full(n2, po.children@[j] as int, h1) == subtree_keys_full(
            o,
            po.children@[j] as int,
            h1,
        )
        &&& ids_ok(n2, po.children@[j] as int, h1)
    } by {
        let cj = po.children@[j] as int;
        assert(node_inv(o, cj, h1, t, child_lo(po, j, lo), child_hi(po, j, hi), false));
        lemma_ids_child_sub(o, parent, h, j);
        lemma_ids_bounded(
            o,
            cj,
            h1,
            t,
            child_lo(po, j, lo),
            child_hi(po, j, hi),
            false,
            o[cj].n + 1,
        );
        if j < ci {
            assert(subtree_ids_full(o, cj, h1).disjoint(subtree_ids_full(o, child, h1)));
        } else {
            assert(subtree_ids_full(o, child, h1).disjoint(subtree_ids_full(o, cj, h1)));
        }
        assert forall|x: int| #[trigger]
            subtree_ids_full(o, cj, h1).contains(x) implies n2[x] == o[x] by {
            assert(subtree_ids_full(o, cj, h1) == subtree_ids_upto(o, cj, h1, o[cj].n + 1));
            assert(x != parent && x != child && x != sib && 0 <= x < o.len());
        }
        lemma_frame(o, n2, cj, h1, t, child_lo(po, j, lo), child_hi(po, j, hi), false);
    }

    // Grandchildren under the split child keep their subtrees untouched.
    let co = o[child];
    if h >= 2 {
        let h2 = (h - 2) as nat;
        assert forall|m: int| 0 <= m <= 2 * t - 1 implies {
            &&& node_inv(
                n2,
                #[trigger] (co.children@[m] as int),
                h2,
                t,
                child_lo(co, m, lo_c),
                child_hi(co, m, hi_c),
                false,
            )
            &&& subtree_ids_full(n2, co.children@[m] as int, h2) == subtree_ids_full(
                o,
                co.children@[m] as int,
                h2,
            )
            &&& subtree_keys_full(n2, co.children@[m] as int, h2) == subtree_keys_full(
                o,
                co.children@[m] as int,
                h2,
            )
            &&& ids_ok(n2, co.children@[m] as int, h2)
        } by {
            let g = co.children@[m] as int;
            assert(node_inv(o, g, h2, t, child_lo(co, m, lo_c), child_hi(co, m, hi_c), false));
            lemma_ids_child_sub(o, child, h1, m);
            lemma_ids_bounded(
                o,
                g,
                h2,
                t,
                child_lo(co, m, lo_c),
                child_hi(co, m, hi_c),
                false,
                o[g].n + 1,
            );
            assert forall|x: int| #[trigger]
                subtree_ids_full(o, g, h2).contains(x) implies n2[x] == o[x] by {
                assert(subtree_ids_full(o, g, h2) == subtree_ids_upto(o, g, h2, o[g].n + 1));
                assert(subtree_ids_full(o, child, h1).contains(x));
                assert(subtree_ids_full(o, parent, h).contains(x));
                assert(!subtree_ids_full(o, g, h2).contains(child));
                assert(x != child && x != parent && x != sib && 0 <= x < o.len());
            }
            lemma_frame(o, n2, g, h2, t, child_lo(co, m, lo_c), child_hi(co, m, hi_c), false);
        }
    }

    // The cut-down child satisfies the invariant between its old lower
    // bound and the median.
    assert(node_inv(n2, child, h1, t, lo_c, med as int, false)) by {
        if h >= 2 {
            let h2 = (h - 2) as nat;
            assert forall|i: int| 0 <= i <= n2[child].n implies node_inv(
                n2,
                #[trigger] (n2[child].children@[i] as int),
                h2,
                t,
                child_lo(n2[child], i, lo_c),
                child_hi(n2[child], i, med as int),
                false,
            ) by {
                assert(n2[child].children@[i] == co.children@[i]);
                assert(child_lo(n2[child], i, lo_c) == child_lo(co, i, lo_c));
                assert(child_hi(n2[child], i, med as int) == child_hi(co, i, hi_c));
            }
        }
    }

    // The new sibling satisfies the invariant between the median and the
    // child's old upper bound.
    assert(node_inv(n2, sib, h1, t, med as int, hi_c, false)) by {
        assert forall|a: int| 0 <= a < n2[sib].n implies (med as int) < #[trigger] (
        n2[sib].keys@[a] as int) < hi_c by {
            assert(n2[sib].keys@[a] == co.keys@[a + t]);
            assert(co.keys@[t - 1] < co.keys@[a + t]);
        }
        assert forall|a: int, b: int| 0 <= a < b < n2[sib].n implies #[trigger] n2[sib].keys@[a]
            < #[trigger] n2[sib].keys@[b] by {
            assert(n2[sib].keys@[a] == co.keys@[a + t] && n2[sib].keys@[b] == co.keys@[b + t]);
        }
        if h >= 2 {
            let h2 = (h - 2) as nat;
            assert forall|i: int| 0 <= i <= n2[sib].n implies node_inv(
                n2,
                #[trigger] (n2[sib].children@[i] as int),
                h2,
                t,
                child_lo(n2[sib], i, med as int),
                child_hi(n2[sib], i, hi_c),
                false,
            ) by {
                assert(n2[sib].children@[i] == co.children@[i + t]);
                assert(child_lo(n2[sib], i, med as int) == child_lo(co, i + t, lo_c));
                assert(child_hi(n2[sib], i, hi_c) == child_hi(co, i + t, hi_c));
            }
        }
    }

    // The parent's enlarged key array is sorted and in bounds.
    let np = n2[parent];
    assert forall|a: int, b: int| 0 <= a < b < np.n implies #[trigger] np.keys@[a]
        < #[trigger] np.keys@[b] by {
        if b < ci {
        } else if b == ci {
            assert(np.keys@[a] == po.keys@[a]);
            assert(po.keys@[a] as int <= lo_c);
        } else if a == ci {
            assert(np.keys@[b] == po.keys@[b - 1]);
            assert(hi_c <= po.keys@[b - 1] as int);
        } else if a < ci {
            assert(np.keys@[a] == po.keys@[a] && np.keys@[b] == po.keys@[b - 1]);
        } else {
            assert(np.keys@[a] == po.keys@[a - 1] && np.keys@[b] == po.keys@[b - 1]);
        }
    }
    assert forall|a: int| 0 <= a < np.n implies lo < #[trigger] (np.keys@[a] as int) < hi by {
        if a < ci {
            assert(np.keys@[a] == po.keys@[a]);
        } else if a > ci {
            assert(np.keys@[a] == po.keys@[a - 1]);
        } else {
            assert(lo <= lo_c && hi_c <= hi);
        }
    }

    // Every child of the parent satisfies the invariant at its new index.
    assert forall|j: int| 0 <= j <= np.n implies node_inv(
        n2,
        #[trigger] (np.children@[j] as int),
        h1,
        t,
        child_lo(np, j, lo),
        child_hi(np, j, hi),
        false,
    ) by {
        if j < ci {
            assert(np.children@[j] == po.children@[j]);
            assert(child_lo(np, j, lo) == child_lo(po, j, lo));
            assert(child_hi(np, j, hi) == child_hi(po, j, hi));
        } else if j == ci {
            assert(np.children@[j] == po.children@[ci]);
            assert(child_lo(np, j, lo) == lo_c);
            assert(child_hi(np, j, hi) == med as int);
        } else if j == ci + 1 {
            assert(np.children@[j] == sib);
            assert(child_lo(np, j, lo) == med as int);
            assert(child_hi(np, j, hi) == hi_c);
        } else {
            assert(np.children@[j] == po.children@[j - 1]);
            assert(child_lo(np, j, lo) == child_lo(po, j - 1, lo));
            assert(child_hi(np, j, hi) == child_hi(po, j - 1, hi));
        }
    }
    assert(node_inv(n2, parent, h, t, lo, hi, true));

    // Id sets of the two halves: the cut-down child keeps a subset of the
    // old child's slots; the sibling adds only its own slot.
    let sc_o = subtree_ids_full(o, child, h1);
    let sc_n = subtree_ids_full(n2, child, h1);
    let ss_n = subtree_ids_full(n2, sib, h1);
    assert forall|x: int| #[trigger] sc_n.contains(x) implies sc_o.contains(x) by {
        lemma_ids_decompose(n2, child, h1, t, x);
        assert(sc_n == subtree_ids_upto(n2, child, h1, t));
        if x != child {
            let m = choose|m: int|
                0 <= m < t && subtree_ids_full(
                    n2,
                    #[trigger] (n2[child].children@[m] as int),
                    (h1 - 1) as nat,
                ).contains(x);
            assert(n2[child].children@[m] == co.children@[m]);
            lemma_ids_child_sub(o, child, h1, m);
            assert(subtree_ids_full(o, co.children@[m] as int, (h1 - 1) as nat).contains(x));
        } else {
            lemma_ids_base(o, child, h1, o[child].n + 1);
        }
    }
    assert forall|x: int| #[trigger] ss_n.contains(x) implies (sc_o.contains(x) || x == sib) by {
        lemma_ids_decompose(n2, sib, h1, t, x);
        assert(ss_n == subtree_ids_upto(n2, sib, h1, t));
        if x != sib {
            let m = choose|m: int|
                0 <= m < t && subtree_ids_full(
                    n2,
                    #[trigger] (n2[sib].children@[m] as int),
                    (h1 - 1) as nat,
                ).contains(x);
            assert(n2[sib].children@[m] == co.children@[m + t]);
            lemma_ids_child_sub(o, child, h1, m + t);
            assert(subtree_ids_full(o, co.children@[m + t] as int, (h1 - 1) as nat).contains(x));
        }
    }
    // The two halves are disjoint, avoid the parent, and keep their own
    // id discipline.
    assert forall|x: int| #[trigger] sc_n.contains(x) implies !ss_n.contains(x) by {
        if ss_n.contains(x) {
            lemma_ids_decompose(n2, child, h1, t, x);
            lemma_ids_decompose(n2, sib, h1, t, x);
            assert(sc_n == subtree_ids_upto(n2, child, h1, t));
            assert(ss_n == subtree_ids_upto(n2, sib, h1, t));
            assert(sc_o.contains(x));
            assert(x != sib);
            if x == child {
                let m = choose|m: int|
                    0 <= m < t && subtree_ids_full(
                        n2,
                        #[trigger] (n2[sib].children@[m] as int),
                        (h1 - 1) as nat,
                    ).contains(x);
                assert(n2[sib].children@[m] == co.children@[m + t]);
                assert(subtree_ids_full(o, co.children@[m + t] as int, (h1 - 1) as nat).contains(
                    child,
                ));
                assert(false);
            } else {
                let a = choose|a: int|
                    0 <= a < t && subtree_ids_full(
                        n2,
                        #[trigger] (n2[child].children@[a] as int),
                        (h1 - 1) as nat,
                    ).contains(x);
                let b = choose|b: int|
                    0 <= b < t && subtree_ids_full(
                        n2,
                        #[trigger] (n2[sib].children@[b] as int),
                        (h1 - 1) as nat,
                    ).contains(x);
                assert(n2[child].children@[a] == co.children@[a]);
                assert(n2[sib].children@[b] == co.children@[b + t]);
                assert(subtree_ids_full(o, co.children@[a] as int, (h1 - 1) as nat).disjoint(
                    subtree_ids_full(o, co.children@[b + t] as int, (h1 - 1) as nat),
                ));
                assert(false);
            }
        }
    }
    assert(ids_ok(n2, child, h1)) by {
        if h1 > 0 {
            assert forall|a: int, b: int| 0 <= a < b <= n2[child].n implies subtree_ids_full(
                n2,
                #[trigger] (n2[child].children@[a] as int),
                (h1 - 1) as nat,
            ).disjoint(
                subtree_ids_full(n2, #[trigger] (n2[child].children@[b] as int), (h1 - 1) as nat),
            ) by {
                assert(n2[child].children@[a] == co.children@[a]);
                assert(n2[child].children@[b] == co.children@[b]);
            }
        }
    }
    assert(ids_ok(n2, sib, h1)) by {
        if h1 > 0 {
            assert forall|a: int, b: int| 0 <= a < b <= n2[sib].n implies subtree_ids_full(
                n2,
                #[trigger] (n2[sib].children@[a] as int),
                (h1 - 1) as nat,
            ).disjoint(
                subtree_ids_full(n2, #[trigger] (n2[sib].children@[b] as int), (h1 - 1) as nat),
            ) by {
                assert(n2[sib].children@[a] == co.children@[a + t]);
                assert(n2[sib].children@[b] == co.children@[b + t]);
            }
            assert forall|a: int| 0 <= a <= n2[sib].n implies !subtree_ids_full(
                n2,
                #[trigger] (n2[sib].children@[a] as int),
                (h1 - 1) as nat,
            ).contains(sib) by {
                assert(n2[sib].children@[a] == co.children@[a + t]);
                lemma_ids_child_sub(o, child, h1, a + t);
                if subtree_ids_full(o, co.children@[a + t] as int, (h1 - 1) as nat).contains(
                    sib,
                ) {
                    assert(sc_o.contains(sib));
                    lemma_ids_child_sub(o, parent, h, ci);
                    assert(false);
                }
            }
        }
    }
    // Which slots the parent's subtree may use afterwards.
    assert forall|x: int| #[trigger]
        subtree_ids_full(n2, parent, h).contains(x) implies (subtree_ids_full(
        o,
        parent,
        h,
    ).contains(x) || x == sib) by {
        lemma_ids_decompose(n2, parent, h, pn + 2, x);
        assert(subtree_ids_full(n2, parent, h) == subtree_ids_upto(n2, parent, h, pn + 2));
        if x != parent {
            let j = choose|j: int|
                0 <= j < pn + 2 && subtree_ids_full(
                    n2,
                    #[trigger] (np.children@[j] as int),
                    h1,
                ).contains(x);
            lemma_ids_child_sub(o, parent, h, ci);
            if j == ci {
                assert(np.children@[j] == child);
            } else if j == ci + 1 {
                assert(np.children@[j] == sib);
            } else if j < ci {
                assert(np.children@[j] == po.children@[j]);
                lemma_ids_child_sub(o, parent, h, j);
            } else {
                assert(np.children@[j] == po.children@[j - 1]);
                lemma_ids_child_sub(o, parent, h, j - 1);
            }
        } else {
            lemma_ids_base(o, parent, h, pn + 1);
        }
    }
    // The fresh sibling slot is in no old child's subtree.
    assert forall|j: int| 0 <= j <= pn implies !subtree_ids_full(
        n2,
        #[trigger] (po.children@[j] as int),
        h1,
    ).contains(sib) && !subtree_ids_full(o, po.children@[j] as int, h1).contains(sib) by {
        lemma_ids_child_sub(o, parent, h, j);
        if subtree_ids_full(o, po.children@[j] as int, h1).contains(sib) {
            assert(subtree_ids_full(o, parent, h).contains(sib));
            assert(false);
        }
        if j != ci {
            assert(subtree_ids_full(n2, po.children@[j] as int, h1) == subtree_ids_full(
                o,
                po.children@[j] as int,
                h1,
            ));
        } else {
            assert(po.children@[j] as int == child);
            if subtree_ids_full(n2, child, h1).contains(sib) {
                assert(sc_o.contains(sib));
                assert(false);
            }
        }
    }
    // The parent keeps its id discipline.
    assert(ids_ok(n2, parent, h)) by {
        assert forall|a: int, b: int| 0 <= a < b <= np.n implies subtree_ids_full(
            n2,
            #[trigger] (np.children@[a] as int),
            h1,
        ).disjoint(subtree_ids_full(n2, #[trigger] (np.children@[b] as int), h1)) by {
            lemma_split_pair_disjoint(o, n2, parent, child, sib, ci, h, a, b);
        }
        assert forall|a: int| 0 <= a <= np.n implies !subtree_ids_full(
            n2,
            #[trigger] (np.children@[a] as int),
            h1,
        ).contains(parent) by {
            lemma_ids_child_sub(o, parent, h, ci);
            if a == ci {
                assert(np.children@[a] == child);
            } else if a == ci + 1 {
                assert(np.children@[a] == sib);
            } else if a < ci {
                assert(np.children@[a] == po.children@[a]);
            } else {
                assert(np.children@[a] == po.children@[a - 1]);
            }
        }
        assert forall|a: int| 0 <= a <= np.n implies ids_ok(
            n2,
            #[trigger] (np.children@[a] as int),
            h1,
        ) by {
            if a == ci {
                assert(np.children@[a] == child);
            } else if a == ci + 1 {
                assert(np.children@[a] == sib);
            } else if a < ci {
                assert(np.children@[a] == po.children@[a]);
            } else {
                assert(np.children@[a] == po.children@[a - 1]);
            }
        }
    }
    lemma_split_keys(o, n2, parent, child, sib, ci, h, t);
}

impl Btree {
    /// Splits the full child at `child_index` of the parent node: a new
    /// sibling takes the child's upper `t - 1` keys, the child keeps its
    /// lower `t - 1`, and the median rises into the parent, whose key
    /// count grows by one.  The parent's subtree keeps exactly its keys
    /// and gains only the sibling's slot.
    pub(crate) fn split_child(
        &mut self,
        parent_id: usize,
        child_index: usize,
        Ghost(h): Ghost<nat>,
        Ghost(lo): Ghost<int>,
        Ghost(hi): Ghost<int>,
    )
        requires
            2 <= old(self).t <= usize::MAX / 4,
            node_inv(old(self).arena.nodes@, parent_id as int, h, old(self).t as int, lo, hi, true),
            ids_ok(old(self).arena.nodes@, parent_id as int, h),
            free_ok(*old(self), parent_id as int, h),
            h >= 1,
            child_index as int <= old(self).arena.nodes@[parent_id as int].n,
            old(self).arena.nodes@[parent_id as int].n < 2 * old(self).t - 1,
            old(self).arena.nodes@[old(self).arena.nodes@[parent_id as int].children@[child_index as int] as int].n
                == 2 * old(self).t - 1,
        ensures
            final(self).t == old(self).t,
            final(self).root_id == old(self).root_id,
            final(self).height == old(self).height,
            node_inv(final(self).arena.nodes@, parent_id as int, h, old(self).t as int, lo, hi, true),
            ids_ok(final(self).arena.nodes@, parent_id as int, h),
            free_ok(*final(self), parent_id as int, h),
            final(self).arena.nodes@[parent_id as int].n == old(
                self,
            ).arena.nodes@[parent_id as int].n + 1,
            subtree_keys_full(final(self).arena.nodes@, parent_id as int, h) == subtree_keys_full(
                old(self).arena.nodes@,
                parent_id as int,
                h,
            ),
            mutation_frame(*old(self), *final(self), parent_id as int, h),
            forall|j: int|
                0 <= j < child_index as int ==> final(self).arena.nodes@[parent_id as int].keys@[j]
                    == #[trigger] old(self).arena.nodes@[parent_id as int].keys@[j],
            forall|j: int|
                (child_index as int) < j <= old(self).arena.nodes@[parent_id as int].n
                    ==> final(self).arena.nodes@[parent_id as int].keys@[j] == #[trigger] old(
                    self,
                ).arena.nodes@[parent_id as int].keys@[j - 1],
            final(self).arena.nodes@[final(self).arena.nodes@[parent_id as int].children@[child_index as int] as int].n
                == old(self).t - 1,
            final(self).arena.nodes@[final(self).arena.nodes@[parent_id as int].children@[child_index as int + 1] as int].n
                == old(self).t - 1,
    {
        let ghost o = old(self).arena.nodes@;
        let ghost free0 = old(self).arena.free_list@;
        let t: usize = self.t;
        let parent_n: usize = self.arena.nodes[parent_id].n;
        let child_id: usize = self.arena.nodes[parent_id].children[child_index];
        proof {
            assert(node_inv(
                o,
                child_id as int,
                (h - 1) as nat,
                t as int,
                child_lo(o[parent_id as int], child_index as int, lo),
                child_hi(o[parent_id as int], child_index as int, hi),
                false,
            ));
            lemma_ids_bounded(
                o,
                parent_id as int,
                h,
                t as int,
                lo,
                hi,
                true,
                o[parent_id as int].n + 1,
            );
            lemma_ids_base(o, parent_id as int, h, o[parent_id as int].n + 1);
            lemma_ids_child_sub(o, parent_id as int, h, child_index as int);
            lemma_ids_base(o, child_id as int, (h - 1) as nat, o[child_id as int].n + 1);
            assert(subtree_ids_full(o, parent_id as int, h).contains(parent_id as int));
            assert(subtree_ids_full(o, child_id as int, (h - 1) as nat).contains(child_id as int));
            assert(subtree_ids_full(o, parent_id as int, h).contains(child_id as int));
        }
        let is_leaf: bool = self.arena.nodes[child_id].is_leaf;
        let median: u64 = self.arena.nodes[child_id].keys[t - 1];
        proof {
            assert(forall|i: int|
                0 <= i < free0.len() ==> (#[trigger] (free0[i] as int)) < o.len());
        }
        let sib: usize = self.arena.allocate_node(t);
        let ghost na = self.arena.nodes@;
        let ghost fa = self.arena.free_list@;
        proof {
            if free0.len() > 0 {
                assert(free0[free0.len() - 1] == sib);
                assert(free_set(free0).contains(sib as int));
            }
            assert(!subtree_ids_full(o, parent_id as int, h).contains(sib as int));
            assert(is_empty_node(na[sib as int], t as int));
            assert(sib != parent_id && sib as int != child_id as int);
            assert(forall|j: int| 0 <= j < o.len() && j != sib ==> na[j] == #[trigger] o[j]);
            assert(fa.is_prefix_of(free0)) by {
                if free0.len() > 0 {
                    assert(fa =~= free0.subrange(0, free0.len() - 1));
                }
            }
        }
        // Move the upper keys of the child into the sibling.
        let mut i: usize = 0;
        while i < t - 1
            invariant
                i <= t - 1,
                2 <= t <= usize::MAX / 4,
                t == self.t,
                self.t == old(self).t,
                self.root_id == old(self).root_id,
                self.height == old(self).height,
                self.arena.free_list@ == fa,
                self.arena.nodes@.len() == na.len(),
                sib < na.len(),
                child_id < o.len(),
                sib != child_id && sib != parent_id,
                o.len() <= na.len(),
                self.arena.nodes@[child_id as int] == o[child_id as int],
                o[child_id as int].keys@.len() == 2 * t - 1,
                forall|j: int| 0 <= j < na.len() && j != sib ==> self.arena.nodes@[j] == #[trigger] na[j],
                self.arena.nodes@[sib as int].n == 0,
                self.arena.nodes@[sib as int].is_leaf,
                self.arena.nodes@[sib as int].keys@.len() == 2 * t - 1,
                self.arena.nodes@[sib as int].children@ == na[sib as int].children@,
                forall|j: int|
                    0 <= j < i ==> #[trigger] self.arena.nodes@[sib as int].keys@[j]
                        == o[child_id as int].keys@[j + t],
            decreases t - 1 - i,
        {
            let kv: u64 = self.arena.nodes[child_id].keys[i + t];
            self.arena.set_key(sib, i, kv);
            i = i + 1;
        }
        // Move the upper children of the child into the sibling.
        if !is_leaf {
            let mut i: usize = 0;
            while i < t
                invariant
                    i <= t,
                    2 <= t <= usize::MAX / 4,
                    t == self.t,
                    self.t == old(self).t,
                    self.root_id == old(self).root_id,
                    self.height == old(self).height,
                    self.arena.free_list@ == fa,
                    self.arena.nodes@.len() == na.len(),
                    sib < na.len(),
                    child_id < o.len(),
                    sib != child_id && sib != parent_id,
                    o.len() <= na.len(),
                    self.arena.nodes@[child_id as int] == o[child_id as int],
                    o[child_id as int].keys@.len() == 2 * t - 1,
                    o[child_id as int].children@.len() == 2 * t,
                    forall|j: int|
                        0 <= j < na.len() && j != sib ==> self.arena.nodes@[j] == #[trigger] na[j],
                    self.arena.nodes@[sib as int].n == 0,
                    self.arena.nodes@[sib as int].is_leaf,
                    self.arena.nodes@[sib as int].keys@.len() == 2 * t - 1,
                    self.arena.nodes@[sib as int].children@.len() == 2 * t,
                    forall|j: int|
                        0 <= j < t - 1 ==> #[trigger] self.arena.nodes@[sib as int].keys@[j]
                            == o[child_id as int].keys@[j + t],
                    forall|j: int|
                        0 <= j < i ==> #[trigger] self.arena.nodes@[sib as int].children@[j]
                            == o[child_id as int].children@[j + t],
                decreases t - i,
            {
                let cv: usize = self.arena.nodes[child_id].children[i + t];
                self.arena.set_child(sib, i, cv);
                i = i + 1;
            }
        }
        self.arena.set_leaf(sib, is_leaf);
        self.arena.set_n(sib, t - 1);
        self.arena.set_n(child_id, t - 1);
        let ghost nb = self.arena.nodes@;
        // Make room in the parent for the sibling and the median.
        let mut i: usize = parent_n;
        while i > child_index
            invariant
                child_index <= i <= parent_n,
                2 <= t <= usize::MAX / 4,
                t == self.t,
                self.t == old(self).t,
                self.root_id == old(self).root_id,
                self.height == old(self).height,
                self.arena.free_list@ == fa,
                self.arena.nodes@.len() == nb.len(),
                parent_id < nb.len(),
                parent_n == o[parent_id as int].n < 2 * t - 1,
                o[parent_id as int].keys@.len() == 2 * t - 1,
                o[parent_id as int].children@.len() == 2 * t,
                nb[parent_id as int] == o[parent_id as int],
                forall|j: int|
                    0 <= j < nb.len() && j != parent_id ==> self.arena.nodes@[j]
                        == #[trigger] nb[j],
                self.arena.nodes@[parent_id as int].n == o[parent_id as int].n,
                self.arena.nodes@[parent_id as int].is_leaf == o[parent_id as int].is_leaf,
                self.arena.nodes@[parent_id as int].keys@ == o[parent_id as int].keys@,
                self.arena.nodes@[parent_id as int].children@.len() == 2 * t,
                forall|j: int|
                    0 <= j <= i ==> #[trigger] self.arena.nodes@[parent_id as int].children@[j]
                        == o[parent_id as int].children@[j],
                forall|j: int|
                    i + 1 < j <= parent_n + 1
                        ==> #[trigger] self.arena.nodes@[parent_id as int].children@[j]
                        == o[parent_id as int].children@[j - 1],
            decreases i,
        {
            let cv: usize = self.arena.nodes[parent_id].children[i];
            self.arena.set_child(parent_id, i + 1, cv);
            i = i - 1;
        }
        self.arena.set_child(parent_id, child_index + 1, sib);
        let mut i: usize = parent_n;
        while i > child_index
            invariant
                child_index <= i <= parent_n,
                2 <= t <= usize::MAX / 4,
                t == self.t,
                self.t == old(self).t,
                self.root_id == old(self).root_id,
                self.height == old(self).height,
                self.arena.free_list@ == fa,
                self.arena.nodes@.len() == nb.len(),
                parent_id < nb.len(),
                parent_n == o[parent_id as int].n < 2 * t - 1,
                o[parent_id as int].keys@.len() == 2 * t - 1,
                o[parent_id as int].children@.len() == 2 * t,
                nb[parent_id as int] == o[parent_id as int],
                forall|j: int|
                    0 <= j < nb.len() && j != parent_id ==> self.arena.nodes@[j]
                        == #[trigger] nb[j],
                self.arena.nodes@[parent_id as int].n == o[parent_id as int].n,
                self.arena.nodes@[parent_id as int].is_leaf == o[parent_id as int].is_leaf,
                self.arena.nodes@[parent_id as int].keys@.len() == 2 * t - 1,
                self.arena.nodes@[parent_id as int].children@.len() == 2 * t,
                forall|j: int|
                    0 <= j < i ==> #[trigger] self.arena.nodes@[parent_id as int].keys@[j]
                        == o[parent_id as int].keys@[j],
                forall|j: int|
                    i < j <= parent_n ==> #[trigger] self.arena.nodes@[parent_id as int].keys@[j]
                        == o[parent_id as int].keys@[j - 1],
                forall|j: int|
                    0 <= j <= child_index
                        ==> #[trigger] self.arena.nodes@[parent_id as int].children@[j]
                        == o[parent_id as int].children@[j],
                self.arena.nodes@[parent_id as int].children@[child_index + 1] == sib,
                forall|j: int|
                    child_index + 1 < j <= parent_n + 1
                        ==> #[trigger] self.arena.nodes@[parent_id as int].children@[j]
                        == o[parent_id as int].children@[j - 1],
            decreases i,
        {
            let kv: u64 = self.arena.nodes[parent_id].keys[i - 1];
            self.arena.set_key(parent_id, i, kv);
            i = i - 1;
        }
        self.arena.set_key(parent_id, child_index, median);
        self.arena.set_n(parent_id, parent_n + 1);
        proof {
            let n2 = self.arena.nodes@;
            lemma_split(
                o,
                n2,
                parent_id as int,
                child_id as int,
                sib as int,
                child_index as int,
                h,
                t as int,
                lo,
                hi,
            );
            // Free-list discipline afterwards.
            assert forall|ii: int| 0 <= ii < fa.len() implies {
                &&& 0 <= #[trigger] (fa[ii] as int) < n2.len()
                &&& is_empty_node(n2[fa[ii] as int], t as int)
                &&& !subtree_ids_full(n2, parent_id as int, h).contains(fa[ii] as int)
            } by {
                assert(free0.contains(fa[ii]));
                let oi = choose|oi: int| 0 <= oi < free0.len() && free0[oi] == fa[ii];
                assert(0 <= (fa[ii] as int) < o.len());
                assert(is_empty_node(o[fa[ii] as int], t as int));
                assert(!subtree_ids_full(o, parent_id as int, h).contains(fa[ii] as int));
                if free0.len() > 0 && fa[ii] == free0[free0.len() - 1] {
                    assert(fa.no_duplicates());
                    assert(oi < fa.len() && fa[oi] == free0[oi]);
                    assert(false);
                }
                assert(fa[ii] as int != sib as int);
                assert(n2[fa[ii] as int] == o[fa[ii] as int]);
            }
            assert(free_ok(*self, parent_id as int, h));
            // Mutation footprint.
            assert forall|j: int|
                0 <= j < o.len() && !subtree_ids_full(o, parent_id as int, h).contains(j) && (
                free_set(fa).contains(j) || !free_set(free0).contains(j)) implies n2[j]
                == #[trigger] o[j] by {
                if j == sib as int {
                    if free0.len() > 0 && sib == free0[free0.len() - 1] {
                        if free_set(fa).contains(j) {
                            let oi = choose|oi: int| 0 <= oi < fa.len() && fa[oi] == j;
                            assert(free0[oi] == fa[oi]);
                            assert(false);
                        }
                        assert(free_set(free0).contains(j));
                        assert(false);
                    }
                    assert(false);
                }
            }
            assert forall|j: int| #[trigger]
                subtree_ids_full(n2, parent_id as int, h).contains(j) implies (subtree_ids_full(
                o,
                parent_id as int,
                h,
            ).contains(j) || free_set(free0).contains(j) || j >= o.len()) by {
                if j == sib as int && free0.len() > 0 {
                    assert(free_set(free0).contains(sib as int));
                }
            }
            assert forall|j: int| #[trigger]
                subtree_ids_full(n2, parent_id as int, h).contains(j) implies !free_set(
                fa,
            ).contains(j) by {
                if free_set(fa).contains(j) {
                    let oi = choose|oi: int| 0 <= oi < fa.len() && fa[oi] == j;
                    assert(free0[oi] == fa[oi]);
                    assert(!subtree_ids_full(o, parent_id as int, h).contains(j));
                    if free0.len() > 0 && j == free0[free0.len() - 1] as int {
                        assert(fa.no_duplicates());
                        assert(false);
                    }
                    assert(j != sib as int);
                    assert(false);
                }
            }
            assert(mutation_frame(*old(self), *self, parent_id as int, h));
        }
    }

    /// Inserts `key` into the subtree rooted at the non-full node at
    /// `node_id`, preserving the subtree's invariant and its bounds and
    /// adding exactly `key` to its key set.
    pub(crate) fn recursive_insert(
        &mut self,
        node_id: usize,
        key: u64,
        Ghost(h): Ghost<nat>,
        Ghost(lo): Ghost<int>,
        Ghost(hi): Ghost<int>,
    )
        requires
            2 <= old(self).t <= usize::MAX / 4,
            node_inv(old(self).arena.nodes@, node_id as int, h, old(self).t as int, lo, hi, true),
            ids_ok(old(self).arena.nodes@, node_id as int, h),
            free_ok(*old(self), node_id as int, h),
            old(self).arena.nodes@[node_id as int].n < 2 * old(self).t - 1,
            lo < key < hi,
        ensures
            final(self).t == old(self).t,
            final(self).root_id == old(self).root_id,
            final(self).height == old(self).height,
            node_inv(final(self).arena.nodes@, node_id as int, h, old(self).t as int, lo, hi, true),
            ids_ok(final(self).arena.nodes@, node_id as int, h),
            free_ok(*final(self), node_id as int, h),
            final(self).arena.nodes@[node_id as int].n
                >= old(self).arena.nodes@[node_id as int].n,
            final(self).arena.nodes@[node_id as int].n <= old(
                self,
            ).arena.nodes@[node_id as int].n + 1,
            (h > 0 && (forall|i: int|
                0 <= i <= old(self).arena.nodes@[node_id as int].n
                    ==> old(self).arena.nodes@[#[trigger] (old(
                    self,
                ).arena.nodes@[node_id as int].children@[i] as int)].n < 2 * old(self).t - 1))
                ==> final(self).arena.nodes@[node_id as int].n == old(
                self,
            ).arena.nodes@[node_id as int].n,
            subtree_keys_full(final(self).arena.nodes@, node_id as int, h) == subtree_keys_full(
                old(self).arena.nodes@,
                node_id as int,
                h,
            ).insert(key),
            mutation_frame(*old(self), *final(self), node_id as int, h),
        decreases h, 1nat,
    {
        let ghost o = old(self).arena.nodes@;
        let ghost f0 = old(self).arena.free_list@;
        if self.arena.nodes[node_id].is_leaf {
            self.insert_into_leaf_node(node_id, key, Ghost(lo), Ghost(hi));
            proof {
                let n2 = self.arena.nodes@;
                assert(h == 0);
                assert(subtree_ids_full(o, node_id as int, 0) == Set::<int>::empty().insert(
                    node_id as int,
                ));
                assert(subtree_ids_full(n2, node_id as int, 0) == Set::<int>::empty().insert(
                    node_id as int,
                ));
                assert(!free_set(f0).contains(node_id as int)) by {
                    if free_set(f0).contains(node_id as int) {
                        let i = choose|i: int| 0 <= i < f0.len() && f0[i] == node_id;
                        assert(!subtree_ids_full(o, node_id as int, 0).contains(f0[i] as int));
                        assert(false);
                    }
                }
                assert(f0.is_prefix_of(f0)) by {
                    assert(f0 =~= f0.subrange(0, f0.len() as int));
                }
                assert(mutation_frame(*old(self), *self, node_id as int, h));
                assert(free_ok(*self, node_id as int, h)) by {
                    assert forall|i: int| 0 <= i < f0.len() implies {
                        &&& 0 <= #[trigger] (f0[i] as int) < n2.len()
                        &&& is_empty_node(n2[f0[i] as int], old(self).t as int)
                        &&& !subtree_ids_full(n2, node_id as int, h).contains(f0[i] as int)
                    } by {
                        assert(f0[i] as int != node_id as int);
                        assert(n2[f0[i] as int] == o[f0[i] as int]);
                    }
                }
            }
        } else {
            self.insert_into_internal_node(node_id, key, Ghost(h), Ghost(lo), Ghost(hi));
        }
    }

    /// Inserts `key` under the internal node at `node_id`: finds the one
    /// child whose range admits the key, splits it first if it is full,
    /// and descends.  A key equal to one of the node's own keys (or to a
    /// freshly risen median) is already present and is left alone.
    pub(crate) fn insert_into_internal_node(
        &mut self,
        node_id: usize,
        key: u64,
        Ghost(h): Ghost<nat>,
        Ghost(lo): Ghost<int>,
        Ghost(hi): Ghost<int>,
    )
        requires
            2 <= old(self).t <= usize::MAX / 4,
            node_inv(old(self).arena.nodes@, node_id as int, h, old(self).t as int, lo, hi, true),
            ids_ok(old(self).arena.nodes@, node_id as int, h),
            free_ok(*old(self), node_id as int, h),
            old(self).arena.nodes@[node_id as int].n < 2 * old(self).t - 1,
            lo < key < hi,
            h >= 1,
        ensures
            final(self).t == old(self).t,
            final(self).root_id == old(self).root_id,
            final(self).height == old(self).height,
            node_inv(final(self).arena.nodes@, node_id as int, h, old(self).t as int, lo, hi, true),
            ids_ok(final(self).arena.nodes@, node_id as int, h),
            free_ok(*final(self), node_id as int, h),
            final(self).arena.nodes@[node_id as int].n
                >= old(self).arena.nodes@[node_id as int].n,
            final(self).arena.nodes@[node_id as int].n <= old(
                self,
            ).arena.nodes@[node_id as int].n + 1,
            (h > 0 && (forall|i: int|
                0 <= i <= old(self).arena.nodes@[node_id as int].n
                    ==> old(self).arena.nodes@[#[trigger] (old(
                    self,
                ).arena.nodes@[node_id as int].children@[i] as int)].n < 2 * old(self).t - 1))
                ==> final(self).arena.nodes@[node_id as int].n == old(
                self,
            ).arena.nodes@[node_id as int].n,
            subtree_keys_full(final(self).arena.nodes@, node_id as int, h) == subtree_keys_full(
                old(self).arena.nodes@,
                node_id as int,
                h,
            ).insert(key),
            mutation_frame(*old(self), *final(self), node_id as int, h),
        decreases h, 0nat,
    {
        let ghost o = old(self).arena.nodes@;
        let ghost f0 = old(self).arena.free_list@;
        let t: usize = self.t;
        let n: usize = self.arena.nodes[node_id].n;
        let mut pos: usize = 0;
        while pos < n && key > self.arena.nodes[node_id].keys[pos]
            invariant
                pos <= n,
                *self == *old(self),
                node_id < self.arena.nodes@.len(),
                n == self.arena.nodes@[node_id as int].n,
                n < self.arena.nodes@[node_id as int].keys@.len(),
                forall|j: int|
                    0 <= j < pos ==> #[trigger] self.arena.nodes@[node_id as int].keys@[j] < key,
            decreases n - pos,
        {
            pos = pos + 1;
        }
        if pos < n && self.arena.nodes[node_id].keys[pos] == key {
            proof {
                assert(node_keys(o[node_id as int]).contains(key));
                lemma_subtree_decompose(o, node_id as int, h, o[node_id as int].n + 1, key);
                assert(subtree_keys_full(o, node_id as int, h) == subtree_keys_upto(
                    o,
                    node_id as int,
                    h,
                    o[node_id as int].n + 1,
                ));
                assert(subtree_keys_full(o, node_id as int, h).contains(key));
                assert(subtree_keys_full(o, node_id as int, h).insert(key) =~= subtree_keys_full(
                    o,
                    node_id as int,
                    h,
                ));
                assert(f0.is_prefix_of(f0)) by {
                    assert(f0 =~= f0.subrange(0, f0.len() as int));
                }
                assert forall|j: int| #[trigger]
                    subtree_ids_full(o, node_id as int, h).contains(j) implies !free_set(
                    f0,
                ).contains(j) by {
                    if free_set(f0).contains(j) {
                        let i = choose|i: int| 0 <= i < f0.len() && f0[i] == j;
                        assert(false);
                    }
                }
                assert(mutation_frame(*old(self), *self, node_id as int, h));
            }
            return ;
        }
        let child_id: usize = self.arena.nodes[node_id].children[pos];
        proof {
            assert(node_inv(
                o,
                child_id as int,
                (h - 1) as nat,
                t as int,
                child_lo(o[node_id as int], pos as int, lo),
                child_hi(o[node_id as int], pos as int, hi),
                false,
            ));
        }
        if self.arena.nodes[child_id].n == 2 * t - 1 {
            self.split_child(node_id, pos, Ghost(h), Ghost(lo), Ghost(hi));
        }
        let ghost mid = *self;
        let ghost om = self.arena.nodes@;
        let ghost fm = self.arena.free_list@;
        proof {
            if o == om {
                assert(f0 =~= fm);
                assert(f0.is_prefix_of(f0)) by {
                    assert(f0 =~= f0.subrange(0, f0.len() as int));
                }
                assert forall|j: int| #[trigger]
                    subtree_ids_full(o, node_id as int, h).contains(j) implies !free_set(
                    f0,
                ).contains(j) by {
                    if free_set(f0).contains(j) {
                        let i = choose|i: int| 0 <= i < f0.len() && f0[i] == j;
                        assert(false);
                    }
                }
                assert(mutation_frame(*old(self), mid, node_id as int, h));
            }
        }
        let nn: usize = self.arena.nodes[node_id].n;
        let mut pos2: usize = 0;
        while pos2 < nn && key > self.arena.nodes[node_id].keys[pos2]
            invariant
                pos2 <= nn,
                *self == mid,
                node_id < self.arena.nodes@.len(),
                nn == self.arena.nodes@[node_id as int].n,
                nn <= self.arena.nodes@[node_id as int].keys@.len(),
                forall|j: int|
                    0 <= j < pos2 ==> #[trigger] self.arena.nodes@[node_id as int].keys@[j] < key,
            decreases nn - pos2,
        {
            pos2 = pos2 + 1;
        }
        if pos2 < nn && self.arena.nodes[node_id].keys[pos2] == key {
            proof {
                assert(node_keys(om[node_id as int]).contains(key));
                lemma_subtree_decompose(om, node_id as int, h, om[node_id as int].n + 1, key);
                assert(subtree_keys_full(om, node_id as int, h) == subtree_keys_upto(
                    om,
                    node_id as int,
                    h,
                    om[node_id as int].n + 1,
                ));
                assert(subtree_keys_full(om, node_id as int, h).contains(key));
                assert(subtree_keys_full(o, node_id as int, h).insert(key) =~= subtree_keys_full(
                    o,
                    node_id as int,
                    h,
                ));
                assert(fm.is_prefix_of(fm)) by {
                    assert(fm =~= fm.subrange(0, fm.len() as int));
                }
                assert forall|j: int| #[trigger]
                    subtree_ids_full(om, node_id as int, h).contains(j) implies !free_set(
                    fm,
                ).contains(j) by {
                    if free_set(fm).contains(j) {
                        let i = choose|i: int| 0 <= i < fm.len() && fm[i] == j;
                        assert(false);
                    }
                }
                assert(mutation_frame(mid, *self, node_id as int, h));
                lemma_frame_trans(*old(self), mid, *self, node_id as int, h);
            }
            return ;
        }
        proof {
            // The rescan lands on the same child, or on one of the two
            // halves of the split child; either way it is not full.
            if o == om {
                if pos2 < pos {
                    assert(om[node_id as int].keys@[pos2 as int] < key);
                    assert(false);
                }
                if pos2 > pos {
                    assert(o[node_id as int].keys@[pos as int] >= key);
                    assert(om[node_id as int].keys@[pos as int] < key);
                    assert(false);
                }
            } else {
                assert(pos2 >= pos) by {
                    if pos2 < pos {
                        let p2 = pos2 as int;
                        assert(om[node_id as int].keys@[p2] == o[node_id as int].keys@[p2]);
                        assert(false);
                    }
                }
                assert(pos2 <= pos + 1) by {
                    if pos2 > pos + 1 {
                        let p = pos as int;
                        assert(om[node_id as int].keys@[p + 1] == o[node_id as int].keys@[p]);
                        assert(om[node_id as int].keys@[p + 1] < key);
                        assert(o[node_id as int].keys@[p] >= key);
                        assert(false);
                    }
                }
            }
            assert(om[om[node_id as int].children@[pos2 as int] as int].n < 2 * t - 1);
            assert(node_inv(
                om,
                om[node_id as int].children@[pos2 as int] as int,
                (h - 1) as nat,
                t as int,
                child_lo(om[node_id as int], pos2 as int, lo),
                child_hi(om[node_id as int], pos2 as int, hi),
                false,
            ));
            assert(ids_ok(om, om[node_id as int].children@[pos2 as int] as int, (h - 1) as nat));
            lemma_ids_child_sub(om, node_id as int, h, pos2 as int);
            assert forall|i: int| 0 <= i < fm.len() implies {
                &&& 0 <= #[trigger] (fm[i] as int) < om.len()
                &&& is_empty_node(om[fm[i] as int], t as int)
                &&& !subtree_ids_full(
                    om,
                    om[node_id as int].children@[pos2 as int] as int,
                    (h - 1) as nat,
                ).contains(fm[i] as int)
            } by {
                if subtree_ids_full(
                    om,
                    om[node_id as int].children@[pos2 as int] as int,
                    (h - 1) as nat,
                ).contains(fm[i] as int) {
                    assert(subtree_ids_full(om, node_id as int, h).contains(fm[i] as int));
                    assert(false);
                }
            }
        }
        let child2: usize = self.arena.nodes[node_id].children[pos2];
        self.recursive_insert(
            child2,
            key,
            Ghost((h - 1) as nat),
            Ghost(child_lo(om[node_id as int], pos2 as int, lo)),
            Ghost(child_hi(om[node_id as int], pos2 as int, hi)),
        );
        proof {
            let n2 = self.arena.nodes@;
            let f2 = self.arena.free_list@;
            assert(f2.no_duplicates()) by {
                assert(forall|i: int| 0 <= i < f2.len() ==> f2[i] == fm[i]);
            }
            lemma_descend(
                om,
                n2,
                fm,
                f2,
                node_id as int,
                pos2 as int,
                key,
                h,
                t as int,
                lo,
                hi,
            );
            assert(mutation_frame(mid, *self, node_id as int, h));
            lemma_frame_trans(*old(self), mid, *self, node_id as int, h);
            assert(subtree_keys_full(n2, node_id as int, h) == subtree_keys_full(
                o,
                node_id as int,
                h,
            ).insert(key));
            assert(free_ok(*self, node_id as int, h)) by {
                assert forall|i: int| 0 <= i < f2.len() implies {
                    &&& 0 <= #[trigger] (f2[i] as int) < n2.len()
                    &&& is_empty_node(n2[f2[i] as int], t as int)
                    &&& !subtree_ids_full(n2, node_id as int, h).contains(f2[i] as int)
                } by {
                    assert(f2[i] == fm[i]);
                    assert(free_set(f2).contains(f2[i] as int));
                    assert(!subtree_ids_full(
                        om,
                        om[node_id as int].children@[pos2 as int] as int,
                        (h - 1) as nat,
                    ).contains(fm[i] as int));
                    assert(n2[f2[i] as int] == om[f2[i] as int]);
                }
            }
        }
    }

    /// Inserts `key` into the tree.  If the root is full a new root is
    /// allocated above it first and the old root split under it (the one
    /// place the tree grows in height).  A key already present leaves
    /// the tree's key set unchanged.
    pub fn insert(&mut self, key: u64)
        requires
            old(self).wf(),
        ensures
            final(self).wf(),
            final(self).t == old(self).t,
            final(self).key_set() == old(self).key_set().insert(key),
            final(self).height@ == old(self).height@ || final(self).height@ == old(self).height@
                + 1,
            (final(self).height@ == old(self).height@ + 1) <==> old(
                self,
            ).arena.nodes@[old(self).root_id as int].n == 2 * old(self).t - 1,
            final(self).height@ == old(self).height@ + 1 ==> {
                &&& !final(self).arena.nodes@[final(self).root_id as int].is_leaf
                &&& final(self).arena.nodes@[final(self).root_id as int].n == 1
            },
    {
        let t: usize = self.t;
        let ghost h0 = self.height@;
        let ghost o = self.arena.nodes@;
        let ghost f0 = self.arena.free_list@;
        let root: usize = self.root_id;
        if self.arena.nodes[root].n == 2 * t - 1 {
            proof {
                lemma_ids_bounded(o, root as int, h0, t as int, -1, key_sup(), true, o[root as int].n + 1);
                lemma_ids_base(o, root as int, h0, o[root as int].n + 1);
                assert(subtree_ids_full(o, root as int, h0).contains(root as int));
            }
            proof {
                assert(forall|i: int|
                    0 <= i < f0.len() ==> (#[trigger] (f0[i] as int)) < o.len());
            }
            let new_root: usize = self.arena.allocate_node(t);
            proof {
                if f0.len() > 0 {
                    assert(f0[f0.len() - 1] == new_root);
                }
                assert(!subtree_ids_full(o, root as int, h0).contains(new_root as int));
                assert(new_root != root);
            }
            self.arena.set_leaf(new_root, false);
            self.arena.set_child(new_root, 0, root);
            self.root_id = new_root;
            self.height = Ghost((h0 + 1) as nat);
            let ghost na = self.arena.nodes@;
            let ghost fa = self.arena.free_list@;
            proof {
                let h1 = (h0 + 1) as nat;
                assert(forall|j: int|
                    0 <= j < o.len() && j != new_root ==> na[j] == #[trigger] o[j]);
                assert forall|x: int| #[trigger]
                    subtree_ids_full(o, root as int, h0).contains(x) implies na[x] == o[x] by {
                    assert(x != new_root as int);
                }
                lemma_frame(o, na, root as int, h0, t as int, -1, key_sup(), true);
                assert(node_inv(na, root as int, h0, t as int, -1, key_sup(), false));
                assert(na[new_root as int].n == 0);
                assert(child_lo(na[new_root as int], 0, -1) == -1);
                assert(child_hi(na[new_root as int], 0, key_sup()) == key_sup());
                assert(node_inv(na, new_root as int, h1, t as int, -1, key_sup(), true));
                // Sets of the new root's subtree.
                assert(subtree_ids_full(na, new_root as int, h1) == subtree_ids_upto(
                    na,
                    new_root as int,
                    h1,
                    1,
                ));
                assert(subtree_ids_upto(na, new_root as int, h1, 0) == Set::<int>::empty().insert(
                    new_root as int,
                ));
                assert(subtree_ids_full(na, new_root as int, h1) == Set::<int>::empty().insert(
                    new_root as int,
                ) + subtree_ids_full(na, root as int, h0));
                assert(subtree_keys_full(na, new_root as int, h1) == subtree_keys_upto(
                    na,
                    new_root as int,
                    h1,
                    1,
                ));
                assert(subtree_keys_upto(na, new_root as int, h1, 0) == node_keys(
                    na[new_root as int],
                ));
                assert forall|k: u64| !#[trigger] node_keys(na[new_root as int]).contains(k) by {
                    if node_keys(na[new_root as int]).contains(k) {
                        let i = choose|i: int|
                            0 <= i < na[new_root as int].n && na[new_root as int].keys@[i] == k;
                        assert(false);
                    }
                }
                assert(subtree_keys_full(na, new_root as int, h1) =~= subtree_keys_full(
                    na,
                    root as int,
                    h0,
                ));
                assert(ids_ok(na, new_root as int, h1)) by {
                    assert forall|i: int| 0 <= i <= na[new_root as int].n implies !subtree_ids_full(
                        na,
                        #[trigger] (na[new_root as int].children@[i] as int),
                        h0,
                    ).contains(new_root as int) by {
                        assert(na[new_root as int].children@[i] == root);
                    }
                    assert forall|i: int| 0 <= i <= na[new_root as int].n implies ids_ok(
                        na,
                        #[trigger] (na[new_root as int].children@[i] as int),
                        h0,
                    ) by {
                        assert(na[new_root as int].children@[i] == root);
                    }
                }
                assert(free_ok(*self, new_root as int, h1)) by {
                    assert forall|i: int| 0 <= i < fa.len() implies {
                        &&& 0 <= #[trigger] (fa[i] as int) < na.len()
                        &&& is_empty_node(na[fa[i] as int], t as int)
                        &&& !subtree_ids_full(na, new_root as int, h1).contains(fa[i] as int)
                    } by {
                        assert(free_set(f0).contains(fa[i] as int)) by {
                            assert(f0.len() > 0 ==> fa =~= f0.subrange(0, f0.len() - 1));
                            assert(fa[i] == f0[i]);
                        }
                        let oi = choose|oi: int| 0 <= oi < f0.len() && f0[oi] == fa[i];
                        assert(!subtree_ids_full(o, root as int, h0).contains(f0[oi] as int));
                        if f0.len() > 0 && fa[i] == f0[f0.len() - 1] {
                            assert(fa[i] == new_root);
                            assert(fa.no_duplicates()) by {
                                assert(fa =~= f0.subrange(0, f0.len() - 1));
                            }
                            assert(oi < fa.len() && fa[oi] == f0[oi]);
                            assert(false);
                        }
                        assert(fa[i] != new_root);
                        assert(na[fa[i] as int] == o[fa[i] as int]);
                    }
                }
            }
            self.split_child(new_root, 0, Ghost((h0 + 1) as nat), Ghost(-1), Ghost(key_sup()));
            let ghost ms = self.arena.nodes@;
            proof {
                // Both halves of the split root hold t - 1 keys, so the
                // descent cannot split again and the new root keeps its
                // single separator.
                assert(ms[new_root as int].n == 1);
                assert forall|i: int| 0 <= i <= ms[new_root as int].n implies ms[#[trigger] (
                ms[new_root as int].children@[i] as int)].n < 2 * t - 1 by {
                    if i == 0 {
                        assert(ms[ms[new_root as int].children@[0] as int].n == t - 1);
                    } else {
                        assert(ms[ms[new_root as int].children@[1] as int].n == t - 1);
                    }
                }
            }
            self.recursive_insert(new_root, key, Ghost((h0 + 1) as nat), Ghost(-1), Ghost(key_sup()));
            proof {
                assert(self.root_id == new_root);
                assert(self.height@ == h0 + 1);
                assert(self.arena.nodes@[new_root as int].n == 1);
                assert(!self.arena.nodes@[new_root as int].is_leaf);
            }
        } else {
            self.recursive_insert(root, key, Ghost(h0), Ghost(-1), Ghost(key_sup()));
        }
    }

    /// Inserts `key` into the leaf at `node_id` by shifting the tail of
    /// the key array one place right; a key already present is left in
    /// place.  The leaf must have room for one more key.
    pub(crate) fn insert_into_leaf_node(
        &mut self,
        node_id: usize,
        key: u64,
        Ghost(lo): Ghost<int>,
        Ghost(hi): Ghost<int>,
    )
        requires
            2 <= old(self).t <= usize::MAX / 4,
            node_inv(old(self).arena.nodes@, node_id as int, 0, old(self).t as int, lo, hi, true),
            old(self).arena.nodes@[node_id as int].n < 2 * old(self).t - 1,
            lo < key < hi,
        ensures
            final(self).t == old(self).t,
            final(self).root_id == old(self).root_id,
            final(self).height == old(self).height,
            final(self).arena.free_list@ == old(self).arena.free_list@,
            final(self).arena.nodes@.len() == old(self).arena.nodes@.len(),
            forall|j: int|
                0 <= j < old(self).arena.nodes@.len() && j != node_id
                    ==> final(self).arena.nodes@[j] == old(self).arena.nodes@[j],
            node_inv(final(self).arena.nodes@, node_id as int, 0, old(self).t as int, lo, hi, true),
            final(self).arena.nodes@[node_id as int].n
                >= old(self).arena.nodes@[node_id as int].n,
            final(self).arena.nodes@[node_id as int].n <= old(
                self,
            ).arena.nodes@[node_id as int].n + 1,
            subtree_keys_full(final(self).arena.nodes@, node_id as int, 0) == subtree_keys_full(
                old(self).arena.nodes@,
                node_id as int,
                0,
            ).insert(key),
    {
        let ghost nd1 = self.arena.nodes@[node_id as int];
        let n: usize = self.arena.nodes[node_id].n;
        let mut pos: usize = 0;
        while pos < n && self.arena.nodes[node_id].keys[pos] < key
            invariant
                pos <= n,
                *self == *old(self),
                n == self.arena.nodes@[node_id as int].n,
                node_id < self.arena.nodes@.len(),
                n < self.arena.nodes@[node_id as int].keys@.len(),
                forall|j: int|
                    0 <= j < pos ==> #[trigger] self.arena.nodes@[node_id as int].keys@[j] < key,
            decreases n - pos,
        {
            pos = pos + 1;
        }
        if pos < n && self.arena.nodes[node_id].keys[pos] == key {
            proof {
                assert(node_keys(nd1).contains(key));
                assert(node_keys(nd1).insert(key) =~= node_keys(nd1));
            }
            return ;
        }
        let mut i: usize = n;
        while i > pos
            invariant
                pos <= i <= n,
                self.t == old(self).t,
                self.root_id == old(self).root_id,
                self.height == old(self).height,
                self.arena.free_list@ == old(self).arena.free_list@,
                self.arena.nodes@.len() == old(self).arena.nodes@.len(),
                forall|j: int|
                    0 <= j < old(self).arena.nodes@.len() && j != node_id ==> self.arena.nodes@[j]
                        == old(self).arena.nodes@[j],
                nd1 == old(self).arena.nodes@[node_id as int],
                node_id < self.arena.nodes@.len(),
                n == nd1.n < nd1.keys@.len(),
                self.arena.nodes@[node_id as int].n == nd1.n,
                self.arena.nodes@[node_id as int].is_leaf == nd1.is_leaf,
                self.arena.nodes@[node_id as int].children@ == nd1.children@,
                self.arena.nodes@[node_id as int].keys@.len() == nd1.keys@.len(),
                forall|j: int|
                    0 <= j <= i ==> #[trigger] self.arena.nodes@[node_id as int].keys@[j]
                        == nd1.keys@[j],
                forall|j: int|
                    i < j <= n ==> #[trigger] self.arena.nodes@[node_id as int].keys@[j]
                        == nd1.keys@[j - 1],
            decreases i,
        {
            let kv: u64 = self.arena.nodes[node_id].keys[i - 1];
            self.arena.set_key(node_id, i, kv);
            i = i - 1;
        }
        self.arena.set_key(node_id, pos, key);
        self.arena.set_n(node_id, n + 1);
        proof {
            let nd2 = self.arena.nodes@[node_id as int];
            lemma_node_keys_insert(nd1, nd2, pos as int, key);
            assert forall|a: int, b: int| 0 <= a < b < nd2.n implies #[trigger] nd2.keys@[a]
                < #[trigger] nd2.keys@[b] by {
                if b < pos {
                } else if b == pos {
                    assert(nd2.keys@[a] == nd1.keys@[a] && nd1.keys@[a] < key);
                } else if a == pos {
                    assert(nd2.keys@[b] == nd1.keys@[b - 1]);
                    assert(nd1.keys@[pos as int] <= nd1.keys@[b - 1]);
                } else if a < pos {
                    assert(nd2.keys@[a] == nd1.keys@[a]);
                    assert(nd2.keys@[b] == nd1.keys@[b - 1]);
                } else {
                    assert(nd2.keys@[a] == nd1.keys@[a - 1]);
                    assert(nd2.keys@[b] == nd1.keys@[b - 1]);
                }
            }
            assert forall|a: int| 0 <= a < nd2.n implies lo < #[trigger] (nd2.keys@[a] as int)
                < hi by {
                if a < pos {
                    assert(nd2.keys@[a] == nd1.keys@[a]);
                } else if a > pos {
                    assert(nd2.keys@[a] == nd1.keys@[a - 1]);
                }
            }
        }
    }
}

} // verus!
