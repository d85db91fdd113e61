//! B-tree deletion: proactive top-down underflow repair.
//!
//! Before descending into a child that holds only `t - 1` keys, the child
//! borrows a key from a richer sibling or is merged with one around the
//! parent's separator; a key found in an internal node is replaced by its
//! in-order predecessor or successor, or the two adjacent children are
//! merged around it.  After the top-level call an internal root left with
//! no keys is replaced by its only child (the one place height shrinks).

use vstd::prelude::*;
use crate::arena::BtreeNode;
use crate::arena::is_empty_node;
use crate::btree::Btree;
use crate::btree::child_hi;
use crate::btree::child_lo;
use crate::btree::deletion_frame;
use crate::btree::free_ok;
use crate::btree::free_set;
use crate::btree::ids_ok;
use crate::btree::key_sup;
use crate::btree::lemma_bounds_tighten;
use crate::btree::lemma_bounds_widen;
use crate::btree::lemma_deletion_frame_trans;
use crate::btree::lemma_frame;
use crate::btree::lemma_ids_base;
use crate::btree::lemma_ids_bounded;
use crate::btree::lemma_ids_child_sub;
use crate::btree::lemma_ids_decompose;
use crate::btree::lemma_node_keys_remove;
use crate::btree::lemma_subtree_bounded;
use crate::btree::lemma_subtree_decompose;
use crate::btree::node_inv;
use crate::btree::node_keys;
use crate::btree::subtree_ids_full;
use crate::btree::subtree_ids_upto;
use crate::btree::subtree_keys_full;
use crate::btree::subtree_keys_upto;
use crate::btree_insert::lemma_split_keys;

verus! {

/// Re-establishes the B-tree invariant after a merge: with the old arena
/// `o` and the new arena `n2` related as `merge_children` leaves them —
/// the separator at `idx` folded down between the keys of `left` and
/// `right`, the fused node kept in `left`'s slot, and `right`'s slot
/// reset — the parent's subtree satisfies the same invariant over the
/// same bounds, holds exactly the same keys, and has only shed `right`.
#[verifier::rlimit(100)]
proof fn lemma_merge(
    o: Seq<BtreeNode>,
    n2: Seq<BtreeNode>,
    parent: int,
    left: int,
    right: int,
    idx: int,
    h: nat,
    t: int,
    lo: int,
    hi: int,
)
    requires
        node_inv(o, parent, h, t, lo, hi, true),
        ids_ok(o, parent, h),
        h >= 1,
        0 <= idx < o[parent].n,
        left == o[parent].children@[idx] as int,
        right == o[parent].children@[idx + 1] as int,
        o[left].n == t - 1,
        o[right].n == t - 1,
        n2.len() == o.len(),
        forall|j: int|
            0 <= j < o.len() && j != parent && j != left && j != right ==> n2[j] == #[trigger] o[j],
        n2[parent].n == o[parent].n - 1,
        n2[parent].keys@.len() == o[parent].keys@.len(),
        n2[parent].children@.len() == o[parent].children@.len(),
        n2[parent].is_leaf == o[parent].is_leaf,
        forall|j: int| 0 <= j < idx ==> n2[parent].keys@[j] == o[parent].keys@[j],
        forall|j: int| idx <= j < o[parent].n - 1 ==> n2[parent].keys@[j] == o[parent].keys@[j + 1],
        forall|j: int| 0 <= j <= idx ==> n2[parent].children@[j] == o[parent].children@[j],
        forall|j: int|
            idx < j <= o[parent].n - 1 ==> n2[parent].children@[j] == o[parent].children@[j + 1],
        n2[left].n == 2 * t - 1,
        n2[left].is_leaf == o[left].is_leaf,
        n2[left].keys@.len() == o[left].keys@.len(),
        n2[left].children@.len() == o[left].children@.len(),
        forall|j: int| 0 <= j < t - 1 ==> n2[left].keys@[j] == o[left].keys@[j],
        n2[left].keys@[t - 1] == o[parent].keys@[idx],
        forall|j: int| t <= j < 2 * t - 1 ==> n2[left].keys@[j] == o[right].keys@[j - t],
        !o[left].is_leaf ==> forall|j: int|
            0 <= j < t ==> n2[left].children@[j] == o[left].children@[j],
        !o[left].is_leaf ==> forall|j: int|
            t <= j < 2 * t ==> n2[left].children@[j] == o[right].children@[j - t],
    ensures
        node_inv(n2, parent, h, t, lo, hi, true),
        ids_ok(n2, parent, h),
        subtree_keys_full(n2, parent, h) == subtree_keys_full(o, parent, h),
        forall|x: int|
            #[trigger] subtree_ids_full(n2, parent, h).contains(x) ==> (subtree_ids_full(
                o,
                parent,
                h,
            ).contains(x) && x != right),
        subtree_ids_full(o, parent, h).contains(right),
{
    let po = o[parent];
    let np = n2[parent];
    let pn = po.n as int;
    let h1 = (h - 1) as nat;
    let sep = po.keys@[idx];
    let lo_l = child_lo(po, idx, lo);
    let hi_r = child_hi(po, idx + 1, hi);
    assert(node_inv(o, left, h1, t, lo_l, sep as int, false));
    assert(node_inv(o, right, h1, t, sep as int, hi_r, false));
    assert(ids_ok(o, left, h1));
    assert(ids_ok(o, right, h1));
    lemma_ids_base(o, left, h1, o[left].n + 1);
    lemma_ids_base(o, right, h1, o[right].n + 1);
    lemma_ids_base(o, parent, h, pn + 1);
    assert(subtree_ids_full(o, left, h1).contains(left));
    assert(subtree_ids_full(o, right, h1).contains(right));
    assert(subtree_ids_full(o, parent, h).contains(parent));
    lemma_ids_child_sub(o, parent, h, idx);
    lemma_ids_child_sub(o, parent, h, idx + 1);
    assert(subtree_ids_full(o, parent, h).contains(left));
    assert(subtree_ids_full(o, parent, h).contains(right));
    assert(subtree_ids_full(o, left, h1).disjoint(subtree_ids_full(o, right, h1)));
    assert(left != right);
    assert(left != parent && right != parent);

    // Siblings other than the merged pair are untouched.
    assert forall|j: int| 0 <= j <= pn && j != idx && j != idx + 1 implies {
        &&& node_inv(
            n2,
            #[trigger] (po.children@[j] as int),
            h1,
            t,
            child_lo(po, j, lo),
            child_hi(po, j, hi),
            false,
        )
        &&& subtree_ids_full(n2, po.children@[j] as int, h1) == subtree_ids_full(
            o,
            po.children@[j] as int,
            h1,
        )
        &&& subtree_keys_full(n2, po.children@[j] as int, h1) == subtree_keys_full(
            o,
            po.children@[j] as int,
            h1,
        )
        &&& ids_ok(n2, po.children@[j] as int, h1)
    } by {
        let cj = po.children@[j] as int;
        assert(node_inv(o, cj, h1, t, child_lo(po, j, lo), child_hi(po, j, hi), false));
        lemma_ids_child_sub(o, parent, h, j);
        lemma_ids_bounded(
            o,
            cj,
            h1,
            t,
            child_lo(po, j, lo),
            child_hi(po, j, hi),
            false,
            o[cj].n + 1,
        );
        assert forall|x: int| #[trigger]
            subtree_ids_full(o, cj, h1).contains(x) implies n2[x] == o[x] by {
            assert(subtree_ids_full(o, cj, h1) == subtree_ids_upto(o, cj, h1, o[cj].n + 1));
            if j < idx {
                assert(subtree_ids_full(o, cj, h1).disjoint(subtree_ids_full(o, left, h1)));
                assert(subtree_ids_full(o, cj, h1).disjoint(subtree_ids_full(o, right, h1)));
            } else {
                assert(subtree_ids_full(o, left, h1).disjoint(subtree_ids_full(o, cj, h1)));
                assert(subtree_ids_full(o, right, h1).disjoint(subtree_ids_full(o, cj, h1)));
            }
            assert(x != parent && x != left && x != right && 0 <= x < o.len());
        }
        lemma_frame(o, n2, cj, h1, t, child_lo(po, j, lo), child_hi(po, j, hi), false);
    }

    // Grandchildren under the merged pair are untouched.
    let lol = o[left];
    let ror = o[right];
    if h >= 2 {
        let h2 = (h - 2) as nat;
        assert forall|m: int| 0 <= m <= t - 1 implies {
            &&& node_inv(
                n2,
                #[trigger] (lol.children@[m] as int),
                h2,
                t,
                child_lo(lol, m, lo_l),
                child_hi(lol, m, sep as int),
                false,
            )
            &&& subtree_ids_full(n2, lol.children@[m] as int, h2) == subtree_ids_full(
                o,
                lol.children@[m] as int,
                h2,
            )
            &&& subtree_keys_full(n2, lol.children@[m] as int, h2) == subtree_keys_full(
                o,
                lol.children@[m] as int,
                h2,
            )
            &&& ids_ok(n2, lol.children@[m] as int, h2)
        } by {
            let g = lol.children@[m] as int;
            assert(node_inv(o, g, h2, t, child_lo(lol, m, lo_l), child_hi(lol, m, sep as int), false));
            lemma_ids_child_sub(o, left, h1, m);
            lemma_ids_bounded(
                o,
                g,
                h2,
                t,
                child_lo(lol, m, lo_l),
                child_hi(lol, m, sep as int),
                false,
                o[g].n + 1,
            );
            assert forall|x: int| #[trigger]
                subtree_ids_full(o, g, h2).contains(x) implies n2[x] == o[x] by {
                assert(subtree_ids_full(o, g, h2) == subtree_ids_upto(o, g, h2, o[g].n + 1));
                assert(subtree_ids_full(o, left, h1).contains(x));
                assert(!subtree_ids_full(o, g, h2).contains(left));
                assert(x != parent && x != left && x != right && 0 <= x < o.len());
            }
            lemma_frame(
                o,
                n2,
                g,
                h2,
                t,
                child_lo(lol, m, lo_l),
                child_hi(lol, m, sep as int),
                false,
            );
        }
        assert forall|m: int| 0 <= m <= t - 1 implies {
            &&& node_inv(
                n2,
                #[trigger] (ror.children@[m] as int),
                h2,
                t,
                child_lo(ror, m, sep as int),
                child_hi(ror, m, hi_r),
                false,
            )
            &&& subtree_ids_full(n2, ror.children@[m] as int, h2) == subtree_ids_full(
                o,
                ror.children@[m] as int,
                h2,
            )
            &&& subtree_keys_full(n2, ror.children@[m] as int, h2) == subtree_keys_full(
                o,
                ror.children@[m] as int,
                h2,
            )
            &&& ids_ok(n2, ror.children@[m] as int, h2)
        } by {
            let g = ror.children@[m] as int;
            assert(node_inv(o, g, h2, t, child_lo(ror, m, sep as int), child_hi(ror, m, hi_r), false));
            lemma_ids_child_sub(o, right, h1, m);
            lemma_ids_bounded(
                o,
                g,
                h2,
                t,
                child_lo(ror, m, sep as int),
                child_hi(ror, m, hi_r),
                false,
                o[g].n + 1,
            );
            assert forall|x: int| #[trigger]
                subtree_ids_full(o, g, h2).contains(x) implies n2[x] == o[x] by {
                assert(subtree_ids_full(o, g, h2) == subtree_ids_upto(o, g, h2, o[g].n + 1));
                assert(subtree_ids_full(o, right, h1).contains(x));
                assert(!subtree_ids_full(o, g, h2).contains(right));
                assert(subtree_ids_full(o, left, h1).disjoint(subtree_ids_full(o, right, h1)));
                assert(x != parent && x != left && x != right && 0 <= x < o.len());
            }
            lemma_frame(
                o,
                n2,
                g,
                h2,
                t,
                child_lo(ror, m, sep as int),
                child_hi(ror, m, hi_r),
                false,
            );
        }
    }

    // The fused node satisfies the invariant over the pair's outer bounds.
    assert(node_inv(n2, left, h1, t, lo_l, hi_r, false)) by {
        let nl = n2[left];
        assert forall|a: int| 0 <= a < nl.n implies lo_l < #[trigger] (nl.keys@[a] as int)
            < hi_r by {
            if a < t - 1 {
                assert(nl.keys@[a] == lol.keys@[a]);
            } else if a == t - 1 {
                assert(lo_l < (sep as int) < hi_r);
            } else {
                assert(nl.keys@[a] == ror.keys@[a - t]);
            }
        }
        assert forall|a: int, b: int| 0 <= a < b < nl.n implies #[trigger] nl.keys@[a]
            < #[trigger] nl.keys@[b] by {
            if b < t - 1 {
            } else if b == t - 1 {
                assert(nl.keys@[a] == lol.keys@[a]);
                assert((lol.keys@[a] as int) < sep as int);
            } else if a == t - 1 {
                assert(nl.keys@[b] == ror.keys@[b - t]);
                assert((sep as int) < ror.keys@[b - t] as int);
            } else if a < t - 1 {
                assert(nl.keys@[a] == lol.keys@[a]);
                assert(nl.keys@[b] == ror.keys@[b - t]);
                assert((lol.keys@[a] as int) < sep as int);
                assert((sep as int) < ror.keys@[b - t] as int);
            } else {
                assert(nl.keys@[a] == ror.keys@[a - t]);
                assert(nl.keys@[b] == ror.keys@[b - t]);
            }
        }
        if h >= 2 {
            let h2 = (h - 2) as nat;
            assert forall|m: int| 0 <= m <= nl.n implies node_inv(
                n2,
                #[trigger] (nl.children@[m] as int),
                h2,
                t,
                child_lo(nl, m, lo_l),
                child_hi(nl, m, hi_r),
                false,
            ) by {
                if m < t {
                    assert(nl.children@[m] == lol.children@[m]);
                    assert(child_lo(nl, m, lo_l) == child_lo(lol, m, lo_l));
                    assert(child_hi(nl, m, hi_r) == child_hi(lol, m, sep as int));
                } else {
                    assert(nl.children@[m] == ror.children@[m - t]);
                    assert(child_lo(nl, m, lo_l) == child_lo(ror, m - t, sep as int));
                    assert(child_hi(nl, m, hi_r) == child_hi(ror, m - t, hi_r));
                }
            }
        }
    }

    // The parent keeps its invariant with one key fewer.
    assert forall|a: int, b: int| 0 <= a < b < np.n implies #[trigger] np.keys@[a]
        < #[trigger] np.keys@[b] by {
        if b < idx {
        } else if a < idx {
            assert(np.keys@[a] == po.keys@[a] && np.keys@[b] == po.keys@[b + 1]);
        } else {
            assert(np.keys@[a] == po.keys@[a + 1] && np.keys@[b] == po.keys@[b + 1]);
        }
    }
    assert forall|a: int| 0 <= a < np.n implies lo < #[trigger] (np.keys@[a] as int) < hi by {
        if a < idx {
            assert(np.keys@[a] == po.keys@[a]);
        } else {
            assert(np.keys@[a] == po.keys@[a + 1]);
        }
    }
    assert forall|j: int| 0 <= j <= np.n implies node_inv(
        n2,
        #[trigger] (np.children@[j] as int),
        h1,
        t,
        child_lo(np, j, lo),
        child_hi(np, j, hi),
        false,
    ) by {
        if j < idx {
            assert(np.children@[j] == po.children@[j]);
            assert(child_lo(np, j, lo) == child_lo(po, j, lo));
            assert(child_hi(np, j, hi) == child_hi(po, j, hi));
        } else if j == idx {
            assert(np.children@[j] == po.children@[idx]);
            assert(child_lo(np, j, lo) == lo_l);
            assert(child_hi(np, j, hi) == hi_r);
        } else {
            assert(np.children@[j] == po.children@[j + 1]);
            assert(child_lo(np, j, lo) == child_lo(po, j + 1, lo));
            assert(child_hi(np, j, hi) == child_hi(po, j + 1, hi));
        }
    }
    assert(node_inv(n2, parent, h, t, lo, hi, true));

    // The fused node's slots: everything it reaches was reachable before,
    // and `right`'s slot is gone.
    let sl_n = subtree_ids_full(n2, left, h1);
    assert forall|x: int| #[trigger] sl_n.contains(x) implies (subtree_ids_full(
        o,
        left,
        h1,
    ).contains(x) || subtree_ids_full(o, right, h1).contains(x)) && x != right by {
        lemma_ids_decompose(n2, left, h1, 2 * t, x);
        assert(sl_n == subtree_ids_upto(n2, left, h1, 2 * t));
        if x == left {
        } else {
            let m = choose|m: int|
                0 <= m < 2 * t && subtree_ids_full(
                    n2,
                    #[trigger] (n2[left].children@[m] as int),
                    (h1 - 1) as nat,
                ).contains(x);
            if m < t {
                assert(n2[left].children@[m] == lol.children@[m]);
                lemma_ids_child_sub(o, left, h1, m);
                assert(subtree_ids_full(o, lol.children@[m] as int, (h1 - 1) as nat).contains(x));
                assert(subtree_ids_full(o, left, h1).contains(x));
            } else {
                assert(n2[left].children@[m] == ror.children@[m - t]);
                lemma_ids_child_sub(o, right, h1, m - t);
                assert(subtree_ids_full(o, ror.children@[m - t] as int, (h1 - 1) as nat).contains(
                    x,
                ));
                assert(subtree_ids_full(o, right, h1).contains(x));
                assert(!subtree_ids_full(o, ror.children@[m - t] as int, (h1 - 1) as nat).contains(
                    right,
                ));
            }
        }
    }
    // Discipline inside the fused node.
    assert(ids_ok(n2, left, h1)) by {
        if h1 > 0 {
            assert forall|a: int, b: int| 0 <= a < b <= n2[left].n implies subtree_ids_full(
                n2,
                #[trigger] (n2[left].children@[a] as int),
                (h1 - 1) as nat,
            ).disjoint(
                subtree_ids_full(n2, #[trigger] (n2[left].children@[b] as int), (h1 - 1) as nat),
            ) by {
                if b < t {
                    assert(n2[left].children@[a] == lol.children@[a]);
                    assert(n2[left].children@[b] == lol.children@[b]);
                } else if a >= t {
                    assert(n2[left].children@[a] == ror.children@[a - t]);
                    assert(n2[left].children@[b] == ror.children@[b - t]);
                } else {
                    assert(n2[left].children@[a] == lol.children@[a]);
                    assert(n2[left].children@[b] == ror.children@[b - t]);
                    let sa = subtree_ids_full(o, lol.children@[a] as int, (h1 - 1) as nat);
                    let sb = subtree_ids_full(o, ror.children@[b - t] as int, (h1 - 1) as nat);
                    lemma_ids_child_sub(o, left, h1, a);
                    lemma_ids_child_sub(o, right, h1, b - t);
                    assert forall|x: int| #[trigger] sa.contains(x) implies !sb.contains(x) by {
                        if sb.contains(x) {
                            assert(subtree_ids_full(o, left, h1).contains(x));
                            assert(subtree_ids_full(o, right, h1).contains(x));
                            assert(false);
                        }
                    }
                }
            }
            assert forall|a: int| 0 <= a <= n2[left].n implies !subtree_ids_full(
                n2,
                #[trigger] (n2[left].children@[a] as int),
                (h1 - 1) as nat,
            ).contains(left) by {
                if a < t {
                    assert(n2[left].children@[a] == lol.children@[a]);
                } else {
                    assert(n2[left].children@[a] == ror.children@[a - t]);
                    lemma_ids_child_sub(o, right, h1, a - t);
                    if subtree_ids_full(o, ror.children@[a - t] as int, (h1 - 1) as nat).contains(
                        left,
                    ) {
                        assert(subtree_ids_full(o, right, h1).contains(left));
                        assert(false);
                    }
                }
            }
            assert forall|a: int| 0 <= a <= n2[left].n implies ids_ok(
                n2,
                #[trigger] (n2[left].children@[a] as int),
                (h1 - 1) as nat,
            ) by {
                if a < t {
                    assert(n2[left].children@[a] == lol.children@[a]);
                } else {
                    assert(n2[left].children@[a] == ror.children@[a - t]);
                }
            }
        }
    }
    // Discipline at the parent.
    assert(ids_ok(n2, parent, h)) by {
        assert forall|a: int, b: int| 0 <= a < b <= np.n implies subtree_ids_full(
            n2,
            #[trigger] (np.children@[a] as int),
            h1,
        ).disjoint(subtree_ids_full(n2, #[trigger] (np.children@[b] as int), h1)) by {
            let sa = subtree_ids_full(n2, np.children@[a] as int, h1);
            let sb = subtree_ids_full(n2, np.children@[b] as int, h1);
            let ao = if a <= idx {
                a
            } else {
                a + 1
            };
            let bo = if b <= idx {
                b
            } else {
                b + 1
            };
            assert(np.children@[a] == po.children@[ao]);
            assert(np.children@[b] == po.children@[bo]);
            assert forall|x: int| #[trigger] sa.contains(x) implies !sb.contains(x) by {
                if sb.contains(x) {
                    if a == idx {
                        assert(sl_n.contains(x));
                        assert(subtree_ids_full(o, po.children@[bo] as int, h1).contains(x));
                        assert(subtree_ids_full(o, left, h1).disjoint(
                            subtree_ids_full(o, po.children@[bo] as int, h1),
                        ));
                        assert(subtree_ids_full(o, right, h1).disjoint(
                            subtree_ids_full(o, po.children@[bo] as int, h1),
                        ));
                        assert(false);
                    } else if b == idx {
                        assert(sl_n.contains(x));
                        assert(subtree_ids_full(o, po.children@[ao] as int, h1).contains(x));
                        if ao < idx {
                            assert(subtree_ids_full(o, po.children@[ao] as int, h1).disjoint(
                                subtree_ids_full(o, left, h1),
                            ));
                            assert(subtree_ids_full(o, po.children@[ao] as int, h1).disjoint(
                                subtree_ids_full(o, right, h1),
                            ));
                        }
                        assert(false);
                    } else {
                        assert(subtree_ids_full(o, po.children@[ao] as int, h1).contains(x));
                        assert(subtree_ids_full(o, po.children@[bo] as int, h1).contains(x));
                        assert(subtree_ids_full(o, po.children@[ao] as int, h1).disjoint(
                            subtree_ids_full(o, po.children@[bo] as int, h1),
                        ));
                        assert(false);
                    }
                }
            }
        }
        assert forall|a: int| 0 <= a <= np.n implies !subtree_ids_full(
            n2,
            #[trigger] (np.children@[a] as int),
            h1,
        ).contains(parent) by {
            if a == idx {
                if sl_n.contains(parent) {
                    assert(false);
                }
            } else {
                let ao = if a < idx {
                    a
                } else {
                    a + 1
                };
                assert(np.children@[a] == po.children@[ao]);
            }
        }
        assert forall|a: int| 0 <= a <= np.n implies ids_ok(
            n2,
            #[trigger] (np.children@[a] as int),
            h1,
        ) by {
            if a != idx {
                let ao = if a < idx {
                    a
                } else {
                    a + 1
                };
                assert(np.children@[a] == po.children@[ao]);
            }
        }
    }
    // Which slots the parent's subtree keeps.
    assert forall|x: int| #[trigger]
        subtree_ids_full(n2, parent, h).contains(x) implies (subtree_ids_full(
        o,
        parent,
        h,
    ).contains(x) && x != right) by {
        lemma_ids_decompose(n2, parent, h, pn, x);
        assert(subtree_ids_full(n2, parent, h) == subtree_ids_upto(n2, parent, h, pn));
        if x != parent {
            let j = choose|j: int|
                0 <= j < pn && subtree_ids_full(
                    n2,
                    #[trigger] (np.children@[j] as int),
                    h1,
                ).contains(x);
            if j == idx {
                assert(sl_n.contains(x));
            } else {
                let jo = if j < idx {
                    j
                } else {
                    j + 1
                };
                assert(np.children@[j] == po.children@[jo]);
                assert(subtree_ids_full(o, po.children@[jo] as int, h1).contains(x));
                lemma_ids_child_sub(o, parent, h, jo);
                assert(!subtree_ids_full(o, po.children@[jo] as int, h1).contains(right)) by {
                    if jo < idx {
                        assert(subtree_ids_full(o, po.children@[jo] as int, h1).disjoint(
                            subtree_ids_full(o, right, h1),
                        ));
                    } else {
                        assert(subtree_ids_full(o, right, h1).disjoint(
                            subtree_ids_full(o, po.children@[jo] as int, h1),
                        ));
                    }
                }
            }
        } else {
            assert(x != right);
        }
    }
    // The keys are unchanged: the separated arrangement in `o` is a split
    // of the fused arrangement in `n2`.
    lemma_split_keys(n2, o, parent, left, right, idx, h, t);
}

/// Re-establishes the B-tree invariant after a rotation through the
/// parent: with `o` and `n2` related as `borrow_from_left_sibling`
/// leaves them — the separator at `ci - 1` moved down to the head of the
/// child `c`, the last key of the left sibling `l` moved up into its
/// place, and (for internal nodes) the sibling's last child moved to the
/// head of the child — the parent's subtree satisfies the same invariant
/// over the same bounds, holds exactly the same keys, and owns exactly
/// the same slots.
#[verifier::rlimit(100)]
proof fn lemma_borrow_left(
    o: Seq<BtreeNode>,
    n2: Seq<BtreeNode>,
    p: int,
    c: int,
    l: int,
    ci: int,
    h: nat,
    t: int,
    lo: int,
    hi: int,
)
    requires
        node_inv(o, p, h, t, lo, hi, true),
        ids_ok(o, p, h),
        h >= 1,
        1 <= ci <= o[p].n,
        c == o[p].children@[ci] as int,
        l == o[p].children@[ci - 1] as int,
        o[l].n >= t,
        t - 1 <= o[c].n < 2 * t - 1,
        n2.len() == o.len(),
        forall|j: int|
            0 <= j < o.len() && j != p && j != c && j != l ==> n2[j] == #[trigger] o[j],
        n2[p].n == o[p].n,
        n2[p].keys@.len() == o[p].keys@.len(),
        n2[p].children@ == o[p].children@,
        n2[p].is_leaf == o[p].is_leaf,
        forall|j: int| 0 <= j < o[p].n && j != ci - 1 ==> n2[p].keys@[j] == o[p].keys@[j],
        n2[p].keys@[ci - 1] == o[l].keys@[o[l].n - 1],
        n2[l].n == o[l].n - 1,
        n2[l].is_leaf == o[l].is_leaf,
        n2[l].keys@ == o[l].keys@,
        n2[l].children@ == o[l].children@,
        n2[c].n == o[c].n + 1,
        n2[c].is_leaf == o[c].is_leaf,
        n2[c].keys@.len() == o[c].keys@.len(),
        n2[c].children@.len() == o[c].children@.len(),
        n2[c].keys@[0] == o[p].keys@[ci - 1],
        forall|j: int| 1 <= j <= o[c].n ==> n2[c].keys@[j] == o[c].keys@[j - 1],
        !o[c].is_leaf ==> n2[c].children@[0] == o[l].children@[o[l].n as int],
        !o[c].is_leaf ==> forall|j: int|
            1 <= j <= o[c].n + 1 ==> n2[c].children@[j] == o[c].children@[j - 1],
    ensures
        node_inv(n2, p, h, t, lo, hi, true),
        ids_ok(n2, p, h),
        subtree_keys_full(n2, p, h) == subtree_keys_full(o, p, h),
        forall|x: int|
            #[trigger] subtree_ids_full(n2, p, h).contains(x) ==> subtree_ids_full(
                o,
                p,
                h,
            ).contains(x),
{
    let po = o[p];
    let np = n2[p];
    let ol = o[l];
    let oc = o[c];
    let pn = po.n as int;
    let h1 = (h - 1) as nat;
    let ln = ol.n as int;
    let cn = oc.n as int;
    let sep = po.keys@[ci - 1];
    let upk = ol.keys@[ln - 1];
    let lo_l = child_lo(po, ci - 1, lo);
    let hi_c = child_hi(po, ci, hi);
    assert(node_inv(o, l, h1, t, lo_l, sep as int, false));
    assert(node_inv(o, c, h1, t, sep as int, hi_c, false));
    assert(ids_ok(o, l, h1));
    assert(ids_ok(o, c, h1));
    lemma_ids_base(o, l, h1, ln + 1);
    lemma_ids_base(o, c, h1, cn + 1);
    lemma_ids_base(o, p, h, pn + 1);
    lemma_ids_child_sub(o, p, h, ci - 1);
    lemma_ids_child_sub(o, p, h, ci);
    assert(subtree_ids_full(o, l, h1).contains(l));
    assert(subtree_ids_full(o, c, h1).contains(c));
    assert(subtree_ids_full(o, p, h).contains(p));
    assert(subtree_ids_full(o, p, h).contains(l));
    assert(subtree_ids_full(o, p, h).contains(c));
    assert(subtree_ids_full(o, l, h1).disjoint(subtree_ids_full(o, c, h1)));
    assert(l != c && l != p && c != p);
    assert(lo_l < (upk as int) < sep as int);

    // Siblings other than the rotated pair are untouched.
    assert forall|j: int| 0 <= j <= pn && j != ci - 1 && j != ci implies {
        &&& node_inv(
            n2,
            #[trigger] (po.children@[j] as int),
            h1,
            t,
            child_lo(po, j, lo),
            child_hi(po, j, hi),
            false,
        )
        &&& subtree_ids_full(n2, po.children@[j] as int, h1) == subtree_ids_full(
            o,
            po.children@[j] as int,
            h1,
        )
        &&& subtree_keys_full(n2, po.children@[j] as int, h1) == subtree_keys_full(
            o,
            po.children@[j] as int,
            h1,
        )
        &&& ids_ok(n2, po.children@[j] as int, h1)
    } by {
        let cj = po.children@[j] as int;
        assert(node_inv(o, cj, h1, t, child_lo(po, j, lo), child_hi(po, j, hi), false));
        lemma_ids_child_sub(o, p, h, j);
        lemma_ids_bounded(
            o,
            cj,
            h1,
            t,
            child_lo(po, j, lo),
            child_hi(po, j, hi),
            false,
            o[cj].n + 1,
        );
        assert forall|x: int| #[trigger]
            subtree_ids_full(o, cj, h1).contains(x) implies n2[x] == o[x] by {
            assert(subtree_ids_full(o, cj, h1) == subtree_ids_upto(o, cj, h1, o[cj].n + 1));
            if j < ci - 1 {
                assert(subtree_ids_full(o, cj, h1).disjoint(subtree_ids_full(o, l, h1)));
                assert(subtree_ids_full(o, cj, h1).disjoint(subtree_ids_full(o, c, h1)));
            } else {
                assert(subtree_ids_full(o, l, h1).disjoint(subtree_ids_full(o, cj, h1)));
                assert(subtree_ids_full(o, c, h1).disjoint(subtree_ids_full(o, cj, h1)));
            }
            assert(x != p && x != l && x != c && 0 <= x < o.len());
        }
        lemma_frame(o, n2, cj, h1, t, child_lo(po, j, lo), child_hi(po, j, hi), false);
    }

    // Grandchildren under the rotated pair are untouched.
    if h >= 2 {
        let h2 = (h - 2) as nat;
        assert forall|m: int| 0 <= m <= ln implies {
            &&& node_inv(
                n2,
                #[trigger] (ol.children@[m] as int),
                h2,
                t,
                child_lo(ol, m, lo_l),
                child_hi(ol, m, sep as int),
                false,
            )
            &&& subtree_ids_full(n2, ol.children@[m] as int, h2) == subtree_ids_full(
                o,
                ol.children@[m] as int,
                h2,
            )
            &&& subtree_keys_full(n2, ol.children@[m] as int, h2) == subtree_keys_full(
                o,
                ol.children@[m] as int,
                h2,
            )
            &&& ids_ok(n2, ol.children@[m] as int, h2)
        } by {
            let g = ol.children@[m] as int;
            assert(node_inv(
                o,
                g,
                h2,
                t,
                child_lo(ol, m, lo_l),
                child_hi(ol, m, sep as int),
                false,
            ));
            lemma_ids_child_sub(o, l, h1, m);
            lemma_ids_bounded(
                o,
                g,
                h2,
                t,
                child_lo(ol, m, lo_l),
                child_hi(ol, m, sep as int),
                false,
                o[g].n + 1,
            );
            assert forall|x: int| #[trigger]
                subtree_ids_full(o, g, h2).contains(x) implies n2[x] == o[x] by {
                assert(subtree_ids_full(o, g, h2) == subtree_ids_upto(o, g, h2, o[g].n + 1));
                assert(subtree_ids_full(o, l, h1).contains(x));
                assert(!subtree_ids_full(o, g, h2).contains(l));
                assert(x != p && x != l && x != c && 0 <= x < o.len());
            }
            lemma_frame(
                o,
                n2,
                g,
                h2,
                t,
                child_lo(ol, m, lo_l),
                child_hi(ol, m, sep as int),
                false,
            );
        }
        assert forall|m: int| 0 <= m <= cn implies {
            &&& node_inv(
                n2,
                #[trigger] (oc.children@[m] as int),
                h2,
                t,
                child_lo(oc, m, sep as int),
                child_hi(oc, m, hi_c),
                false,
            )
            &&& subtree_ids_full(n2, oc.children@[m] as int, h2) == subtree_ids_full(
                o,
                oc.children@[m] as int,
                h2,
            )
            &&& subtree_keys_full(n2, oc.children@[m] as int, h2) == subtree_keys_full(
                o,
                oc.children@[m] as int,
                h2,
            )
            &&& ids_ok(n2, oc.children@[m] as int, h2)
        } by {
            let g = oc.children@[m] as int;
            assert(node_inv(o, g, h2, t, child_lo(oc, m, sep as int), child_hi(oc, m, hi_c), false));
            lemma_ids_child_sub(o, c, h1, m);
            lemma_ids_bounded(
                o,
                g,
                h2,
                t,
                child_lo(oc, m, sep as int),
                child_hi(oc, m, hi_c),
                false,
                o[g].n + 1,
            );
            assert forall|x: int| #[trigger]
                subtree_ids_full(o, g, h2).contains(x) implies n2[x] == o[x] by {
                assert(subtree_ids_full(o, g, h2) == subtree_ids_upto(o, g, h2, o[g].n + 1));
                assert(subtree_ids_full(o, c, h1).contains(x));
                assert(!subtree_ids_full(o, g, h2).contains(c));
                assert(subtree_ids_full(o, l, h1).disjoint(subtree_ids_full(o, c, h1)));
                assert(x != p && x != l && x != c && 0 <= x < o.len());
            }
            lemma_frame(o, n2, g, h2, t, child_lo(oc, m, sep as int), child_hi(oc, m, hi_c), false);
        }
    }

    // The shrunk sibling keeps the invariant below the key it gave up.
    assert(node_inv(n2, l, h1, t, lo_l, upk as int, false)) by {
        let nl = n2[l];
        assert forall|a: int| 0 <= a < nl.n implies lo_l < #[trigger] (nl.keys@[a] as int) < (
        upk as int) by {
            assert(ol.keys@[a] < ol.keys@[ln - 1]);
        }
        if h >= 2 {
            assert forall|m: int| 0 <= m <= nl.n implies node_inv(
                n2,
                #[trigger] (nl.children@[m] as int),
                (h - 2) as nat,
                t,
                child_lo(nl, m, lo_l),
                child_hi(nl, m, upk as int),
                false,
            ) by {
                assert(nl.children@[m] == ol.children@[m]);
                assert(child_lo(nl, m, lo_l) == child_lo(ol, m, lo_l));
                assert(child_hi(nl, m, upk as int) == child_hi(ol, m, sep as int));
            }
        }
    }

    // The grown child keeps the invariant above it.
    assert(node_inv(n2, c, h1, t, upk as int, hi_c, false)) by {
        let nc = n2[c];
        assert forall|a: int| 0 <= a < nc.n implies (upk as int) < #[trigger] (nc.keys@[a] as int)
            < hi_c by {
            if a == 0 {
            } else {
                assert(nc.keys@[a] == oc.keys@[a - 1]);
            }
        }
        assert forall|a: int, b: int| 0 <= a < b < nc.n implies #[trigger] nc.keys@[a]
            < #[trigger] nc.keys@[b] by {
            if a == 0 {
                assert(nc.keys@[b] == oc.keys@[b - 1]);
                assert((sep as int) < oc.keys@[b - 1] as int);
            } else {
                assert(nc.keys@[a] == oc.keys@[a - 1] && nc.keys@[b] == oc.keys@[b - 1]);
            }
        }
        if h >= 2 {
            assert forall|m: int| 0 <= m <= nc.n implies node_inv(
                n2,
                #[trigger] (nc.children@[m] as int),
                (h - 2) as nat,
                t,
                child_lo(nc, m, upk as int),
                child_hi(nc, m, hi_c),
                false,
            ) by {
                if m == 0 {
                    assert(nc.children@[0] == ol.children@[ln]);
                    assert(child_lo(nc, 0, upk as int) == child_lo(ol, ln, lo_l));
                    assert(child_hi(nc, 0, hi_c) == nc.keys@[0]);
                    assert(nc.keys@[0] == sep);
                    assert(child_hi(ol, ln, sep as int) == sep as int);
                } else {
                    assert(nc.children@[m] == oc.children@[m - 1]);
                    assert(child_lo(nc, m, upk as int) == child_lo(oc, m - 1, sep as int));
                    assert(child_hi(nc, m, hi_c) == child_hi(oc, m - 1, hi_c));
                }
            }
        }
    }

    // The parent with the new separator.
    assert forall|a: int, b: int| 0 <= a < b < np.n implies #[trigger] np.keys@[a]
        < #[trigger] np.keys@[b] by {
        if a == ci - 1 {
            assert(np.keys@[b] == po.keys@[b]);
            assert((upk as int) < sep as int);
            assert(po.keys@[ci - 1] <= po.keys@[b]);
        } else if b == ci - 1 {
            assert(np.keys@[a] == po.keys@[a]);
            assert((po.keys@[a] as int) <= lo_l);
        }
    }
    assert forall|a: int| 0 <= a < np.n implies lo < #[trigger] (np.keys@[a] as int) < hi by {
        if a != ci - 1 {
            assert(np.keys@[a] == po.keys@[a]);
        } else {
            assert(lo <= lo_l);
            assert((sep as int) < hi);
        }
    }
    assert forall|j: int| 0 <= j <= np.n implies node_inv(
        n2,
        #[trigger] (np.children@[j] as int),
        h1,
        t,
        child_lo(np, j, lo),
        child_hi(np, j, hi),
        false,
    ) by {
        if j == ci - 1 {
            assert(np.children@[j] == l);
            assert(child_lo(np, j, lo) == lo_l);
            assert(child_hi(np, j, hi) == upk as int);
        } else if j == ci {
            assert(np.children@[j] == c);
            assert(child_lo(np, j, lo) == upk as int);
            assert(child_hi(np, j, hi) == hi_c);
        } else {
            assert(np.children@[j] == po.children@[j]);
            assert(child_lo(np, j, lo) == child_lo(po, j, lo));
            assert(child_hi(np, j, hi) == child_hi(po, j, hi));
        }
    }
    assert(node_inv(n2, p, h, t, lo, hi, true));

    // Slot accounting: the sibling sheds the moved grandchild's slots and
    // the child gains exactly them.
    let sl_n = subtree_ids_full(n2, l, h1);
    let sc_n = subtree_ids_full(n2, c, h1);
    assert forall|x: int| #[trigger] sl_n.contains(x) implies subtree_ids_full(
        o,
        l,
        h1,
    ).contains(x) by {
        lemma_ids_decompose(n2, l, h1, ln, x);
        assert(sl_n == subtree_ids_upto(n2, l, h1, ln));
        if x != l {
            let m = choose|m: int|
                0 <= m < ln && subtree_ids_full(
                    n2,
                    #[trigger] (n2[l].children@[m] as int),
                    (h1 - 1) as nat,
                ).contains(x);
            assert(n2[l].children@[m] == ol.children@[m]);
            lemma_ids_child_sub(o, l, h1, m);
            assert(subtree_ids_full(o, ol.children@[m] as int, (h1 - 1) as nat).contains(x));
        }
    }
    assert forall|x: int| #[trigger] sc_n.contains(x) implies (subtree_ids_full(
        o,
        c,
        h1,
    ).contains(x) || subtree_ids_full(o, l, h1).contains(x)) by {
        lemma_ids_decompose(n2, c, h1, cn + 2, x);
        assert(sc_n == subtree_ids_upto(n2, c, h1, cn + 2));
        if x != c {
            let m = choose|m: int|
                0 <= m < cn + 2 && subtree_ids_full(
                    n2,
                    #[trigger] (n2[c].children@[m] as int),
                    (h1 - 1) as nat,
                ).contains(x);
            if m == 0 {
                assert(n2[c].children@[0] == ol.children@[ln]);
                lemma_ids_child_sub(o, l, h1, ln);
                assert(subtree_ids_full(o, ol.children@[ln] as int, (h1 - 1) as nat).contains(x));
            } else {
                assert(n2[c].children@[m] == oc.children@[m - 1]);
                lemma_ids_child_sub(o, c, h1, m - 1);
                assert(subtree_ids_full(o, oc.children@[m - 1] as int, (h1 - 1) as nat).contains(
                    x,
                ));
            }
        }
    }
    assert forall|x: int| #[trigger] sl_n.contains(x) implies !sc_n.contains(x) by {
        if sc_n.contains(x) {
            lemma_ids_decompose(n2, l, h1, ln, x);
            lemma_ids_decompose(n2, c, h1, cn + 2, x);
            assert(sl_n == subtree_ids_upto(n2, l, h1, ln));
            assert(sc_n == subtree_ids_upto(n2, c, h1, cn + 2));
            assert(subtree_ids_full(o, l, h1).contains(x));
            if subtree_ids_full(o, c, h1).contains(x) {
                assert(false);
            }
            // x lies under the sibling both before and after, and under
            // the child only through the moved grandchild; but the moved
            // grandchild is no longer counted under the sibling.
            if x == c {
                assert(subtree_ids_full(o, l, h1).contains(c));
                assert(false);
            }
            let m = choose|m: int|
                0 <= m < cn + 2 && subtree_ids_full(
                    n2,
                    #[trigger] (n2[c].children@[m] as int),
                    (h1 - 1) as nat,
                ).contains(x);
            if m > 0 {
                assert(n2[c].children@[m] == oc.children@[m - 1]);
                lemma_ids_child_sub(o, c, h1, m - 1);
                assert(subtree_ids_full(o, c, h1).contains(x));
                assert(false);
            }
            assert(n2[c].children@[0] == ol.children@[ln]);
            assert(subtree_ids_full(o, ol.children@[ln] as int, (h1 - 1) as nat).contains(x));
            if x == l {
                assert(!subtree_ids_full(o, ol.children@[ln] as int, (h1 - 1) as nat).contains(l));
                assert(false);
            }
            let m2 = choose|m2: int|
                0 <= m2 < ln && subtree_ids_full(
                    n2,
                    #[trigger] (n2[l].children@[m2] as int),
                    (h1 - 1) as nat,
                ).contains(x);
            assert(n2[l].children@[m2] == ol.children@[m2]);
            assert(subtree_ids_full(o, ol.children@[m2] as int, (h1 - 1) as nat).contains(x));
            assert(subtree_ids_full(o, ol.children@[m2] as int, (h1 - 1) as nat).disjoint(
                subtree_ids_full(o, ol.children@[ln] as int, (h1 - 1) as nat),
            ));
            assert(false);
        }
    }
    assert(ids_ok(n2, l, h1)) by {
        if h1 > 0 {
            assert forall|a: int, b: int| 0 <= a < b <= n2[l].n implies subtree_ids_full(
                n2,
                #[trigger] (n2[l].children@[a] as int),
                (h1 - 1) as nat,
            ).disjoint(
                subtree_ids_full(n2, #[trigger] (n2[l].children@[b] as int), (h1 - 1) as nat),
            ) by {
                assert(n2[l].children@[a] == ol.children@[a]);
                assert(n2[l].children@[b] == ol.children@[b]);
            }
            assert forall|a: int| 0 <= a <= n2[l].n implies !subtree_ids_full(
                n2,
                #[trigger] (n2[l].children@[a] as int),
                (h1 - 1) as nat,
            ).contains(l) by {
                assert(n2[l].children@[a] == ol.children@[a]);
            }
            assert forall|a: int| 0 <= a <= n2[l].n implies ids_ok(
                n2,
                #[trigger] (n2[l].children@[a] as int),
                (h1 - 1) as nat,
            ) by {
                assert(n2[l].children@[a] == ol.children@[a]);
            }
        }
    }
    assert(ids_ok(n2, c, h1)) by {
        if h1 > 0 {
            assert forall|a: int, b: int| 0 <= a < b <= n2[c].n implies subtree_ids_full(
                n2,
                #[trigger] (n2[c].children@[a] as int),
                (h1 - 1) as nat,
            ).disjoint(
                subtree_ids_full(n2, #[trigger] (n2[c].children@[b] as int), (h1 - 1) as nat),
            ) by {
                if a == 0 {
                    assert(n2[c].children@[0] == ol.children@[ln]);
                    assert(n2[c].children@[b] == oc.children@[b - 1]);
                    let sa = subtree_ids_full(o, ol.children@[ln] as int, (h1 - 1) as nat);
                    let sb = subtree_ids_full(o, oc.children@[b - 1] as int, (h1 - 1) as nat);
                    lemma_ids_child_sub(o, l, h1, ln);
                    lemma_ids_child_sub(o, c, h1, b - 1);
                    assert forall|x: int| #[trigger] sa.contains(x) implies !sb.contains(x) by {
                        if sb.contains(x) {
                            assert(subtree_ids_full(o, l, h1).contains(x));
                            assert(subtree_ids_full(o, c, h1).contains(x));
                            assert(false);
                        }
                    }
                } else {
                    assert(n2[c].children@[a] == oc.children@[a - 1]);
                    assert(n2[c].children@[b] == oc.children@[b - 1]);
                }
            }
            assert forall|a: int| 0 <= a <= n2[c].n implies !subtree_ids_full(
                n2,
                #[trigger] (n2[c].children@[a] as int),
                (h1 - 1) as nat,
            ).contains(c) by {
                if a == 0 {
                    assert(n2[c].children@[0] == ol.children@[ln]);
                    lemma_ids_child_sub(o, l, h1, ln);
                    if subtree_ids_full(o, ol.children@[ln] as int, (h1 - 1) as nat).contains(c) {
                        assert(subtree_ids_full(o, l, h1).contains(c));
                        assert(false);
                    }
                } else {
                    assert(n2[c].children@[a] == oc.children@[a - 1]);
                }
            }
            assert forall|a: int| 0 <= a <= n2[c].n implies ids_ok(
                n2,
                #[trigger] (n2[c].children@[a] as int),
                (h1 - 1) as nat,
            ) by {
                if a == 0 {
                    assert(n2[c].children@[0] == ol.children@[ln]);
                } else {
                    assert(n2[c].children@[a] == oc.children@[a - 1]);
                }
            }
        }
    }
    assert(ids_ok(n2, p, h)) by {
        assert forall|a: int, b: int| 0 <= a < b <= np.n implies subtree_ids_full(
            n2,
            #[trigger] (np.children@[a] as int),
            h1,
        ).disjoint(subtree_ids_full(n2, #[trigger] (np.children@[b] as int), h1)) by {
            let sa = subtree_ids_full(n2, np.children@[a] as int, h1);
            let sb = subtree_ids_full(n2, np.children@[b] as int, h1);
            assert(np.children@[a] == po.children@[a]);
            assert(np.children@[b] == po.children@[b]);
            assert forall|x: int| #[trigger] sa.contains(x) implies !sb.contains(x) by {
                if sb.contains(x) {
                    if a == ci - 1 && b == ci {
                        assert(false);
                    } else if a == ci - 1 || a == ci {
                        assert(subtree_ids_full(o, po.children@[a] as int, h1).contains(x)
                            || subtree_ids_full(o, l, h1).contains(x));
                        assert(subtree_ids_full(o, po.children@[b] as int, h1).contains(x));
                        assert(false);
                    } else if b == ci - 1 || b == ci {
                        assert(subtree_ids_full(o, po.children@[b] as int, h1).contains(x)
                            || subtree_ids_full(o, l, h1).contains(x));
                        assert(subtree_ids_full(o, po.children@[a] as int, h1).contains(x));
                        assert(false);
                    } else {
                        assert(subtree_ids_full(o, po.children@[a] as int, h1).contains(x));
                        assert(subtree_ids_full(o, po.children@[b] as int, h1).contains(x));
                        assert(false);
                    }
                }
            }
        }
        assert forall|a: int| 0 <= a <= np.n implies !subtree_ids_full(
            n2,
            #[trigger] (np.children@[a] as int),
            h1,
        ).contains(p) by {
            assert(np.children@[a] == po.children@[a]);
            if subtree_ids_full(n2, po.children@[a] as int, h1).contains(p) {
                if a == ci - 1 {
                    assert(subtree_ids_full(o, l, h1).contains(p));
                } else if a == ci {
                    assert(subtree_ids_full(o, c, h1).contains(p) || subtree_ids_full(
                        o,
                        l,
                        h1,
                    ).contains(p));
                }
                assert(false);
            }
        }
        assert forall|a: int| 0 <= a <= np.n implies ids_ok(
            n2,
            #[trigger] (np.children@[a] as int),
            h1,
        ) by {
            assert(np.children@[a] == po.children@[a]);
        }
    }
    assert forall|x: int| #[trigger] subtree_ids_full(n2, p, h).contains(x) implies subtree_ids_full(
        o,
        p,
        h,
    ).contains(x) by {
        lemma_ids_decompose(n2, p, h, pn + 1, x);
        assert(subtree_ids_full(n2, p, h) == subtree_ids_upto(n2, p, h, pn + 1));
        if x != p {
            let j = choose|j: int|
                0 <= j < pn + 1 && subtree_ids_full(
                    n2,
                    #[trigger] (np.children@[j] as int),
                    h1,
                ).contains(x);
            assert(np.children@[j] == po.children@[j]);
            lemma_ids_child_sub(o, p, h, j);
            if j == ci - 1 {
                assert(subtree_ids_full(o, l, h1).contains(x));
            } else if j == ci {
                if subtree_ids_full(o, c, h1).contains(x) {
                } else {
                    assert(subtree_ids_full(o, l, h1).contains(x));
                    lemma_ids_child_sub(o, p, h, ci - 1);
                }
            } else {
                assert(subtree_ids_full(o, po.children@[j] as int, h1).contains(x));
            }
        }
    }
    // The keys are unchanged: the rotation only moves them between the
    // parent and the pair.
    lemma_borrow_left_keys(o, n2, p, c, l, ci, h, t, lo, hi);
}

/// Lifts the contract of a recursive delete inside child `pos` back to
/// the parent's level: when the key lies strictly between the child's
/// bounds and is not one of the parent's own keys, removing it from the
/// child removes it from the parent's subtree, and the parent keeps its
/// invariant, its id discipline and its free-slot discipline.
#[verifier::rlimit(100)]
proof fn lemma_descend_del(
    o: Seq<BtreeNode>,
    n2: Seq<BtreeNode>,
    f1: Seq<usize>,
    f2: Seq<usize>,
    parent: int,
    pos: int,
    key: u64,
    h: nat,
    t: int,
    lo: int,
    hi: int,
)
    requires
        node_inv(o, parent, h, t, lo, hi, true),
        ids_ok(o, parent, h),
        h >= 1,
        0 <= pos <= o[parent].n,
        !node_keys(o[parent]).contains(key),
        child_lo(o[parent], pos, lo) < (key as int) < child_hi(o[parent], pos, hi),
        f1.no_duplicates(),
        forall|i: int|
            0 <= i < f1.len() ==> 0 <= #[trigger] (f1[i] as int) < o.len() && !subtree_ids_full(
                o,
                parent,
                h,
            ).contains(f1[i] as int),
        n2.len() == o.len(),
        node_inv(
            n2,
            o[parent].children@[pos] as int,
            (h - 1) as nat,
            t,
            child_lo(o[parent], pos, lo),
            child_hi(o[parent], pos, hi),
            true,
        ),
        n2[o[parent].children@[pos] as int].n >= t - 1,
        ids_ok(n2, o[parent].children@[pos] as int, (h - 1) as nat),
        subtree_keys_full(n2, o[parent].children@[pos] as int, (h - 1) as nat)
            == subtree_keys_full(o, o[parent].children@[pos] as int, (h - 1) as nat).remove(key),
        forall|j: int|
            0 <= j < o.len() && !subtree_ids_full(
                o,
                o[parent].children@[pos] as int,
                (h - 1) as nat,
            ).contains(j) ==> n2[j] == #[trigger] o[j],
        forall|j: int|
            #[trigger] subtree_ids_full(n2, o[parent].children@[pos] as int, (h - 1) as nat)
                .contains(j) ==> subtree_ids_full(
                o,
                o[parent].children@[pos] as int,
                (h - 1) as nat,
            ).contains(j),
        f1.is_prefix_of(f2),
        forall|i: int|
            f1.len() <= i < f2.len() ==> subtree_ids_full(
                o,
                o[parent].children@[pos] as int,
                (h - 1) as nat,
            ).contains(#[trigger] (f2[i] as int)),
        f2.no_duplicates(),
        forall|i: int|
            0 <= i < f2.len() ==> 0 <= #[trigger] (f2[i] as int) < n2.len() && is_empty_node(
                n2[f2[i] as int],
                t,
            ) && !subtree_ids_full(
                n2,
                o[parent].children@[pos] as int,
                (h - 1) as nat,
            ).contains(f2[i] as int),
    ensures
        n2[parent] == o[parent],
        node_inv(n2, parent, h, t, lo, hi, true),
        ids_ok(n2, parent, h),
        subtree_keys_full(n2, parent, h) == subtree_keys_full(o, parent, h).remove(key),
        forall|i: int|
            0 <= i < f2.len() ==> !subtree_ids_full(n2, parent, h).contains(
                #[trigger] (f2[i] as int),
            ),
        forall|j: int|
            0 <= j < o.len() && !subtree_ids_full(o, parent, h).contains(j) ==> n2[j]
                == #[trigger] o[j],
        forall|j: int|
            #[trigger] subtree_ids_full(n2, parent, h).contains(j) ==> subtree_ids_full(
                o,
                parent,
                h,
            ).contains(j),
        forall|i: int|
            f1.len() <= i < f2.len() ==> subtree_ids_full(o, parent, h).contains(
                #[trigger] (f2[i] as int),
            ),
{
    let h1 = (h - 1) as nat;
    let po = o[parent];
    let pn = po.n as int;
    let c = po.children@[pos] as int;
    let sc_o = subtree_ids_full(o, c, h1);
    let sc_n = subtree_ids_full(n2, c, h1);
    lemma_ids_base(o, parent, h, pn + 1);
    assert(subtree_ids_full(o, parent, h).contains(parent));
    lemma_ids_child_sub(o, parent, h, pos);
    lemma_ids_base(o, c, h1, o[c].n + 1);
    assert(sc_o.contains(c));
    assert(subtree_ids_full(o, parent, h).contains(c));
    assert(!sc_o.contains(parent));
    assert(n2[parent] == o[parent]);

    // Untouched siblings keep their invariant, sets and discipline.
    assert forall|j: int| 0 <= j <= pn && j != pos implies {
        &&& node_inv(
            n2,
            #[trigger] (po.children@[j] as int),
            h1,
            t,
            child_lo(po, j, lo),
            child_hi(po, j, hi),
            false,
        )
        &&& subtree_ids_full(n2, po.children@[j] as int, h1) == subtree_ids_full(
            o,
            po.children@[j] as int,
            h1,
        )
        &&& subtree_keys_full(n2, po.children@[j] as int, h1) == subtree_keys_full(
            o,
            po.children@[j] as int,
            h1,
        )
        &&& ids_ok(n2, po.children@[j] as int, h1)
    } by {
        let cj = po.children@[j] as int;
        assert(node_inv(o, cj, h1, t, child_lo(po, j, lo), child_hi(po, j, hi), false));
        lemma_ids_child_sub(o, parent, h, j);
        lemma_ids_bounded(
            o,
            cj,
            h1,
            t,
            child_lo(po, j, lo),
            child_hi(po, j, hi),
            false,
            o[cj].n + 1,
        );
        if j < pos {
            assert(subtree_ids_full(o, cj, h1).disjoint(sc_o));
        } else {
            assert(sc_o.disjoint(subtree_ids_full(o, cj, h1)));
        }
        assert forall|x: int| #[trigger]
            subtree_ids_full(o, cj, h1).contains(x) implies n2[x] == o[x] by {
            assert(subtree_ids_full(o, cj, h1) == subtree_ids_upto(o, cj, h1, o[cj].n + 1));
            assert(!sc_o.contains(x));
            assert(0 <= x < o.len());
        }
        lemma_frame(o, n2, cj, h1, t, child_lo(po, j, lo), child_hi(po, j, hi), false);
    }

    assert forall|j: int| 0 <= j <= pn implies node_inv(
        n2,
        #[trigger] (po.children@[j] as int),
        h1,
        t,
        child_lo(po, j, lo),
        child_hi(po, j, hi),
        false,
    ) by {
        if j == pos {
            assert(n2[c].n >= t - 1);
        }
    }
    assert(node_inv(n2, parent, h, t, lo, hi, true));

    // Slots only vanish.
    assert forall|x: int| #[trigger]
        subtree_ids_full(n2, parent, h).contains(x) implies subtree_ids_full(
        o,
        parent,
        h,
    ).contains(x) by {
        lemma_ids_decompose(n2, parent, h, pn + 1, x);
        assert(subtree_ids_full(n2, parent, h) == subtree_ids_upto(n2, parent, h, pn + 1));
        if x != parent {
            let j = choose|j: int|
                0 <= j <= pn && subtree_ids_full(
                    n2,
                    #[trigger] (po.children@[j] as int),
                    h1,
                ).contains(x);
            lemma_ids_child_sub(o, parent, h, j);
            if j != pos {
                assert(subtree_ids_full(o, po.children@[j] as int, h1).contains(x));
            } else {
                assert(sc_o.contains(x));
            }
        }
    }
    // The untouched part of the arena.
    assert forall|j: int|
        0 <= j < o.len() && !subtree_ids_full(o, parent, h).contains(j) implies n2[j]
        == #[trigger] o[j] by {
        if sc_o.contains(j) {
            assert(subtree_ids_full(o, parent, h).contains(j));
            assert(false);
        }
    }
    // New free entries come from the parent's old subtree.
    assert forall|i: int| f1.len() <= i < f2.len() implies subtree_ids_full(
        o,
        parent,
        h,
    ).contains(#[trigger] (f2[i] as int)) by {
        assert(sc_o.contains(f2[i] as int));
    }
    // Free entries never point into the new subtree.
    assert forall|i: int| 0 <= i < f2.len() implies !subtree_ids_full(n2, parent, h).contains(
        #[trigger] (f2[i] as int),
    ) by {
        if subtree_ids_full(n2, parent, h).contains(f2[i] as int) {
            assert(subtree_ids_full(o, parent, h).contains(f2[i] as int));
            lemma_ids_decompose(n2, parent, h, pn + 1, f2[i] as int);
            assert(subtree_ids_full(n2, parent, h) == subtree_ids_upto(n2, parent, h, pn + 1));
            if f2[i] as int == parent {
                assert(sc_o.contains(parent) || (exists|ii: int|
                    0 <= ii < f1.len() && f1[ii] == f2[i]));
                if !sc_o.contains(parent) {
                    let ii = choose|ii: int| 0 <= ii < f1.len() && f1[ii] == f2[i];
                    assert(!subtree_ids_full(o, parent, h).contains(f1[ii] as int));
                }
                assert(false);
            }
            let j = choose|j: int|
                0 <= j <= pn && subtree_ids_full(
                    n2,
                    #[trigger] (po.children@[j] as int),
                    h1,
                ).contains(f2[i] as int);
            if j == pos {
                assert(!sc_n.contains(f2[i] as int));
                assert(false);
            } else {
                assert(subtree_ids_full(o, po.children@[j] as int, h1).contains(f2[i] as int));
                if i < f1.len() {
                    assert(f2[i] == f1[i]);
                    lemma_ids_child_sub(o, parent, h, j);
                    assert(!subtree_ids_full(o, parent, h).contains(f1[i] as int));
                    assert(false);
                } else {
                    assert(sc_o.contains(f2[i] as int));
                    if j < pos {
                        assert(subtree_ids_full(o, po.children@[j] as int, h1).disjoint(sc_o));
                    } else {
                        assert(sc_o.disjoint(subtree_ids_full(o, po.children@[j] as int, h1)));
                    }
                    assert(false);
                }
            }
        }
    }
    // Discipline at the parent.
    assert(ids_ok(n2, parent, h)) by {
        assert forall|a: int, b: int| 0 <= a < b <= pn implies subtree_ids_full(
            n2,
            #[trigger] (po.children@[a] as int),
            h1,
        ).disjoint(subtree_ids_full(n2, #[trigger] (po.children@[b] as int), h1)) by {
            let sa = subtree_ids_full(n2, po.children@[a] as int, h1);
            let sb = subtree_ids_full(n2, po.children@[b] as int, h1);
            assert forall|x: int| #[trigger] sa.contains(x) implies !sb.contains(x) by {
                if sb.contains(x) {
                    assert(subtree_ids_full(o, po.children@[a] as int, h1).contains(x));
                    assert(subtree_ids_full(o, po.children@[b] as int, h1).contains(x));
                    assert(subtree_ids_full(o, po.children@[a] as int, h1).disjoint(
                        subtree_ids_full(o, po.children@[b] as int, h1),
                    ));
                    assert(false);
                }
            }
        }
        assert forall|a: int| 0 <= a <= pn implies !subtree_ids_full(
            n2,
            #[trigger] (po.children@[a] as int),
            h1,
        ).contains(parent) by {
            if subtree_ids_full(n2, po.children@[a] as int, h1).contains(parent) {
                assert(subtree_ids_full(o, po.children@[a] as int, h1).contains(parent));
                assert(false);
            }
        }
    }
    // The keys afterwards.
    let kp_o = subtree_keys_full(o, parent, h);
    let kp_n = subtree_keys_full(n2, parent, h);
    assert forall|k: u64| #[trigger] kp_n.contains(k) implies kp_o.remove(key).contains(k) by {
        lemma_subtree_decompose(n2, parent, h, pn + 1, k);
        lemma_subtree_decompose(o, parent, h, pn + 1, k);
        assert(kp_n == subtree_keys_upto(n2, parent, h, pn + 1));
        assert(kp_o == subtree_keys_upto(o, parent, h, pn + 1));
        if node_keys(po).contains(k) {
            assert(k != key);
        } else {
            let j = choose|j: int|
                0 <= j <= pn && subtree_keys_full(
                    n2,
                    #[trigger] (po.children@[j] as int),
                    h1,
                ).contains(k);
            if j == pos {
                assert(subtree_keys_full(o, c, h1).remove(key).contains(k));
            } else {
                assert(subtree_keys_full(o, po.children@[j] as int, h1).contains(k));
                if k == key {
                    assert(node_inv(
                        o,
                        po.children@[j] as int,
                        h1,
                        t,
                        child_lo(po, j, lo),
                        child_hi(po, j, hi),
                        false,
                    ));
                    lemma_subtree_bounded(
                        o,
                        po.children@[j] as int,
                        h1,
                        t,
                        child_lo(po, j, lo),
                        child_hi(po, j, hi),
                        false,
                        o[po.children@[j] as int].n + 1,
                    );
                    assert(subtree_keys_upto(
                        o,
                        po.children@[j] as int,
                        h1,
                        o[po.children@[j] as int].n + 1,
                    ).contains(k));
                    if j < pos {
                        assert(child_hi(po, j, hi) <= child_lo(po, pos, lo));
                    } else {
                        assert(child_hi(po, pos, hi) <= child_lo(po, j, lo));
                    }
                    assert(false);
                }
            }
        }
    }
    assert forall|k: u64| #[trigger] kp_o.remove(key).contains(k) implies kp_n.contains(k) by {
        lemma_subtree_decompose(n2, parent, h, pn + 1, k);
        lemma_subtree_decompose(o, parent, h, pn + 1, k);
        assert(kp_n == subtree_keys_upto(n2, parent, h, pn + 1));
        assert(kp_o == subtree_keys_upto(o, parent, h, pn + 1));
        if !node_keys(po).contains(k) {
            let j = choose|j: int|
                0 <= j <= pn && subtree_keys_full(
                    o,
                    #[trigger] (po.children@[j] as int),
                    h1,
                ).contains(k);
            if j == pos {
                assert(subtree_keys_full(n2, c, h1).contains(k));
            } else {
                assert(subtree_keys_full(n2, po.children@[j] as int, h1).contains(k));
            }
        }
    }
    assert(kp_n =~= kp_o.remove(key));
}

/// Lifts the deletion of a separator through its in-order predecessor:
/// the predecessor `newsep` has been removed from the child at `idx` and
/// then written over the parent's key at `idx`; the parent's subtree has
/// lost exactly the old separator.
#[verifier::rlimit(100)]
proof fn lemma_replace_sep_pred(
    o: Seq<BtreeNode>,
    n2: Seq<BtreeNode>,
    parent: int,
    idx: int,
    newsep: u64,
    h: nat,
    t: int,
    lo: int,
    hi: int,
)
    requires
        node_inv(o, parent, h, t, lo, hi, true),
        ids_ok(o, parent, h),
        h >= 1,
        0 <= idx < o[parent].n,
        n2.len() == o.len(),
        // What deleting the predecessor from the child left behind.
        node_inv(
            n2,
            o[parent].children@[idx] as int,
            (h - 1) as nat,
            t,
            child_lo(o[parent], idx, lo),
            o[parent].keys@[idx] as int,
            true,
        ),
        n2[o[parent].children@[idx] as int].n >= t - 1,
        ids_ok(n2, o[parent].children@[idx] as int, (h - 1) as nat),
        subtree_keys_full(n2, o[parent].children@[idx] as int, (h - 1) as nat)
            == subtree_keys_full(o, o[parent].children@[idx] as int, (h - 1) as nat).remove(
            newsep,
        ),
        subtree_keys_full(o, o[parent].children@[idx] as int, (h - 1) as nat).contains(newsep),
        forall|k: u64|
            #[trigger] subtree_keys_full(o, o[parent].children@[idx] as int, (h - 1) as nat)
                .contains(k) ==> k <= newsep,
        forall|j: int|
            0 <= j < o.len() && !subtree_ids_full(
                o,
                o[parent].children@[idx] as int,
                (h - 1) as nat,
            ).contains(j) && j != parent ==> n2[j] == #[trigger] o[j],
        forall|j: int|
            #[trigger] subtree_ids_full(n2, o[parent].children@[idx] as int, (h - 1) as nat)
                .contains(j) ==> subtree_ids_full(
                o,
                o[parent].children@[idx] as int,
                (h - 1) as nat,
            ).contains(j),
        // The parent record: only the separator changed.
        n2[parent].n == o[parent].n,
        n2[parent].keys@.len() == o[parent].keys@.len(),
        n2[parent].children@ == o[parent].children@,
        n2[parent].is_leaf == o[parent].is_leaf,
        forall|j: int| 0 <= j < o[parent].n && j != idx ==> n2[parent].keys@[j] == o[parent].keys@[j],
        n2[parent].keys@[idx] == newsep,
    ensures
        node_inv(n2, parent, h, t, lo, hi, true),
        ids_ok(n2, parent, h),
        subtree_keys_full(n2, parent, h) == subtree_keys_full(o, parent, h).remove(
            o[parent].keys@[idx],
        ),
        forall|j: int|
            0 <= j < o.len() && !subtree_ids_full(o, parent, h).contains(j) ==> n2[j]
                == #[trigger] o[j],
        forall|j: int|
            #[trigger] subtree_ids_full(n2, parent, h).contains(j) ==> subtree_ids_full(
                o,
                parent,
                h,
            ).contains(j),
        forall|j: int|
            0 <= j <= o[parent].n && j != idx ==> subtree_ids_full(
                n2,
                #[trigger] (o[parent].children@[j] as int),
                (h - 1) as nat,
            ) == subtree_ids_full(o, o[parent].children@[j] as int, (h - 1) as nat),
{
    let h1 = (h - 1) as nat;
    let po = o[parent];
    let np = n2[parent];
    let pn = po.n as int;
    let c = po.children@[idx] as int;
    let key = po.keys@[idx];
    let lo_c = child_lo(po, idx, lo);
    let sc_o = subtree_ids_full(o, c, h1);
    lemma_ids_base(o, parent, h, pn + 1);
    lemma_ids_child_sub(o, parent, h, idx);
    lemma_ids_base(o, c, h1, o[c].n + 1);
    assert(subtree_ids_full(o, parent, h).contains(parent));
    assert(sc_o.contains(c));
    assert(!sc_o.contains(parent));
    // The predecessor lies strictly between the neighbouring keys.
    assert(node_inv(o, c, h1, t, lo_c, key as int, false));
    lemma_subtree_bounded(o, c, h1, t, lo_c, key as int, false, o[c].n + 1);
    assert(subtree_keys_full(o, c, h1) == subtree_keys_upto(o, c, h1, o[c].n + 1));
    assert(lo_c < (newsep as int) < key as int);

    // Untouched siblings.
    assert forall|j: int| 0 <= j <= pn && j != idx implies {
        &&& node_inv(
            n2,
            #[trigger] (po.children@[j] as int),
            h1,
            t,
            child_lo(po, j, lo),
            child_hi(po, j, hi),
            false,
        )
        &&& subtree_ids_full(n2, po.children@[j] as int, h1) == subtree_ids_full(
            o,
            po.children@[j] as int,
            h1,
        )
        &&& subtree_keys_full(n2, po.children@[j] as int, h1) == subtree_keys_full(
            o,
            po.children@[j] as int,
            h1,
        )
        &&& ids_ok(n2, po.children@[j] as int, h1)
    } by {
        let cj = po.children@[j] as int;
        assert(node_inv(o, cj, h1, t, child_lo(po, j, lo), child_hi(po, j, hi), false));
        lemma_ids_child_sub(o, parent, h, j);
        lemma_ids_bounded(
            o,
            cj,
            h1,
            t,
            child_lo(po, j, lo),
            child_hi(po, j, hi),
            false,
            o[cj].n + 1,
        );
        if j < idx {
            assert(subtree_ids_full(o, cj, h1).disjoint(sc_o));
        } else {
            assert(sc_o.disjoint(subtree_ids_full(o, cj, h1)));
        }
        assert forall|x: int| #[trigger]
            subtree_ids_full(o, cj, h1).contains(x) implies n2[x] == o[x] by {
            assert(subtree_ids_full(o, cj, h1) == subtree_ids_upto(o, cj, h1, o[cj].n + 1));
            assert(!sc_o.contains(x));
            assert(x != parent);
            assert(0 <= x < o.len());
        }
        lemma_frame(o, n2, cj, h1, t, child_lo(po, j, lo), child_hi(po, j, hi), false);
    }

    // The deepened child fits under the new, smaller separator.
    assert(node_inv(n2, c, h1, t, lo_c, newsep as int, true)) by {
        lemma_subtree_bounded(n2, c, h1, t, lo_c, key as int, true, n2[c].n + 1);
        assert forall|k: u64| #[trigger]
            subtree_keys_full(n2, c, h1).contains(k) implies lo_c < (k as int) < (
        newsep as int) by {
            assert(subtree_keys_full(n2, c, h1) == subtree_keys_upto(n2, c, h1, n2[c].n + 1));
            assert(subtree_keys_full(o, c, h1).remove(newsep).contains(k));
            assert(k <= newsep && k != newsep);
        }
        lemma_bounds_tighten(n2, c, h1, t, lo_c, key as int, lo_c, newsep as int, true);
    }

    // The parent with the new separator.
    assert forall|a: int, b: int| 0 <= a < b < np.n implies #[trigger] np.keys@[a]
        < #[trigger] np.keys@[b] by {
        if a == idx {
            assert(np.keys@[b] == po.keys@[b]);
            assert((newsep as int) < key as int);
            assert(po.keys@[idx] <= po.keys@[b]);
        } else if b == idx {
            assert(np.keys@[a] == po.keys@[a]);
            assert((po.keys@[a] as int) <= lo_c);
        }
    }
    assert forall|a: int| 0 <= a < np.n implies lo < #[trigger] (np.keys@[a] as int) < hi by {
        if a != idx {
            assert(np.keys@[a] == po.keys@[a]);
        } else {
            assert(lo <= lo_c);
            assert((key as int) < hi);
        }
    }
    assert forall|j: int| 0 <= j <= np.n implies node_inv(
        n2,
        #[trigger] (np.children@[j] as int),
        h1,
        t,
        child_lo(np, j, lo),
        child_hi(np, j, hi),
        false,
    ) by {
        if j == idx {
            assert(np.children@[j] == po.children@[idx]);
            assert(child_lo(np, j, lo) == lo_c);
            assert(child_hi(np, j, hi) == newsep as int);
            assert(n2[c].n >= t - 1);
        } else if j == idx + 1 {
            assert(np.children@[j] == po.children@[j]);
            assert(child_lo(np, j, lo) == newsep as int);
            assert(child_hi(np, j, hi) == child_hi(po, j, hi));
            lemma_bounds_widen(
                n2,
                po.children@[j] as int,
                h1,
                t,
                key as int,
                child_hi(po, j, hi),
                newsep as int,
                child_hi(po, j, hi),
                false,
            );
        } else {
            assert(np.children@[j] == po.children@[j]);
            assert(child_lo(np, j, lo) == child_lo(po, j, lo));
            assert(child_hi(np, j, hi) == child_hi(po, j, hi));
        }
    }
    assert(node_inv(n2, parent, h, t, lo, hi, true));

    // Slots only vanish; the untouched part of the arena stays.
    assert forall|x: int| #[trigger]
        subtree_ids_full(n2, parent, h).contains(x) implies subtree_ids_full(
        o,
        parent,
        h,
    ).contains(x) by {
        lemma_ids_decompose(n2, parent, h, pn + 1, x);
        assert(subtree_ids_full(n2, parent, h) == subtree_ids_upto(n2, parent, h, pn + 1));
        if x != parent {
            let j = choose|j: int|
                0 <= j <= pn && subtree_ids_full(
                    n2,
                    #[trigger] (np.children@[j] as int),
                    h1,
                ).contains(x);
            assert(np.children@[j] == po.children@[j]);
            lemma_ids_child_sub(o, parent, h, j);
            if j != idx {
                assert(subtree_ids_full(o, po.children@[j] as int, h1).contains(x));
            } else {
                assert(sc_o.contains(x));
            }
        }
    }
    assert forall|j: int|
        0 <= j < o.len() && !subtree_ids_full(o, parent, h).contains(j) implies n2[j]
        == #[trigger] o[j] by {
        if sc_o.contains(j) {
            assert(subtree_ids_full(o, parent, h).contains(j));
            assert(false);
        }
    }
    assert(ids_ok(n2, parent, h)) by {
        assert forall|a: int, b: int| 0 <= a < b <= pn implies subtree_ids_full(
            n2,
            #[trigger] (np.children@[a] as int),
            h1,
        ).disjoint(subtree_ids_full(n2, #[trigger] (np.children@[b] as int), h1)) by {
            let sa = subtree_ids_full(n2, np.children@[a] as int, h1);
            let sb = subtree_ids_full(n2, np.children@[b] as int, h1);
            assert(np.children@[a] == po.children@[a]);
            assert(np.children@[b] == po.children@[b]);
            assert forall|x: int| #[trigger] sa.contains(x) implies !sb.contains(x) by {
                if sb.contains(x) {
                    assert(subtree_ids_full(o, po.children@[a] as int, h1).contains(x));
                    assert(subtree_ids_full(o, po.children@[b] as int, h1).contains(x));
                    assert(false);
                }
            }
        }
        assert forall|a: int| 0 <= a <= pn implies !subtree_ids_full(
            n2,
            #[trigger] (np.children@[a] as int),
            h1,
        ).contains(parent) by {
            assert(np.children@[a] == po.children@[a]);
            if subtree_ids_full(n2, po.children@[a] as int, h1).contains(parent) {
                assert(subtree_ids_full(o, po.children@[a] as int, h1).contains(parent));
                assert(false);
            }
        }
        assert forall|a: int| 0 <= a <= pn implies ids_ok(
            n2,
            #[trigger] (np.children@[a] as int),
            h1,
        ) by {
            assert(np.children@[a] == po.children@[a]);
        }
    }

    // The keys afterwards.
    let kp_o = subtree_keys_full(o, parent, h);
    let kp_n = subtree_keys_full(n2, parent, h);
    assert forall|k: u64| #[trigger] kp_n.contains(k) implies kp_o.remove(key).contains(k) by {
        lemma_subtree_decompose(n2, parent, h, pn + 1, k);
        lemma_subtree_decompose(o, parent, h, pn + 1, k);
        assert(kp_n == subtree_keys_upto(n2, parent, h, pn + 1));
        assert(kp_o == subtree_keys_upto(o, parent, h, pn + 1));
        if node_keys(np).contains(k) {
            let i = choose|i: int| 0 <= i < np.n && np.keys@[i] == k;
            if i == idx {
                assert(k == newsep);
                assert(subtree_keys_full(o, c, h1).contains(k));
                assert(k != key);
            } else {
                assert(po.keys@[i] == k);
                assert(node_keys(po).contains(k));
                assert(k != key) by {
                    if i < idx {
                        assert(po.keys@[i] < po.keys@[idx]);
                    } else {
                        assert(po.keys@[idx] < po.keys@[i]);
                    }
                }
            }
        } else {
            let j = choose|j: int|
                0 <= j <= pn && subtree_keys_full(
                    n2,
                    #[trigger] (po.children@[j] as int),
                    h1,
                ).contains(k);
            if j == idx {
                assert(subtree_keys_full(o, c, h1).remove(newsep).contains(k));
                assert((k as int) < key as int);
            } else {
                assert(subtree_keys_full(o, po.children@[j] as int, h1).contains(k));
                if k == key {
                    assert(node_inv(
                        o,
                        po.children@[j] as int,
                        h1,
                        t,
                        child_lo(po, j, lo),
                        child_hi(po, j, hi),
                        false,
                    ));
                    lemma_subtree_bounded(
                        o,
                        po.children@[j] as int,
                        h1,
                        t,
                        child_lo(po, j, lo),
                        child_hi(po, j, hi),
                        false,
                        o[po.children@[j] as int].n + 1,
                    );
                    assert(subtree_keys_upto(
                        o,
                        po.children@[j] as int,
                        h1,
                        o[po.children@[j] as int].n + 1,
                    ).contains(k));
                    if j < idx {
                        assert(child_hi(po, j, hi) <= key as int);
                    } else {
                        assert(key as int <= child_lo(po, j, lo));
                    }
                    assert(false);
                }
            }
        }
    }
    assert forall|k: u64| #[trigger] kp_o.remove(key).contains(k) implies kp_n.contains(k) by {
        lemma_subtree_decompose(n2, parent, h, pn + 1, k);
        lemma_subtree_decompose(o, parent, h, pn + 1, k);
        assert(kp_n == subtree_keys_upto(n2, parent, h, pn + 1));
        assert(kp_o == subtree_keys_upto(o, parent, h, pn + 1));
        if node_keys(po).contains(k) {
            let i = choose|i: int| 0 <= i < po.n && po.keys@[i] == k;
            assert(i != idx);
            assert(np.keys@[i] == k);
            assert(node_keys(np).contains(k));
        } else {
            let j = choose|j: int|
                0 <= j <= pn && subtree_keys_full(
                    o,
                    #[trigger] (po.children@[j] as int),
                    h1,
                ).contains(k);
            if j == idx {
                if k == newsep {
                    assert(np.keys@[idx] == k);
                    assert(node_keys(np).contains(k));
                } else {
                    assert(subtree_keys_full(n2, c, h1).contains(k));
                }
            } else {
                assert(subtree_keys_full(n2, po.children@[j] as int, h1).contains(k));
            }
        }
    }
    assert(kp_n =~= kp_o.remove(key));
}

/// Lifts the deletion of a separator through its in-order successor: the
/// successor `newsep` has been removed from the child at `idx + 1` and
/// then written over the parent's key at `idx`.
#[verifier::rlimit(100)]
proof fn lemma_replace_sep_succ(
    o: Seq<BtreeNode>,
    n2: Seq<BtreeNode>,
    parent: int,
    idx: int,
    newsep: u64,
    h: nat,
    t: int,
    lo: int,
    hi: int,
)
    requires
        node_inv(o, parent, h, t, lo, hi, true),
        ids_ok(o, parent, h),
        h >= 1,
        0 <= idx < o[parent].n,
        n2.len() == o.len(),
        node_inv(
            n2,
            o[parent].children@[idx + 1] as int,
            (h - 1) as nat,
            t,
            o[parent].keys@[idx] as int,
            child_hi(o[parent], idx + 1, hi),
            true,
        ),
        n2[o[parent].children@[idx + 1] as int].n >= t - 1,
        ids_ok(n2, o[parent].children@[idx + 1] as int, (h - 1) as nat),
        subtree_keys_full(n2, o[parent].children@[idx + 1] as int, (h - 1) as nat)
            == subtree_keys_full(o, o[parent].children@[idx + 1] as int, (h - 1) as nat).remove(
            newsep,
        ),
        subtree_keys_full(o, o[parent].children@[idx + 1] as int, (h - 1) as nat).contains(newsep),
        forall|k: u64|
            #[trigger] subtree_keys_full(o, o[parent].children@[idx + 1] as int, (h - 1) as nat)
                .contains(k) ==> k >= newsep,
        forall|j: int|
            0 <= j < o.len() && !subtree_ids_full(
                o,
                o[parent].children@[idx + 1] as int,
                (h - 1) as nat,
            ).contains(j) && j != parent ==> n2[j] == #[trigger] o[j],
        forall|j: int|
            #[trigger] subtree_ids_full(n2, o[parent].children@[idx + 1] as int, (h - 1) as nat)
                .contains(j) ==> subtree_ids_full(
                o,
                o[parent].children@[idx + 1] as int,
                (h - 1) as nat,
            ).contains(j),
        n2[parent].n == o[parent].n,
        n2[parent].keys@.len() == o[parent].keys@.len(),
        n2[parent].children@ == o[parent].children@,
        n2[parent].is_leaf == o[parent].is_leaf,
        forall|j: int| 0 <= j < o[parent].n && j != idx ==> n2[parent].keys@[j] == o[parent].keys@[j],
        n2[parent].keys@[idx] == newsep,
    ensures
        node_inv(n2, parent, h, t, lo, hi, true),
        ids_ok(n2, parent, h),
        subtree_keys_full(n2, parent, h) == subtree_keys_full(o, parent, h).remove(
            o[parent].keys@[idx],
        ),
        forall|j: int|
            0 <= j < o.len() && !subtree_ids_full(o, parent, h).contains(j) ==> n2[j]
                == #[trigger] o[j],
        forall|j: int|
            #[trigger] subtree_ids_full(n2, parent, h).contains(j) ==> subtree_ids_full(
                o,
                parent,
                h,
            ).contains(j),
        forall|j: int|
            0 <= j <= o[parent].n && j != idx + 1 ==> subtree_ids_full(
                n2,
                #[trigger] (o[parent].children@[j] as int),
                (h - 1) as nat,
            ) == subtree_ids_full(o, o[parent].children@[j] as int, (h - 1) as nat),
{
    let h1 = (h - 1) as nat;
    let po = o[parent];
    let np = n2[parent];
    let pn = po.n as int;
    let c = po.children@[idx + 1] as int;
    let key = po.keys@[idx];
    let hi_c = child_hi(po, idx + 1, hi);
    let sc_o = subtree_ids_full(o, c, h1);
    lemma_ids_base(o, parent, h, pn + 1);
    lemma_ids_child_sub(o, parent, h, idx + 1);
    lemma_ids_base(o, c, h1, o[c].n + 1);
    assert(subtree_ids_full(o, parent, h).contains(parent));
    assert(sc_o.contains(c));
    assert(!sc_o.contains(parent));
    assert(node_inv(o, c, h1, t, key as int, hi_c, false));
    lemma_subtree_bounded(o, c, h1, t, key as int, hi_c, false, o[c].n + 1);
    assert(subtree_keys_full(o, c, h1) == subtree_keys_upto(o, c, h1, o[c].n + 1));
    assert((key as int) < (newsep as int) && (newsep as int) < hi_c);

    assert forall|j: int| 0 <= j <= pn && j != idx + 1 implies {
        &&& node_inv(
            n2,
            #[trigger] (po.children@[j] as int),
            h1,
            t,
            child_lo(po, j, lo),
            child_hi(po, j, hi),
            false,
        )
        &&& subtree_ids_full(n2, po.children@[j] as int, h1) == subtree_ids_full(
            o,
            po.children@[j] as int,
            h1,
        )
        &&& subtree_keys_full(n2, po.children@[j] as int, h1) == subtree_keys_full(
            o,
            po.children@[j] as int,
            h1,
        )
        &&& ids_ok(n2, po.children@[j] as int, h1)
    } by {
        let cj = po.children@[j] as int;
        assert(node_inv(o, cj, h1, t, child_lo(po, j, lo), child_hi(po, j, hi), false));
        lemma_ids_child_sub(o, parent, h, j);
        lemma_ids_bounded(
            o,
            cj,
            h1,
            t,
            child_lo(po, j, lo),
            child_hi(po, j, hi),
            false,
            o[cj].n + 1,
        );
        if j < idx + 1 {
            assert(subtree_ids_full(o, cj, h1).disjoint(sc_o));
        } else {
            assert(sc_o.disjoint(subtree_ids_full(o, cj, h1)));
        }
        assert forall|x: int| #[trigger]
            subtree_ids_full(o, cj, h1).contains(x) implies n2[x] == o[x] by {
            assert(subtree_ids_full(o, cj, h1) == subtree_ids_upto(o, cj, h1, o[cj].n + 1));
            assert(!sc_o.contains(x));
            assert(x != parent);
            assert(0 <= x < o.len());
        }
        lemma_frame(o, n2, cj, h1, t, child_lo(po, j, lo), child_hi(po, j, hi), false);
    }

    // The deepened child fits above the new, larger separator.
    assert(node_inv(n2, c, h1, t, newsep as int, hi_c, true)) by {
        lemma_subtree_bounded(n2, c, h1, t, key as int, hi_c, true, n2[c].n + 1);
        assert forall|k: u64| #[trigger]
            subtree_keys_full(n2, c, h1).contains(k) implies (newsep as int) < (k as int)
            < hi_c by {
            assert(subtree_keys_full(n2, c, h1) == subtree_keys_upto(n2, c, h1, n2[c].n + 1));
            assert(subtree_keys_full(o, c, h1).remove(newsep).contains(k));
            assert(k >= newsep && k != newsep);
        }
        lemma_bounds_tighten(n2, c, h1, t, key as int, hi_c, newsep as int, hi_c, true);
    }

    assert forall|a: int, b: int| 0 <= a < b < np.n implies #[trigger] np.keys@[a]
        < #[trigger] np.keys@[b] by {
        if a == idx {
            assert(np.keys@[b] == po.keys@[b]);
            assert((newsep as int) < hi_c);
            assert(b == idx + 1 ==> hi_c == po.keys@[b] as int);
            assert(b > idx + 1 ==> po.keys@[idx + 1] <= po.keys@[b]);
        } else if b == idx {
            assert(np.keys@[a] == po.keys@[a]);
            assert((po.keys@[a] as int) <= child_lo(po, idx, lo) || a == idx - 1);
            assert(po.keys@[a] as int <= (key as int) - 1 || po.keys@[a] < key);
        }
    }
    assert forall|a: int| 0 <= a < np.n implies lo < #[trigger] (np.keys@[a] as int) < hi by {
        if a != idx {
            assert(np.keys@[a] == po.keys@[a]);
        } else {
            assert(lo < (key as int));
            assert(hi_c <= hi);
        }
    }
    assert forall|j: int| 0 <= j <= np.n implies node_inv(
        n2,
        #[trigger] (np.children@[j] as int),
        h1,
        t,
        child_lo(np, j, lo),
        child_hi(np, j, hi),
        false,
    ) by {
        if j == idx + 1 {
            assert(np.children@[j] == po.children@[idx + 1]);
            assert(child_lo(np, j, lo) == newsep as int);
            assert(child_hi(np, j, hi) == hi_c);
            assert(n2[c].n >= t - 1);
        } else if j == idx {
            assert(np.children@[j] == po.children@[j]);
            assert(child_lo(np, j, lo) == child_lo(po, j, lo));
            assert(child_hi(np, j, hi) == newsep as int);
            lemma_bounds_widen(
                n2,
                po.children@[j] as int,
                h1,
                t,
                child_lo(po, j, lo),
                key as int,
                child_lo(po, j, lo),
                newsep as int,
                false,
            );
        } else {
            assert(np.children@[j] == po.children@[j]);
            assert(child_lo(np, j, lo) == child_lo(po, j, lo));
            assert(child_hi(np, j, hi) == child_hi(po, j, hi));
        }
    }
    assert(node_inv(n2, parent, h, t, lo, hi, true));

    assert forall|x: int| #[trigger]
        subtree_ids_full(n2, parent, h).contains(x) implies subtree_ids_full(
        o,
        parent,
        h,
    ).contains(x) by {
        lemma_ids_decompose(n2, parent, h, pn + 1, x);
        assert(subtree_ids_full(n2, parent, h) == subtree_ids_upto(n2, parent, h, pn + 1));
        if x != parent {
            let j = choose|j: int|
                0 <= j <= pn && subtree_ids_full(
                    n2,
                    #[trigger] (np.children@[j] as int),
                    h1,
                ).contains(x);
            assert(np.children@[j] == po.children@[j]);
            lemma_ids_child_sub(o, parent, h, j);
            if j != idx + 1 {
                assert(subtree_ids_full(o, po.children@[j] as int, h1).contains(x));
            } else {
                assert(sc_o.contains(x));
            }
        }
    }
    assert forall|j: int|
        0 <= j < o.len() && !subtree_ids_full(o, parent, h).contains(j) implies n2[j]
        == #[trigger] o[j] by {
        if sc_o.contains(j) {
            assert(subtree_ids_full(o, parent, h).contains(j));
            assert(false);
        }
    }
    assert(ids_ok(n2, parent, h)) by {
        assert forall|a: int, b: int| 0 <= a < b <= pn implies subtree_ids_full(
            n2,
            #[trigger] (np.children@[a] as int),
            h1,
        ).disjoint(subtree_ids_full(n2, #[trigger] (np.children@[b] as int), h1)) by {
            let sa = subtree_ids_full(n2, np.children@[a] as int, h1);
            let sb = subtree_ids_full(n2, np.children@[b] as int, h1);
            assert(np.children@[a] == po.children@[a]);
            assert(np.children@[b] == po.children@[b]);
            assert forall|x: int| #[trigger] sa.contains(x) implies !sb.contains(x) by {
                if sb.contains(x) {
                    assert(subtree_ids_full(o, po.children@[a] as int, h1).contains(x));
                    assert(subtree_ids_full(o, po.children@[b] as int, h1).contains(x));
                    assert(false);
                }
            }
        }
        assert forall|a: int| 0 <= a <= pn implies !subtree_ids_full(
            n2,
            #[trigger] (np.children@[a] as int),
            h1,
        ).contains(parent) by {
            assert(np.children@[a] == po.children@[a]);
            if subtree_ids_full(n2, po.children@[a] as int, h1).contains(parent) {
                assert(subtree_ids_full(o, po.children@[a] as int, h1).contains(parent));
                assert(false);
            }
        }
        assert forall|a: int| 0 <= a <= pn implies ids_ok(
            n2,
            #[trigger] (np.children@[a] as int),
            h1,
        ) by {
            assert(np.children@[a] == po.children@[a]);
        }
    }

    let kp_o = subtree_keys_full(o, parent, h);
    let kp_n = subtree_keys_full(n2, parent, h);
    assert forall|k: u64| #[trigger] kp_n.contains(k) implies kp_o.remove(key).contains(k) by {
        lemma_subtree_decompose(n2, parent, h, pn + 1, k);
        lemma_subtree_decompose(o, parent, h, pn + 1, k);
        assert(kp_n == subtree_keys_upto(n2, parent, h, pn + 1));
        assert(kp_o == subtree_keys_upto(o, parent, h, pn + 1));
        if node_keys(np).contains(k) {
            let i = choose|i: int| 0 <= i < np.n && np.keys@[i] == k;
            if i == idx {
                assert(k == newsep);
                assert(subtree_keys_full(o, c, h1).contains(k));
                assert(k != key);
            } else {
                assert(po.keys@[i] == k);
                assert(node_keys(po).contains(k));
                assert(k != key) by {
                    if i < idx {
                        assert(po.keys@[i] < po.keys@[idx]);
                    } else {
                        assert(po.keys@[idx] < po.keys@[i]);
                    }
                }
            }
        } else {
            let j = choose|j: int|
                0 <= j <= pn && subtree_keys_full(
                    n2,
                    #[trigger] (po.children@[j] as int),
                    h1,
                ).contains(k);
            if j == idx + 1 {
                assert(subtree_keys_full(o, c, h1).remove(newsep).contains(k));
                assert((k as int) > key as int);
            } else {
                assert(subtree_keys_full(o, po.children@[j] as int, h1).contains(k));
                if k == key {
                    assert(node_inv(
                        o,
                        po.children@[j] as int,
                        h1,
                        t,
                        child_lo(po, j, lo),
                        child_hi(po, j, hi),
                        false,
                    ));
                    lemma_subtree_bounded(
                        o,
                        po.children@[j] as int,
                        h1,
                        t,
                        child_lo(po, j, lo),
                        child_hi(po, j, hi),
                        false,
                        o[po.children@[j] as int].n + 1,
                    );
                    assert(subtree_keys_upto(
                        o,
                        po.children@[j] as int,
                        h1,
                        o[po.children@[j] as int].n + 1,
                    ).contains(k));
                    if j < idx + 1 {
                        assert(child_hi(po, j, hi) <= key as int);
                    } else {
                        assert(key as int <= child_lo(po, j, lo));
                    }
                    assert(false);
                }
            }
        }
    }
    assert forall|k: u64| #[trigger] kp_o.remove(key).contains(k) implies kp_n.contains(k) by {
        lemma_subtree_decompose(n2, parent, h, pn + 1, k);
        lemma_subtree_decompose(o, parent, h, pn + 1, k);
        assert(kp_n == subtree_keys_upto(n2, parent, h, pn + 1));
        assert(kp_o == subtree_keys_upto(o, parent, h, pn + 1));
        if node_keys(po).contains(k) {
            let i = choose|i: int| 0 <= i < po.n && po.keys@[i] == k;
            assert(i != idx);
            assert(np.keys@[i] == k);
            assert(node_keys(np).contains(k));
        } else {
            let j = choose|j: int|
                0 <= j <= pn && subtree_keys_full(
                    o,
                    #[trigger] (po.children@[j] as int),
                    h1,
                ).contains(k);
            if j == idx + 1 {
                if k == newsep {
                    assert(np.keys@[idx] == k);
                    assert(node_keys(np).contains(k));
                } else {
                    assert(subtree_keys_full(n2, c, h1).contains(k));
                }
            } else {
                assert(subtree_keys_full(n2, po.children@[j] as int, h1).contains(k));
            }
        }
    }
    assert(kp_n =~= kp_o.remove(key));
}

/// Re-establishes the B-tree invariant after the mirror-image rotation:
/// the separator at `ci` moves down to the end of the child `c`, the
/// first key of the right sibling `r` moves up into its place, and (for
/// internal nodes) the sibling's first child moves to the end of the
/// child.
#[verifier::rlimit(100)]
proof fn lemma_borrow_right(
    o: Seq<BtreeNode>,
    n2: Seq<BtreeNode>,
    p: int,
    c: int,
    r: int,
    ci: int,
    h: nat,
    t: int,
    lo: int,
    hi: int,
)
    requires
        node_inv(o, p, h, t, lo, hi, true),
        ids_ok(o, p, h),
        h >= 1,
        0 <= ci < o[p].n,
        c == o[p].children@[ci] as int,
        r == o[p].children@[ci + 1] as int,
        o[r].n >= t,
        t - 1 <= o[c].n < 2 * t - 1,
        n2.len() == o.len(),
        forall|j: int|
            0 <= j < o.len() && j != p && j != c && j != r ==> n2[j] == #[trigger] o[j],
        n2[p].n == o[p].n,
        n2[p].keys@.len() == o[p].keys@.len(),
        n2[p].children@ == o[p].children@,
        n2[p].is_leaf == o[p].is_leaf,
        forall|j: int| 0 <= j < o[p].n && j != ci ==> n2[p].keys@[j] == o[p].keys@[j],
        n2[p].keys@[ci] == o[r].keys@[0],
        n2[r].n == o[r].n - 1,
        n2[r].is_leaf == o[r].is_leaf,
        n2[r].keys@.len() == o[r].keys@.len(),
        n2[r].children@.len() == o[r].children@.len(),
        forall|j: int| 0 <= j < o[r].n - 1 ==> n2[r].keys@[j] == o[r].keys@[j + 1],
        !o[r].is_leaf ==> forall|j: int|
            0 <= j < o[r].n ==> n2[r].children@[j] == o[r].children@[j + 1],
        n2[c].n == o[c].n + 1,
        n2[c].is_leaf == o[c].is_leaf,
        n2[c].keys@.len() == o[c].keys@.len(),
        n2[c].children@.len() == o[c].children@.len(),
        n2[c].keys@[o[c].n as int] == o[p].keys@[ci],
        forall|j: int| 0 <= j < o[c].n ==> n2[c].keys@[j] == o[c].keys@[j],
        !o[c].is_leaf ==> n2[c].children@[o[c].n + 1] == o[r].children@[0],
        !o[c].is_leaf ==> forall|j: int|
            0 <= j <= o[c].n ==> n2[c].children@[j] == o[c].children@[j],
    ensures
        node_inv(n2, p, h, t, lo, hi, true),
        ids_ok(n2, p, h),
        subtree_keys_full(n2, p, h) == subtree_keys_full(o, p, h),
        forall|x: int|
            #[trigger] subtree_ids_full(n2, p, h).contains(x) ==> subtree_ids_full(
                o,
                p,
                h,
            ).contains(x),
{
    let po = o[p];
    let np = n2[p];
    let orr = o[r];
    let oc = o[c];
    let pn = po.n as int;
    let h1 = (h - 1) as nat;
    let rn = orr.n as int;
    let cn = oc.n as int;
    let sep = po.keys@[ci];
    let dnk = orr.keys@[0];
    let lo_c = child_lo(po, ci, lo);
    let hi_r = child_hi(po, ci + 1, hi);
    assert(node_inv(o, c, h1, t, lo_c, sep as int, false));
    assert(node_inv(o, r, h1, t, sep as int, hi_r, false));
    assert(ids_ok(o, c, h1));
    assert(ids_ok(o, r, h1));
    lemma_ids_base(o, c, h1, cn + 1);
    lemma_ids_base(o, r, h1, rn + 1);
    lemma_ids_base(o, p, h, pn + 1);
    lemma_ids_child_sub(o, p, h, ci);
    lemma_ids_child_sub(o, p, h, ci + 1);
    assert(subtree_ids_full(o, c, h1).contains(c));
    assert(subtree_ids_full(o, r, h1).contains(r));
    assert(subtree_ids_full(o, p, h).contains(p));
    assert(subtree_ids_full(o, p, h).contains(c));
    assert(subtree_ids_full(o, p, h).contains(r));
    assert(subtree_ids_full(o, c, h1).disjoint(subtree_ids_full(o, r, h1)));
    assert(c != r && c != p && r != p);
    assert((sep as int) < (dnk as int) && (dnk as int) < hi_r);

    // Siblings other than the rotated pair are untouched.
    assert forall|j: int| 0 <= j <= pn && j != ci && j != ci + 1 implies {
        &&& node_inv(
            n2,
            #[trigger] (po.children@[j] as int),
            h1,
            t,
            child_lo(po, j, lo),
            child_hi(po, j, hi),
            false,
        )
        &&& subtree_ids_full(n2, po.children@[j] as int, h1) == subtree_ids_full(
            o,
            po.children@[j] as int,
            h1,
        )
        &&& subtree_keys_full(n2, po.children@[j] as int, h1) == subtree_keys_full(
            o,
            po.children@[j] as int,
            h1,
        )
        &&& ids_ok(n2, po.children@[j] as int, h1)
    } by {
        let cj = po.children@[j] as int;
        assert(node_inv(o, cj, h1, t, child_lo(po, j, lo), child_hi(po, j, hi), false));
        lemma_ids_child_sub(o, p, h, j);
        lemma_ids_bounded(
            o,
            cj,
            h1,
            t,
            child_lo(po, j, lo),
            child_hi(po, j, hi),
            false,
            o[cj].n + 1,
        );
        assert forall|x: int| #[trigger]
            subtree_ids_full(o, cj, h1).contains(x) implies n2[x] == o[x] by {
            assert(subtree_ids_full(o, cj, h1) == subtree_ids_upto(o, cj, h1, o[cj].n + 1));
            if j < ci {
                assert(subtree_ids_full(o, cj, h1).disjoint(subtree_ids_full(o, c, h1)));
                assert(subtree_ids_full(o, cj, h1).disjoint(subtree_ids_full(o, r, h1)));
            } else {
                assert(subtree_ids_full(o, c, h1).disjoint(subtree_ids_full(o, cj, h1)));
                assert(subtree_ids_full(o, r, h1).disjoint(subtree_ids_full(o, cj, h1)));
            }
            assert(x != p && x != c && x != r && 0 <= x < o.len());
        }
        lemma_frame(o, n2, cj, h1, t, child_lo(po, j, lo), child_hi(po, j, hi), false);
    }

    // Grandchildren under the rotated pair are untouched.
    if h >= 2 {
        let h2 = (h - 2) as nat;
        assert forall|m: int| 0 <= m <= cn implies {
            &&& node_inv(
                n2,
                #[trigger] (oc.children@[m] as int),
                h2,
                t,
                child_lo(oc, m, lo_c),
                child_hi(oc, m, sep as int),
                false,
            )
            &&& subtree_ids_full(n2, oc.children@[m] as int, h2) == subtree_ids_full(
                o,
                oc.children@[m] as int,
                h2,
            )
            &&& subtree_keys_full(n2, oc.children@[m] as int, h2) == subtree_keys_full(
                o,
                oc.children@[m] as int,
                h2,
            )
            &&& ids_ok(n2, oc.children@[m] as int, h2)
        } by {
            let g = oc.children@[m] as int;
            assert(node_inv(o, g, h2, t, child_lo(oc, m, lo_c), child_hi(oc, m, sep as int), false));
            lemma_ids_child_sub(o, c, h1, m);
            lemma_ids_bounded(
                o,
                g,
                h2,
                t,
                child_lo(oc, m, lo_c),
                child_hi(oc, m, sep as int),
                false,
                o[g].n + 1,
            );
            assert forall|x: int| #[trigger]
                subtree_ids_full(o, g, h2).contains(x) implies n2[x] == o[x] by {
                assert(subtree_ids_full(o, g, h2) == subtree_ids_upto(o, g, h2, o[g].n + 1));
                assert(subtree_ids_full(o, c, h1).contains(x));
                assert(!subtree_ids_full(o, g, h2).contains(c));
                assert(x != p && x != c && x != r && 0 <= x < o.len());
            }
            lemma_frame(o, n2, g, h2, t, child_lo(oc, m, lo_c), child_hi(oc, m, sep as int), false);
        }
        assert forall|m: int| 0 <= m <= rn implies {
            &&& node_inv(
                n2,
                #[trigger] (orr.children@[m] as int),
                h2,
                t,
                child_lo(orr, m, sep as int),
                child_hi(orr, m, hi_r),
                false,
            )
            &&& subtree_ids_full(n2, orr.children@[m] as int, h2) == subtree_ids_full(
                o,
                orr.children@[m] as int,
                h2,
            )
            &&& subtree_keys_full(n2, orr.children@[m] as int, h2) == subtree_keys_full(
                o,
                orr.children@[m] as int,
                h2,
            )
            &&& ids_ok(n2, orr.children@[m] as int, h2)
        } by {
            let g = orr.children@[m] as int;
            assert(node_inv(
                o,
                g,
                h2,
                t,
                child_lo(orr, m, sep as int),
                child_hi(orr, m, hi_r),
                false,
            ));
            lemma_ids_child_sub(o, r, h1, m);
            lemma_ids_bounded(
                o,
                g,
                h2,
                t,
                child_lo(orr, m, sep as int),
                child_hi(orr, m, hi_r),
                false,
                o[g].n + 1,
            );
            assert forall|x: int| #[trigger]
                subtree_ids_full(o, g, h2).contains(x) implies n2[x] == o[x] by {
                assert(subtree_ids_full(o, g, h2) == subtree_ids_upto(o, g, h2, o[g].n + 1));
                assert(subtree_ids_full(o, r, h1).contains(x));
                assert(!subtree_ids_full(o, g, h2).contains(r));
                assert(subtree_ids_full(o, c, h1).disjoint(subtree_ids_full(o, r, h1)));
                assert(x != p && x != c && x != r && 0 <= x < o.len());
            }
            lemma_frame(o, n2, g, h2, t, child_lo(orr, m, sep as int), child_hi(orr, m, hi_r), false);
        }
    }

    // The shrunk sibling keeps the invariant above the key it gave up.
    assert(node_inv(n2, r, h1, t, dnk as int, hi_r, false)) by {
        let nr = n2[r];
        assert forall|a: int| 0 <= a < nr.n implies (dnk as int) < #[trigger] (nr.keys@[a] as int)
            < hi_r by {
            assert(nr.keys@[a] == orr.keys@[a + 1]);
            assert(orr.keys@[0] < orr.keys@[a + 1]);
        }
        assert forall|a: int, b: int| 0 <= a < b < nr.n implies #[trigger] nr.keys@[a]
            < #[trigger] nr.keys@[b] by {
            assert(nr.keys@[a] == orr.keys@[a + 1] && nr.keys@[b] == orr.keys@[b + 1]);
        }
        if h >= 2 {
            assert forall|m: int| 0 <= m <= nr.n implies node_inv(
                n2,
                #[trigger] (nr.children@[m] as int),
                (h - 2) as nat,
                t,
                child_lo(nr, m, dnk as int),
                child_hi(nr, m, hi_r),
                false,
            ) by {
                assert(nr.children@[m] == orr.children@[m + 1]);
                assert(child_lo(nr, m, dnk as int) == child_lo(orr, m + 1, sep as int));
                assert(child_hi(nr, m, hi_r) == child_hi(orr, m + 1, hi_r));
            }
        }
    }

    // The grown child keeps the invariant below it.
    assert(node_inv(n2, c, h1, t, lo_c, dnk as int, false)) by {
        let nc = n2[c];
        assert forall|a: int| 0 <= a < nc.n implies lo_c < #[trigger] (nc.keys@[a] as int) < (
        dnk as int) by {
            if a == cn {
            } else {
                assert(nc.keys@[a] == oc.keys@[a]);
            }
        }
        assert forall|a: int, b: int| 0 <= a < b < nc.n implies #[trigger] nc.keys@[a]
            < #[trigger] nc.keys@[b] by {
            if b == cn {
                assert(nc.keys@[a] == oc.keys@[a]);
                assert((oc.keys@[a] as int) < sep as int);
            } else {
                assert(nc.keys@[a] == oc.keys@[a] && nc.keys@[b] == oc.keys@[b]);
            }
        }
        if h >= 2 {
            assert forall|m: int| 0 <= m <= nc.n implies node_inv(
                n2,
                #[trigger] (nc.children@[m] as int),
                (h - 2) as nat,
                t,
                child_lo(nc, m, lo_c),
                child_hi(nc, m, dnk as int),
                false,
            ) by {
                if m == cn + 1 {
                    assert(nc.children@[m] == orr.children@[0]);
                    assert(child_lo(nc, m, lo_c) == nc.keys@[cn]);
                    assert(nc.keys@[cn] == sep);
                    assert(child_lo(orr, 0, sep as int) == sep as int);
                    assert(child_hi(nc, m, dnk as int) == dnk as int);
                    assert(child_hi(orr, 0, hi_r) == orr.keys@[0] as int);
                } else {
                    assert(nc.children@[m] == oc.children@[m]);
                    assert(child_lo(nc, m, lo_c) == child_lo(oc, m, lo_c));
                    assert(child_hi(nc, m, dnk as int) == child_hi(oc, m, sep as int));
                }
            }
        }
    }

    // The parent with the new separator.
    assert forall|a: int, b: int| 0 <= a < b < np.n implies #[trigger] np.keys@[a]
        < #[trigger] np.keys@[b] by {
        if a == ci {
            assert(np.keys@[b] == po.keys@[b]);
            assert((dnk as int) < hi_r);
            assert(hi_r <= po.keys@[b] as int || b == ci + 1 && hi_r == po.keys@[ci + 1] as int);
        } else if b == ci {
            assert(np.keys@[a] == po.keys@[a]);
            assert((po.keys@[a] as int) <= lo_c);
            assert(lo_c < sep as int);
        }
    }
    assert forall|a: int| 0 <= a < np.n implies lo < #[trigger] (np.keys@[a] as int) < hi by {
        if a != ci {
            assert(np.keys@[a] == po.keys@[a]);
        } else {
            assert(lo <= lo_c);
            assert(hi_r <= hi);
        }
    }
    assert forall|j: int| 0 <= j <= np.n implies node_inv(
        n2,
        #[trigger] (np.children@[j] as int),
        h1,
        t,
        child_lo(np, j, lo),
        child_hi(np, j, hi),
        false,
    ) by {
        if j == ci {
            assert(np.children@[j] == c);
            assert(child_lo(np, j, lo) == lo_c);
            assert(child_hi(np, j, hi) == dnk as int);
        } else if j == ci + 1 {
            assert(np.children@[j] == r);
            assert(child_lo(np, j, lo) == dnk as int);
            assert(child_hi(np, j, hi) == hi_r);
        } else {
            assert(np.children@[j] == po.children@[j]);
            assert(child_lo(np, j, lo) == child_lo(po, j, lo));
            assert(child_hi(np, j, hi) == child_hi(po, j, hi));
        }
    }
    assert(node_inv(n2, p, h, t, lo, hi, true));

    // Slot accounting mirrors the left rotation.
    let sr_n = subtree_ids_full(n2, r, h1);
    let sc_n = subtree_ids_full(n2, c, h1);
    assert forall|x: int| #[trigger] sr_n.contains(x) implies subtree_ids_full(
        o,
        r,
        h1,
    ).contains(x) by {
        lemma_ids_decompose(n2, r, h1, rn, x);
        assert(sr_n == subtree_ids_upto(n2, r, h1, rn));
        if x != r {
            let m = choose|m: int|
                0 <= m < rn && subtree_ids_full(
                    n2,
                    #[trigger] (n2[r].children@[m] as int),
                    (h1 - 1) as nat,
                ).contains(x);
            assert(n2[r].children@[m] == orr.children@[m + 1]);
            lemma_ids_child_sub(o, r, h1, m + 1);
            assert(subtree_ids_full(o, orr.children@[m + 1] as int, (h1 - 1) as nat).contains(x));
        }
    }
    assert forall|x: int| #[trigger] sc_n.contains(x) implies (subtree_ids_full(
        o,
        c,
        h1,
    ).contains(x) || subtree_ids_full(o, r, h1).contains(x)) by {
        lemma_ids_decompose(n2, c, h1, cn + 2, x);
        assert(sc_n == subtree_ids_upto(n2, c, h1, cn + 2));
        if x != c {
            let m = choose|m: int|
                0 <= m < cn + 2 && subtree_ids_full(
                    n2,
                    #[trigger] (n2[c].children@[m] as int),
                    (h1 - 1) as nat,
                ).contains(x);
            if m == cn + 1 {
                assert(n2[c].children@[m] == orr.children@[0]);
                lemma_ids_child_sub(o, r, h1, 0);
                assert(subtree_ids_full(o, orr.children@[0] as int, (h1 - 1) as nat).contains(x));
            } else {
                assert(n2[c].children@[m] == oc.children@[m]);
                lemma_ids_child_sub(o, c, h1, m);
                assert(subtree_ids_full(o, oc.children@[m] as int, (h1 - 1) as nat).contains(x));
            }
        }
    }
    assert forall|x: int| #[trigger] sc_n.contains(x) implies !sr_n.contains(x) by {
        if sr_n.contains(x) {
            assert(subtree_ids_full(o, r, h1).contains(x));
            if subtree_ids_full(o, c, h1).contains(x) {
                assert(false);
            }
            if x == c {
                assert(subtree_ids_full(o, r, h1).contains(c));
                assert(subtree_ids_full(o, c, h1).contains(c));
                assert(false);
            }
            lemma_ids_decompose(n2, c, h1, cn + 2, x);
            assert(sc_n == subtree_ids_upto(n2, c, h1, cn + 2));
            let m = choose|m: int|
                0 <= m < cn + 2 && subtree_ids_full(
                    n2,
                    #[trigger] (n2[c].children@[m] as int),
                    (h1 - 1) as nat,
                ).contains(x);
            if m < cn + 1 {
                assert(n2[c].children@[m] == oc.children@[m]);
                lemma_ids_child_sub(o, c, h1, m);
                assert(subtree_ids_full(o, c, h1).contains(x));
                assert(false);
            }
            // `x` lies under the moved grandchild, yet also under the
            // shrunk sibling: two disjoint parts of the old sibling.
            assert(n2[c].children@[cn + 1] == orr.children@[0]);
            assert(subtree_ids_full(o, orr.children@[0] as int, (h1 - 1) as nat).contains(x));
            lemma_ids_decompose(n2, r, h1, rn, x);
            assert(sr_n == subtree_ids_upto(n2, r, h1, rn));
            if x == r {
                assert(!subtree_ids_full(o, orr.children@[0] as int, (h1 - 1) as nat).contains(r));
                assert(false);
            }
            let m2 = choose|m2: int|
                0 <= m2 < rn && subtree_ids_full(
                    n2,
                    #[trigger] (n2[r].children@[m2] as int),
                    (h1 - 1) as nat,
                ).contains(x);
            assert(n2[r].children@[m2] == orr.children@[m2 + 1]);
            assert(subtree_ids_full(o, orr.children@[m2 + 1] as int, (h1 - 1) as nat).contains(x));
            assert(subtree_ids_full(o, orr.children@[0] as int, (h1 - 1) as nat).disjoint(
                subtree_ids_full(o, orr.children@[m2 + 1] as int, (h1 - 1) as nat),
            ));
            assert(false);
        }
    }
    assert(ids_ok(n2, r, h1)) by {
        if h1 > 0 {
            assert forall|a: int, b: int| 0 <= a < b <= n2[r].n implies subtree_ids_full(
                n2,
                #[trigger] (n2[r].children@[a] as int),
                (h1 - 1) as nat,
            ).disjoint(
                subtree_ids_full(n2, #[trigger] (n2[r].children@[b] as int), (h1 - 1) as nat),
            ) by {
                assert(n2[r].children@[a] == orr.children@[a + 1]);
                assert(n2[r].children@[b] == orr.children@[b + 1]);
            }
            assert forall|a: int| 0 <= a <= n2[r].n implies !subtree_ids_full(
                n2,
                #[trigger] (n2[r].children@[a] as int),
                (h1 - 1) as nat,
            ).contains(r) by {
                assert(n2[r].children@[a] == orr.children@[a + 1]);
            }
            assert forall|a: int| 0 <= a <= n2[r].n implies ids_ok(
                n2,
                #[trigger] (n2[r].children@[a] as int),
                (h1 - 1) as nat,
            ) by {
                assert(n2[r].children@[a] == orr.children@[a + 1]);
            }
        }
    }
    assert(ids_ok(n2, c, h1)) by {
        if h1 > 0 {
            assert forall|a: int, b: int| 0 <= a < b <= n2[c].n implies subtree_ids_full(
                n2,
                #[trigger] (n2[c].children@[a] as int),
                (h1 - 1) as nat,
            ).disjoint(
                subtree_ids_full(n2, #[trigger] (n2[c].children@[b] as int), (h1 - 1) as nat),
            ) by {
                if b == cn + 1 {
                    assert(n2[c].children@[a] == oc.children@[a]);
                    assert(n2[c].children@[b] == orr.children@[0]);
                    let sa = subtree_ids_full(o, oc.children@[a] as int, (h1 - 1) as nat);
                    let sb = subtree_ids_full(o, orr.children@[0] as int, (h1 - 1) as nat);
                    lemma_ids_child_sub(o, c, h1, a);
                    lemma_ids_child_sub(o, r, h1, 0);
                    assert forall|x: int| #[trigger] sa.contains(x) implies !sb.contains(x) by {
                        if sb.contains(x) {
                            assert(subtree_ids_full(o, c, h1).contains(x));
                            assert(subtree_ids_full(o, r, h1).contains(x));
                            assert(false);
                        }
                    }
                } else {
                    assert(n2[c].children@[a] == oc.children@[a]);
                    assert(n2[c].children@[b] == oc.children@[b]);
                }
            }
            assert forall|a: int| 0 <= a <= n2[c].n implies !subtree_ids_full(
                n2,
                #[trigger] (n2[c].children@[a] as int),
                (h1 - 1) as nat,
            ).contains(c) by {
                if a == cn + 1 {
                    assert(n2[c].children@[a] == orr.children@[0]);
                    lemma_ids_child_sub(o, r, h1, 0);
                    if subtree_ids_full(o, orr.children@[0] as int, (h1 - 1) as nat).contains(c) {
                        assert(subtree_ids_full(o, r, h1).contains(c));
                        assert(false);
                    }
                } else {
                    assert(n2[c].children@[a] == oc.children@[a]);
                }
            }
            assert forall|a: int| 0 <= a <= n2[c].n implies ids_ok(
                n2,
                #[trigger] (n2[c].children@[a] as int),
                (h1 - 1) as nat,
            ) by {
                if a == cn + 1 {
                    assert(n2[c].children@[a] == orr.children@[0]);
                } else {
                    assert(n2[c].children@[a] == oc.children@[a]);
                }
            }
        }
    }
    assert(ids_ok(n2, p, h)) by {
        assert forall|a: int, b: int| 0 <= a < b <= np.n implies subtree_ids_full(
            n2,
            #[trigger] (np.children@[a] as int),
            h1,
        ).disjoint(subtree_ids_full(n2, #[trigger] (np.children@[b] as int), h1)) by {
            let sa = subtree_ids_full(n2, np.children@[a] as int, h1);
            let sb = subtree_ids_full(n2, np.children@[b] as int, h1);
            assert(np.children@[a] == po.children@[a]);
            assert(np.children@[b] == po.children@[b]);
            assert forall|x: int| #[trigger] sa.contains(x) implies !sb.contains(x) by {
                if sb.contains(x) {
                    if a == ci && b == ci + 1 {
                        assert(false);
                    } else if a == ci || a == ci + 1 {
                        assert(subtree_ids_full(o, po.children@[a] as int, h1).contains(x)
                            || subtree_ids_full(o, r, h1).contains(x));
                        assert(subtree_ids_full(o, po.children@[b] as int, h1).contains(x));
                        assert(false);
                    } else if b == ci || b == ci + 1 {
                        assert(subtree_ids_full(o, po.children@[b] as int, h1).contains(x)
                            || subtree_ids_full(o, r, h1).contains(x));
                        assert(subtree_ids_full(o, po.children@[a] as int, h1).contains(x));
                        assert(false);
                    } else {
                        assert(subtree_ids_full(o, po.children@[a] as int, h1).contains(x));
                        assert(subtree_ids_full(o, po.children@[b] as int, h1).contains(x));
                        assert(false);
                    }
                }
            }
        }
        assert forall|a: int| 0 <= a <= np.n implies !subtree_ids_full(
            n2,
            #[trigger] (np.children@[a] as int),
            h1,
        ).contains(p) by {
            assert(np.children@[a] == po.children@[a]);
            if subtree_ids_full(n2, po.children@[a] as int, h1).contains(p) {
                if a == ci {
                    assert(subtree_ids_full(o, c, h1).contains(p) || subtree_ids_full(
                        o,
                        r,
                        h1,
                    ).contains(p));
                } else if a == ci + 1 {
                    assert(subtree_ids_full(o, r, h1).contains(p));
                }
                assert(false);
            }
        }
        assert forall|a: int| 0 <= a <= np.n implies ids_ok(
            n2,
            #[trigger] (np.children@[a] as int),
            h1,
        ) by {
            assert(np.children@[a] == po.children@[a]);
        }
    }
    assert forall|x: int| #[trigger] subtree_ids_full(n2, p, h).contains(x) implies subtree_ids_full(
        o,
        p,
        h,
    ).contains(x) by {
        lemma_ids_decompose(n2, p, h, pn + 1, x);
        assert(subtree_ids_full(n2, p, h) == subtree_ids_upto(n2, p, h, pn + 1));
        if x != p {
            let j = choose|j: int|
                0 <= j < pn + 1 && subtree_ids_full(
                    n2,
                    #[trigger] (np.children@[j] as int),
                    h1,
                ).contains(x);
            assert(np.children@[j] == po.children@[j]);
            lemma_ids_child_sub(o, p, h, j);
            if j == ci {
                if subtree_ids_full(o, c, h1).contains(x) {
                } else {
                    assert(subtree_ids_full(o, r, h1).contains(x));
                    lemma_ids_child_sub(o, p, h, ci + 1);
                }
            } else if j == ci + 1 {
                assert(subtree_ids_full(o, r, h1).contains(x));
            } else {
                assert(subtree_ids_full(o, po.children@[j] as int, h1).contains(x));
            }
        }
    }
    lemma_borrow_right_keys(o, n2, p, c, r, ci, h, t, lo, hi);
}

/// The mirror rotation moves keys around but neither adds nor drops any.
#[verifier::rlimit(100)]
proof fn lemma_borrow_right_keys(
    o: Seq<BtreeNode>,
    n2: Seq<BtreeNode>,
    p: int,
    c: int,
    r: int,
    ci: int,
    h: nat,
    t: int,
    lo: int,
    hi: int,
)
    requires
        node_inv(o, p, h, t, lo, hi, true),
        h >= 1,
        0 <= ci < o[p].n,
        c == o[p].children@[ci] as int,
        r == o[p].children@[ci + 1] as int,
        o[r].n >= t,
        t - 1 <= o[c].n < 2 * t - 1,
        n2.len() == o.len(),
        n2[p].n == o[p].n,
        n2[p].children@ == o[p].children@,
        forall|j: int| 0 <= j < o[p].n && j != ci ==> n2[p].keys@[j] == o[p].keys@[j],
        n2[p].keys@[ci] == o[r].keys@[0],
        n2[r].n == o[r].n - 1,
        n2[r].keys@.len() == o[r].keys@.len(),
        n2[r].children@.len() == o[r].children@.len(),
        forall|j: int| 0 <= j < o[r].n - 1 ==> n2[r].keys@[j] == o[r].keys@[j + 1],
        !o[r].is_leaf ==> forall|j: int|
            0 <= j < o[r].n ==> n2[r].children@[j] == o[r].children@[j + 1],
        n2[c].n == o[c].n + 1,
        n2[c].keys@.len() == o[c].keys@.len(),
        n2[c].children@.len() == o[c].children@.len(),
        n2[c].keys@[o[c].n as int] == o[p].keys@[ci],
        forall|j: int| 0 <= j < o[c].n ==> n2[c].keys@[j] == o[c].keys@[j],
        !o[c].is_leaf ==> n2[c].children@[o[c].n + 1] == o[r].children@[0],
        !o[c].is_leaf ==> forall|j: int|
            0 <= j <= o[c].n ==> n2[c].children@[j] == o[c].children@[j],
        (o[c].is_leaf <==> h - 1 == 0),
        (o[r].is_leaf <==> h - 1 == 0),
        forall|j: int|
            0 <= j <= o[p].n && j != ci && j != ci + 1 ==> subtree_keys_full(
                n2,
                #[trigger] (o[p].children@[j] as int),
                (h - 1) as nat,
            ) == subtree_keys_full(o, o[p].children@[j] as int, (h - 1) as nat),
        h >= 2 ==> forall|m: int|
            0 <= m <= o[c].n ==> subtree_keys_full(
                n2,
                #[trigger] (o[c].children@[m] as int),
                (h - 2) as nat,
            ) == subtree_keys_full(o, o[c].children@[m] as int, (h - 2) as nat),
        h >= 2 ==> forall|m: int|
            0 <= m <= o[r].n ==> subtree_keys_full(
                n2,
                #[trigger] (o[r].children@[m] as int),
                (h - 2) as nat,
            ) == subtree_keys_full(o, o[r].children@[m] as int, (h - 2) as nat),
    ensures
        subtree_keys_full(n2, p, h) == subtree_keys_full(o, p, h),
{
    let po = o[p];
    let np = n2[p];
    let orr = o[r];
    let oc = o[c];
    let pn = po.n as int;
    let h1 = (h - 1) as nat;
    let rn = orr.n as int;
    let cn = oc.n as int;
    let sep = po.keys@[ci];
    assert(subtree_keys_full(n2, p, h) == subtree_keys_upto(n2, p, h, pn + 1));
    assert(subtree_keys_full(o, p, h) == subtree_keys_upto(o, p, h, pn + 1));
    assert forall|k: u64| #[trigger] subtree_keys_full(n2, p, h).contains(k) implies
        subtree_keys_full(o, p, h).contains(k) by {
        lemma_subtree_decompose(n2, p, h, pn + 1, k);
        lemma_subtree_decompose(o, p, h, pn + 1, k);
        if node_keys(np).contains(k) {
            let i = choose|i: int| 0 <= i < np.n && np.keys@[i] == k;
            if i == ci {
                assert(node_keys(orr).contains(k));
                lemma_subtree_decompose(o, r, h1, rn + 1, k);
                assert(subtree_keys_full(o, r, h1) == subtree_keys_upto(o, r, h1, rn + 1));
                assert(subtree_keys_full(o, r, h1).contains(k));
            } else {
                assert(node_keys(po).contains(k));
            }
        } else {
            let j = choose|j: int|
                0 <= j < pn + 1 && subtree_keys_full(
                    n2,
                    #[trigger] (np.children@[j] as int),
                    h1,
                ).contains(k);
            assert(np.children@[j] == po.children@[j]);
            if j == ci + 1 {
                lemma_subtree_decompose(n2, r, h1, rn, k);
                assert(subtree_keys_full(n2, r, h1) == subtree_keys_upto(n2, r, h1, rn));
                lemma_subtree_decompose(o, r, h1, rn + 1, k);
                assert(subtree_keys_full(o, r, h1) == subtree_keys_upto(o, r, h1, rn + 1));
                if node_keys(n2[r]).contains(k) {
                    let i = choose|i: int| 0 <= i < n2[r].n && n2[r].keys@[i] == k;
                    assert(orr.keys@[i + 1] == k);
                    assert(node_keys(orr).contains(k));
                } else {
                    let m = choose|m: int|
                        0 <= m < rn && subtree_keys_full(
                            n2,
                            #[trigger] (n2[r].children@[m] as int),
                            (h1 - 1) as nat,
                        ).contains(k);
                    assert(n2[r].children@[m] == orr.children@[m + 1]);
                    assert(subtree_keys_full(o, orr.children@[m + 1] as int, (h1 - 1) as nat)
                        .contains(k));
                }
                assert(subtree_keys_full(o, r, h1).contains(k));
            } else if j == ci {
                lemma_subtree_decompose(n2, c, h1, cn + 2, k);
                assert(subtree_keys_full(n2, c, h1) == subtree_keys_upto(n2, c, h1, cn + 2));
                lemma_subtree_decompose(o, c, h1, cn + 1, k);
                assert(subtree_keys_full(o, c, h1) == subtree_keys_upto(o, c, h1, cn + 1));
                if node_keys(n2[c]).contains(k) {
                    let i = choose|i: int| 0 <= i < n2[c].n && n2[c].keys@[i] == k;
                    if i == cn {
                        assert(k == sep);
                        assert(node_keys(po).contains(k));
                    } else {
                        assert(oc.keys@[i] == k);
                        assert(node_keys(oc).contains(k));
                        assert(subtree_keys_full(o, c, h1).contains(k));
                    }
                } else {
                    let m = choose|m: int|
                        0 <= m < cn + 2 && subtree_keys_full(
                            n2,
                            #[trigger] (n2[c].children@[m] as int),
                            (h1 - 1) as nat,
                        ).contains(k);
                    if m == cn + 1 {
                        assert(n2[c].children@[m] == orr.children@[0]);
                        assert(subtree_keys_full(o, orr.children@[0] as int, (h1 - 1) as nat)
                            .contains(k));
                        lemma_subtree_decompose(o, r, h1, rn + 1, k);
                        assert(subtree_keys_full(o, r, h1) == subtree_keys_upto(o, r, h1, rn + 1));
                        assert(subtree_keys_full(o, r, h1).contains(k));
                    } else {
                        assert(n2[c].children@[m] == oc.children@[m]);
                        assert(subtree_keys_full(o, oc.children@[m] as int, (h1 - 1) as nat)
                            .contains(k));
                        assert(subtree_keys_full(o, c, h1).contains(k));
                    }
                }
            } else {
                assert(subtree_keys_full(o, po.children@[j] as int, h1).contains(k));
            }
        }
    }
    assert forall|k: u64| #[trigger] subtree_keys_full(o, p, h).contains(k) implies
        subtree_keys_full(n2, p, h).contains(k) by {
        lemma_subtree_decompose(n2, p, h, pn + 1, k);
        lemma_subtree_decompose(o, p, h, pn + 1, k);
        if node_keys(po).contains(k) {
            let i = choose|i: int| 0 <= i < po.n && po.keys@[i] == k;
            if i == ci {
                assert(n2[c].keys@[cn] == k);
                assert(node_keys(n2[c]).contains(k));
                lemma_subtree_decompose(n2, c, h1, cn + 2, k);
                assert(subtree_keys_full(n2, c, h1) == subtree_keys_upto(n2, c, h1, cn + 2));
                assert(subtree_keys_full(n2, c, h1).contains(k));
            } else {
                assert(np.keys@[i] == k);
                assert(node_keys(np).contains(k));
            }
        } else {
            let j = choose|j: int|
                0 <= j < pn + 1 && subtree_keys_full(
                    o,
                    #[trigger] (po.children@[j] as int),
                    h1,
                ).contains(k);
            if j == ci + 1 {
                lemma_subtree_decompose(o, r, h1, rn + 1, k);
                assert(subtree_keys_full(o, r, h1) == subtree_keys_upto(o, r, h1, rn + 1));
                lemma_subtree_decompose(n2, r, h1, rn, k);
                assert(subtree_keys_full(n2, r, h1) == subtree_keys_upto(n2, r, h1, rn));
                if node_keys(orr).contains(k) {
                    let i = choose|i: int| 0 <= i < orr.n && orr.keys@[i] == k;
                    if i == 0 {
                        assert(np.keys@[ci] == k);
                        assert(node_keys(np).contains(k));
                    } else {
                        assert(n2[r].keys@[i - 1] == k);
                        assert(node_keys(n2[r]).contains(k));
                        assert(subtree_keys_full(n2, r, h1).contains(k));
                    }
                } else {
                    let m = choose|m: int|
                        0 <= m < rn + 1 && subtree_keys_full(
                            o,
                            #[trigger] (orr.children@[m] as int),
                            (h1 - 1) as nat,
                        ).contains(k);
                    if m == 0 {
                        assert(subtree_keys_full(n2, orr.children@[0] as int, (h1 - 1) as nat)
                            .contains(k));
                        assert(n2[c].children@[cn + 1] == orr.children@[0]);
                        lemma_subtree_decompose(n2, c, h1, cn + 2, k);
                        assert(subtree_keys_full(n2, c, h1) == subtree_keys_upto(
                            n2,
                            c,
                            h1,
                            cn + 2,
                        ));
                        assert(subtree_keys_full(n2, c, h1).contains(k));
                    } else {
                        assert(n2[r].children@[m - 1] == orr.children@[m]);
                        assert(subtree_keys_full(n2, orr.children@[m] as int, (h1 - 1) as nat)
                            .contains(k));
                        assert(subtree_keys_full(n2, r, h1).contains(k));
                    }
                }
            } else if j == ci {
                lemma_subtree_decompose(o, c, h1, cn + 1, k);
                assert(subtree_keys_full(o, c, h1) == subtree_keys_upto(o, c, h1, cn + 1));
                lemma_subtree_decompose(n2, c, h1, cn + 2, k);
                assert(subtree_keys_full(n2, c, h1) == subtree_keys_upto(n2, c, h1, cn + 2));
                if node_keys(oc).contains(k) {
                    let i = choose|i: int| 0 <= i < oc.n && oc.keys@[i] == k;
                    assert(n2[c].keys@[i] == k);
                    assert(node_keys(n2[c]).contains(k));
                } else {
                    let m = choose|m: int|
                        0 <= m < cn + 1 && subtree_keys_full(
                            o,
                            #[trigger] (oc.children@[m] as int),
                            (h1 - 1) as nat,
                        ).contains(k);
                    assert(n2[c].children@[m] == oc.children@[m]);
                    assert(subtree_keys_full(n2, oc.children@[m] as int, (h1 - 1) as nat).contains(
                        k,
                    ));
                }
                assert(subtree_keys_full(n2, c, h1).contains(k));
            } else {
                assert(subtree_keys_full(n2, po.children@[j] as int, h1).contains(k));
            }
        }
    }
    assert(subtree_keys_full(n2, p, h) =~= subtree_keys_full(o, p, h));
}

/// A rotation through the parent moves keys around but neither adds nor
/// drops any: the parent's subtree holds exactly the keys it held.
#[verifier::rlimit(100)]
proof fn lemma_borrow_left_keys(
    o: Seq<BtreeNode>,
    n2: Seq<BtreeNode>,
    p: int,
    c: int,
    l: int,
    ci: int,
    h: nat,
    t: int,
    lo: int,
    hi: int,
)
    requires
        node_inv(o, p, h, t, lo, hi, true),
        h >= 1,
        1 <= ci <= o[p].n,
        c == o[p].children@[ci] as int,
        l == o[p].children@[ci - 1] as int,
        o[l].n >= t,
        t - 1 <= o[c].n < 2 * t - 1,
        n2.len() == o.len(),
        n2[p].n == o[p].n,
        n2[p].children@ == o[p].children@,
        forall|j: int| 0 <= j < o[p].n && j != ci - 1 ==> n2[p].keys@[j] == o[p].keys@[j],
        n2[p].keys@[ci - 1] == o[l].keys@[o[l].n - 1],
        n2[l].n == o[l].n - 1,
        n2[l].keys@ == o[l].keys@,
        n2[l].children@ == o[l].children@,
        n2[c].n == o[c].n + 1,
        n2[c].keys@.len() == o[c].keys@.len(),
        n2[c].children@.len() == o[c].children@.len(),
        n2[c].keys@[0] == o[p].keys@[ci - 1],
        forall|j: int| 1 <= j <= o[c].n ==> n2[c].keys@[j] == o[c].keys@[j - 1],
        !o[c].is_leaf ==> n2[c].children@[0] == o[l].children@[o[l].n as int],
        !o[c].is_leaf ==> forall|j: int|
            1 <= j <= o[c].n + 1 ==> n2[c].children@[j] == o[c].children@[j - 1],
        (o[c].is_leaf <==> h - 1 == 0),
        (o[l].is_leaf <==> h - 1 == 0),
        // Subtrees not touched by the rotation keep their keys.
        forall|j: int|
            0 <= j <= o[p].n && j != ci - 1 && j != ci ==> subtree_keys_full(
                n2,
                #[trigger] (o[p].children@[j] as int),
                (h - 1) as nat,
            ) == subtree_keys_full(o, o[p].children@[j] as int, (h - 1) as nat),
        h >= 2 ==> forall|m: int|
            0 <= m <= o[l].n ==> subtree_keys_full(
                n2,
                #[trigger] (o[l].children@[m] as int),
                (h - 2) as nat,
            ) == subtree_keys_full(o, o[l].children@[m] as int, (h - 2) as nat),
        h >= 2 ==> forall|m: int|
            0 <= m <= o[c].n ==> subtree_keys_full(
                n2,
                #[trigger] (o[c].children@[m] as int),
                (h - 2) as nat,
            ) == subtree_keys_full(o, o[c].children@[m] as int, (h - 2) as nat),
    ensures
        subtree_keys_full(n2, p, h) == subtree_keys_full(o, p, h),
{
    let po = o[p];
    let np = n2[p];
    let ol = o[l];
    let oc = o[c];
    let pn = po.n as int;
    let h1 = (h - 1) as nat;
    let ln = ol.n as int;
    let cn = oc.n as int;
    let sep = po.keys@[ci - 1];
    let upk = ol.keys@[ln - 1];
    assert(subtree_keys_full(n2, p, h) == subtree_keys_upto(n2, p, h, pn + 1));
    assert(subtree_keys_full(o, p, h) == subtree_keys_upto(o, p, h, pn + 1));
    assert forall|k: u64| #[trigger] subtree_keys_full(n2, p, h).contains(k) implies
        subtree_keys_full(o, p, h).contains(k) by {
        lemma_subtree_decompose(n2, p, h, pn + 1, k);
        lemma_subtree_decompose(o, p, h, pn + 1, k);
        if node_keys(np).contains(k) {
            let i = choose|i: int| 0 <= i < np.n && np.keys@[i] == k;
            if i == ci - 1 {
                assert(node_keys(ol).contains(k));
                lemma_subtree_decompose(o, l, h1, ln + 1, k);
                assert(subtree_keys_full(o, l, h1) == subtree_keys_upto(o, l, h1, ln + 1));
                assert(subtree_keys_full(o, l, h1).contains(k));
            } else {
                assert(node_keys(po).contains(k));
            }
        } else {
            let j = choose|j: int|
                0 <= j < pn + 1 && subtree_keys_full(
                    n2,
                    #[trigger] (np.children@[j] as int),
                    h1,
                ).contains(k);
            assert(np.children@[j] == po.children@[j]);
            if j == ci - 1 {
                lemma_subtree_decompose(n2, l, h1, ln, k);
                assert(subtree_keys_full(n2, l, h1) == subtree_keys_upto(n2, l, h1, ln));
                lemma_subtree_decompose(o, l, h1, ln + 1, k);
                assert(subtree_keys_full(o, l, h1) == subtree_keys_upto(o, l, h1, ln + 1));
                if node_keys(n2[l]).contains(k) {
                    let i = choose|i: int| 0 <= i < n2[l].n && n2[l].keys@[i] == k;
                    assert(ol.keys@[i] == k);
                    assert(node_keys(ol).contains(k));
                } else {
                    let m = choose|m: int|
                        0 <= m < ln && subtree_keys_full(
                            n2,
                            #[trigger] (n2[l].children@[m] as int),
                            (h1 - 1) as nat,
                        ).contains(k);
                    assert(n2[l].children@[m] == ol.children@[m]);
                    assert(subtree_keys_full(o, ol.children@[m] as int, (h1 - 1) as nat).contains(
                        k,
                    ));
                }
                assert(subtree_keys_full(o, l, h1).contains(k));
            } else if j == ci {
                lemma_subtree_decompose(n2, c, h1, cn + 2, k);
                assert(subtree_keys_full(n2, c, h1) == subtree_keys_upto(n2, c, h1, cn + 2));
                lemma_subtree_decompose(o, c, h1, cn + 1, k);
                assert(subtree_keys_full(o, c, h1) == subtree_keys_upto(o, c, h1, cn + 1));
                if node_keys(n2[c]).contains(k) {
                    let i = choose|i: int| 0 <= i < n2[c].n && n2[c].keys@[i] == k;
                    if i == 0 {
                        assert(k == sep);
                        assert(node_keys(po).contains(k));
                    } else {
                        assert(oc.keys@[i - 1] == k);
                        assert(node_keys(oc).contains(k));
                        assert(subtree_keys_full(o, c, h1).contains(k));
                    }
                } else {
                    let m = choose|m: int|
                        0 <= m < cn + 2 && subtree_keys_full(
                            n2,
                            #[trigger] (n2[c].children@[m] as int),
                            (h1 - 1) as nat,
                        ).contains(k);
                    if m == 0 {
                        assert(n2[c].children@[0] == ol.children@[ln]);
                        assert(subtree_keys_full(o, ol.children@[ln] as int, (h1 - 1) as nat)
                            .contains(k));
                        lemma_subtree_decompose(o, l, h1, ln + 1, k);
                        assert(subtree_keys_full(o, l, h1) == subtree_keys_upto(o, l, h1, ln + 1));
                        assert(subtree_keys_full(o, l, h1).contains(k));
                    } else {
                        assert(n2[c].children@[m] == oc.children@[m - 1]);
                        assert(subtree_keys_full(o, oc.children@[m - 1] as int, (h1 - 1) as nat)
                            .contains(k));
                        assert(subtree_keys_full(o, c, h1).contains(k));
                    }
                }
            } else {
                assert(subtree_keys_full(o, po.children@[j] as int, h1).contains(k));
            }
        }
    }
    assert forall|k: u64| #[trigger] subtree_keys_full(o, p, h).contains(k) implies
        subtree_keys_full(n2, p, h).contains(k) by {
        lemma_subtree_decompose(n2, p, h, pn + 1, k);
        lemma_subtree_decompose(o, p, h, pn + 1, k);
        if node_keys(po).contains(k) {
            let i = choose|i: int| 0 <= i < po.n && po.keys@[i] == k;
            if i == ci - 1 {
                assert(n2[c].keys@[0] == k);
                assert(node_keys(n2[c]).contains(k));
                lemma_subtree_decompose(n2, c, h1, cn + 2, k);
                assert(subtree_keys_full(n2, c, h1) == subtree_keys_upto(n2, c, h1, cn + 2));
                assert(subtree_keys_full(n2, c, h1).contains(k));
            } else {
                assert(np.keys@[i] == k);
                assert(node_keys(np).contains(k));
            }
        } else {
            let j = choose|j: int|
                0 <= j < pn + 1 && subtree_keys_full(
                    o,
                    #[trigger] (po.children@[j] as int),
                    h1,
                ).contains(k);
            if j == ci - 1 {
                lemma_subtree_decompose(o, l, h1, ln + 1, k);
                assert(subtree_keys_full(o, l, h1) == subtree_keys_upto(o, l, h1, ln + 1));
                lemma_subtree_decompose(n2, l, h1, ln, k);
                assert(subtree_keys_full(n2, l, h1) == subtree_keys_upto(n2, l, h1, ln));
                if node_keys(ol).contains(k) {
                    let i = choose|i: int| 0 <= i < ol.n && ol.keys@[i] == k;
                    if i == ln - 1 {
                        assert(np.keys@[ci - 1] == k);
                        assert(node_keys(np).contains(k));
                    } else {
                        assert(n2[l].keys@[i] == k);
                        assert(node_keys(n2[l]).contains(k));
                        assert(subtree_keys_full(n2, l, h1).contains(k));
                    }
                } else {
                    let m = choose|m: int|
                        0 <= m < ln + 1 && subtree_keys_full(
                            o,
                            #[trigger] (ol.children@[m] as int),
                            (h1 - 1) as nat,
                        ).contains(k);
                    if m == ln {
                        assert(subtree_keys_full(n2, ol.children@[ln] as int, (h1 - 1) as nat)
                            .contains(k));
                        assert(n2[c].children@[0] == ol.children@[ln]);
                        lemma_subtree_decompose(n2, c, h1, cn + 2, k);
                        assert(subtree_keys_full(n2, c, h1) == subtree_keys_upto(
                            n2,
                            c,
                            h1,
                            cn + 2,
                        ));
                        assert(subtree_keys_full(n2, c, h1).contains(k));
                    } else {
                        assert(n2[l].children@[m] == ol.children@[m]);
                        assert(subtree_keys_full(n2, ol.children@[m] as int, (h1 - 1) as nat)
                            .contains(k));
                        assert(subtree_keys_full(n2, l, h1).contains(k));
                    }
                }
            } else if j == ci {
                lemma_subtree_decompose(o, c, h1, cn + 1, k);
                assert(subtree_keys_full(o, c, h1) == subtree_keys_upto(o, c, h1, cn + 1));
                lemma_subtree_decompose(n2, c, h1, cn + 2, k);
                assert(subtree_keys_full(n2, c, h1) == subtree_keys_upto(n2, c, h1, cn + 2));
                if node_keys(oc).contains(k) {
                    let i = choose|i: int| 0 <= i < oc.n && oc.keys@[i] == k;
                    assert(n2[c].keys@[i + 1] == k);
                    assert(node_keys(n2[c]).contains(k));
                } else {
                    let m = choose|m: int|
                        0 <= m < cn + 1 && subtree_keys_full(
                            o,
                            #[trigger] (oc.children@[m] as int),
                            (h1 - 1) as nat,
                        ).contains(k);
                    assert(n2[c].children@[m + 1] == oc.children@[m]);
                    assert(subtree_keys_full(n2, oc.children@[m] as int, (h1 - 1) as nat).contains(
                        k,
                    ));
                }
                assert(subtree_keys_full(n2, c, h1).contains(k));
            } else {
                assert(subtree_keys_full(n2, po.children@[j] as int, h1).contains(k));
            }
        }
    }
    assert(subtree_keys_full(n2, p, h) =~= subtree_keys_full(o, p, h));
}

/// Where a repaired child stands: position `p2` of the node is the place
/// an in-node scan for `key` stops at, its child can spare a key, and
/// its range admits `key`.
pub(crate) open spec fn fixed_landing(
    tree: Btree,
    node_id: int,
    key: u64,
    lo: int,
    hi: int,
    p2: int,
) -> bool {
    let nd = tree.arena.nodes@[node_id];
    &&& 0 <= p2 <= nd.n
    &&& (forall|j: int| 0 <= j < p2 ==> (#[trigger] nd.keys@[j]) < key)
    &&& (p2 == nd.n || nd.keys@[p2] > key)
    &&& tree.arena.nodes@[nd.children@[p2] as int].n >= tree.t
    &&& child_lo(nd, p2, lo) < (key as int) < child_hi(nd, p2, hi)
}

impl Btree {
    /// Merges the child at `index + 1` into the child at `index` around
    /// the separating parent key: the fused node takes the separator and
    /// all of the right child's keys and children, the parent closes the
    /// gap, and the right child's slot is reset and freed.  The parent's
    /// subtree keeps exactly its keys.
    pub(crate) fn merge_children(
        &mut self,
        node_id: usize,
        index: usize,
        Ghost(h): Ghost<nat>,
        Ghost(lo): Ghost<int>,
        Ghost(hi): Ghost<int>,
    )
        requires
            2 <= old(self).t <= usize::MAX / 4,
            node_inv(old(self).arena.nodes@, node_id as int, h, old(self).t as int, lo, hi, true),
            ids_ok(old(self).arena.nodes@, node_id as int, h),
            free_ok(*old(self), node_id as int, h),
            h >= 1,
            (index as int) < old(self).arena.nodes@[node_id as int].n,
            old(self).arena.nodes@[old(self).arena.nodes@[node_id as int].children@[index as int] as int].n
                == old(self).t - 1,
            old(self).arena.nodes@[old(self).arena.nodes@[node_id as int].children@[index as int + 1] as int].n
                == old(self).t - 1,
        ensures
            final(self).t == old(self).t,
            final(self).root_id == old(self).root_id,
            final(self).height == old(self).height,
            node_inv(final(self).arena.nodes@, node_id as int, h, old(self).t as int, lo, hi, true),
            ids_ok(final(self).arena.nodes@, node_id as int, h),
            free_ok(*final(self), node_id as int, h),
            final(self).arena.nodes@[node_id as int].n == old(
                self,
            ).arena.nodes@[node_id as int].n - 1,
            subtree_keys_full(final(self).arena.nodes@, node_id as int, h) == subtree_keys_full(
                old(self).arena.nodes@,
                node_id as int,
                h,
            ),
            deletion_frame(*old(self), *final(self), node_id as int, h),
            forall|i: int|
                old(self).arena.free_list@.len() <= i < final(self).arena.free_list@.len()
                    ==> subtree_ids_full(old(self).arena.nodes@, node_id as int, h).contains(
                    #[trigger] (final(self).arena.free_list@[i] as int),
                ),
            forall|j: int|
                0 <= j < index as int ==> final(self).arena.nodes@[node_id as int].keys@[j]
                    == #[trigger] old(self).arena.nodes@[node_id as int].keys@[j],
            forall|j: int|
                (index as int) <= j < old(self).arena.nodes@[node_id as int].n - 1
                    ==> final(self).arena.nodes@[node_id as int].keys@[j] == #[trigger] old(
                    self,
                ).arena.nodes@[node_id as int].keys@[j + 1],
            forall|j: int|
                0 <= j <= index as int ==> final(self).arena.nodes@[node_id as int].children@[j]
                    == #[trigger] old(self).arena.nodes@[node_id as int].children@[j],
            final(self).arena.nodes@[old(self).arena.nodes@[node_id as int].children@[index as int] as int].n
                == 2 * old(self).t - 1,
    {
        let ghost o = old(self).arena.nodes@;
        let ghost f0 = old(self).arena.free_list@;
        let t: usize = self.t;
        let pn: usize = self.arena.nodes[node_id].n;
        let left_id: usize = self.arena.nodes[node_id].children[index];
        let right_id: usize = self.arena.nodes[node_id].children[index + 1];
        proof {
            assert(node_inv(
                o,
                left_id as int,
                (h - 1) as nat,
                t as int,
                child_lo(o[node_id as int], index as int, lo),
                child_hi(o[node_id as int], index as int, hi),
                false,
            ));
            assert(node_inv(
                o,
                right_id as int,
                (h - 1) as nat,
                t as int,
                child_lo(o[node_id as int], index as int + 1, lo),
                child_hi(o[node_id as int], index as int + 1, hi),
                false,
            ));
            lemma_ids_base(o, left_id as int, (h - 1) as nat, o[left_id as int].n + 1);
            lemma_ids_base(o, right_id as int, (h - 1) as nat, o[right_id as int].n + 1);
            lemma_ids_base(o, node_id as int, h, o[node_id as int].n + 1);
            lemma_ids_child_sub(o, node_id as int, h, index as int);
            lemma_ids_child_sub(o, node_id as int, h, index as int + 1);
            assert(subtree_ids_full(o, left_id as int, (h - 1) as nat).disjoint(
                subtree_ids_full(o, right_id as int, (h - 1) as nat),
            ));
            assert(subtree_ids_full(o, left_id as int, (h - 1) as nat).contains(left_id as int));
            assert(subtree_ids_full(o, right_id as int, (h - 1) as nat).contains(right_id as int));
            assert(subtree_ids_full(o, node_id as int, h).contains(node_id as int));
            assert(subtree_ids_full(o, node_id as int, h).contains(left_id as int));
            assert(subtree_ids_full(o, node_id as int, h).contains(right_id as int));
            assert(left_id != right_id && left_id != node_id && right_id != node_id);
        }
        let is_leaf: bool = self.arena.nodes[left_id].is_leaf;
        let sep: u64 = self.arena.nodes[node_id].keys[index];
        self.arena.set_key(left_id, t - 1, sep);
        // All keys (and children) of the right child move over.
        let mut i: usize = 0;
        while i < t - 1
            invariant
                i <= t - 1,
                2 <= t <= usize::MAX / 4,
                t == self.t,
                self.t == old(self).t,
                self.root_id == old(self).root_id,
                self.height == old(self).height,
                self.arena.free_list@ == f0,
                self.arena.nodes@.len() == o.len(),
                node_id < o.len(),
                left_id < o.len(),
                right_id < o.len(),
                left_id != right_id && left_id != node_id && right_id != node_id,
                o[right_id as int].keys@.len() == 2 * t - 1,
                o[right_id as int].children@.len() == 2 * t,
                forall|j: int|
                    0 <= j < o.len() && j != left_id ==> self.arena.nodes@[j] == #[trigger] o[j],
                self.arena.nodes@[left_id as int].n == o[left_id as int].n,
                self.arena.nodes@[left_id as int].is_leaf == o[left_id as int].is_leaf,
                self.arena.nodes@[left_id as int].keys@.len() == o[left_id as int].keys@.len() == 2
                    * t - 1,
                self.arena.nodes@[left_id as int].children@ == o[left_id as int].children@,
                forall|j: int|
                    0 <= j < t - 1 ==> #[trigger] self.arena.nodes@[left_id as int].keys@[j]
                        == o[left_id as int].keys@[j],
                self.arena.nodes@[left_id as int].keys@[t - 1] == o[node_id as int].keys@[index as int],
                forall|j: int|
                    t <= j < t + i ==> #[trigger] self.arena.nodes@[left_id as int].keys@[j]
                        == o[right_id as int].keys@[j - t],
            decreases t - 1 - i,
        {
            let kv: u64 = self.arena.nodes[right_id].keys[i];
            self.arena.set_key(left_id, t + i, kv);
            i = i + 1;
        }
        if !is_leaf {
            let mut i: usize = 0;
            while i < t
                invariant
                    i <= t,
                    2 <= t <= usize::MAX / 4,
                    t == self.t,
                    self.t == old(self).t,
                    self.root_id == old(self).root_id,
                    self.height == old(self).height,
                    self.arena.free_list@ == f0,
                    self.arena.nodes@.len() == o.len(),
                    node_id < o.len(),
                    left_id < o.len(),
                    right_id < o.len(),
                    left_id != right_id && left_id != node_id && right_id != node_id,
                    o[right_id as int].keys@.len() == 2 * t - 1,
                    o[right_id as int].children@.len() == 2 * t,
                    forall|j: int|
                        0 <= j < o.len() && j != left_id ==> self.arena.nodes@[j]
                            == #[trigger] o[j],
                    self.arena.nodes@[left_id as int].n == o[left_id as int].n,
                    self.arena.nodes@[left_id as int].is_leaf == o[left_id as int].is_leaf,
                    self.arena.nodes@[left_id as int].keys@.len() == o[left_id as int].keys@.len()
                        == 2 * t - 1,
                    self.arena.nodes@[left_id as int].children@.len() == o[left_id as int].children@.len()
                        == 2 * t,
                    forall|j: int|
                        0 <= j < t - 1 ==> #[trigger] self.arena.nodes@[left_id as int].keys@[j]
                            == o[left_id as int].keys@[j],
                    self.arena.nodes@[left_id as int].keys@[t - 1] == o[node_id as int].keys@[index as int],
                    forall|j: int|
                        t <= j < 2 * t - 1 ==> #[trigger] self.arena.nodes@[left_id as int].keys@[j]
                            == o[right_id as int].keys@[j - t],
                    forall|j: int|
                        0 <= j < t ==> #[trigger] self.arena.nodes@[left_id as int].children@[j]
                            == o[left_id as int].children@[j],
                    forall|j: int|
                        t <= j < t + i ==> #[trigger] self.arena.nodes@[left_id as int].children@[j]
                            == o[right_id as int].children@[j - t],
                decreases t - i,
            {
                let cv: usize = self.arena.nodes[right_id].children[i];
                self.arena.set_child(left_id, t + i, cv);
                i = i + 1;
            }
        }
        self.arena.set_n(left_id, 2 * t - 1);
        let ghost nb = self.arena.nodes@;
        // Close the gap in the parent.
        let mut i: usize = index;
        while i < pn - 1
            invariant
                index <= i <= pn - 1,
                1 <= pn <= 2 * t - 1,
                2 <= t <= usize::MAX / 4,
                t == self.t,
                self.t == old(self).t,
                self.root_id == old(self).root_id,
                self.height == old(self).height,
                self.arena.free_list@ == f0,
                self.arena.nodes@.len() == o.len(),
                node_id < o.len(),
                pn == o[node_id as int].n,
                o[node_id as int].keys@.len() == 2 * t - 1,
                o[node_id as int].children@.len() == 2 * t,
                nb[node_id as int] == o[node_id as int],
                forall|j: int|
                    0 <= j < o.len() && j != node_id ==> self.arena.nodes@[j] == #[trigger] nb[j],
                self.arena.nodes@[node_id as int].n == o[node_id as int].n,
                self.arena.nodes@[node_id as int].is_leaf == o[node_id as int].is_leaf,
                self.arena.nodes@[node_id as int].keys@.len() == 2 * t - 1,
                self.arena.nodes@[node_id as int].children@.len() == 2 * t,
                forall|j: int|
                    0 <= j < index as int ==> #[trigger] self.arena.nodes@[node_id as int].keys@[j]
                        == o[node_id as int].keys@[j],
                forall|j: int|
                    (index as int) <= j < i
                        ==> #[trigger] self.arena.nodes@[node_id as int].keys@[j]
                        == o[node_id as int].keys@[j + 1],
                forall|j: int|
                    i <= j < 2 * t - 1 ==> #[trigger] self.arena.nodes@[node_id as int].keys@[j]
                        == o[node_id as int].keys@[j],
                forall|j: int|
                    0 <= j <= index as int
                        ==> #[trigger] self.arena.nodes@[node_id as int].children@[j]
                        == o[node_id as int].children@[j],
                forall|j: int|
                    (index as int) < j <= i
                        ==> #[trigger] self.arena.nodes@[node_id as int].children@[j]
                        == o[node_id as int].children@[j + 1],
                forall|j: int|
                    i + 1 < j < 2 * t ==> #[trigger] self.arena.nodes@[node_id as int].children@[j]
                        == o[node_id as int].children@[j],
            decreases pn - 1 - i,
        {
            let kv: u64 = self.arena.nodes[node_id].keys[i + 1];
            self.arena.set_key(node_id, i, kv);
            let cv: usize = self.arena.nodes[node_id].children[i + 2];
            self.arena.set_child(node_id, i + 1, cv);
            i = i + 1;
        }
        self.arena.set_n(node_id, pn - 1);
        self.arena.deallocate_node(right_id, t);
        proof {
            let n2 = self.arena.nodes@;
            let f2 = self.arena.free_list@;
            lemma_merge(
                o,
                n2,
                node_id as int,
                left_id as int,
                right_id as int,
                index as int,
                h,
                t as int,
                lo,
                hi,
            );
            assert(f2 == f0.push(right_id));
            assert(f0.is_prefix_of(f2)) by {
                assert(f0 =~= f2.subrange(0, f0.len() as int));
            }
            assert(!free_set(f0).contains(right_id as int)) by {
                if free_set(f0).contains(right_id as int) {
                    let ii = choose|ii: int| 0 <= ii < f0.len() && f0[ii] == right_id;
                    assert(!subtree_ids_full(o, node_id as int, h).contains(f0[ii] as int));
                    assert(false);
                }
            }
            assert(free_ok(*self, node_id as int, h)) by {
                assert(f2.no_duplicates()) by {
                    assert(forall|ii: int| 0 <= ii < f0.len() ==> f2[ii] == #[trigger] f0[ii]);
                    assert(f2[f0.len() as int] == right_id);
                }
                assert forall|ii: int| 0 <= ii < f2.len() implies {
                    &&& 0 <= #[trigger] (f2[ii] as int) < n2.len()
                    &&& is_empty_node(n2[f2[ii] as int], t as int)
                    &&& !subtree_ids_full(n2, node_id as int, h).contains(f2[ii] as int)
                } by {
                    if ii < f0.len() {
                        assert(f2[ii] == f0[ii]);
                        assert(!subtree_ids_full(o, node_id as int, h).contains(f0[ii] as int));
                        assert(f0[ii] as int != node_id as int && f0[ii] as int != left_id as int
                            && f0[ii] as int != right_id as int);
                        assert(n2[f0[ii] as int] == o[f0[ii] as int]);
                        if subtree_ids_full(n2, node_id as int, h).contains(f0[ii] as int) {
                            assert(false);
                        }
                    } else {
                        assert(f2[ii] == right_id);
                        if subtree_ids_full(n2, node_id as int, h).contains(right_id as int) {
                            assert(false);
                        }
                    }
                }
            }
            assert(deletion_frame(*old(self), *self, node_id as int, h)) by {
                assert forall|j: int|
                    0 <= j < o.len() && !subtree_ids_full(o, node_id as int, h).contains(
                        j,
                    ) implies n2[j] == #[trigger] o[j] by {
                    assert(j != node_id as int && j != left_id as int && j != right_id as int);
                }
            }
        }
    }

    /// Rotates one key through the parent from the left sibling of the
    /// child at `ci`: the separator comes down to the head of the child,
    /// the sibling's last key goes up to replace it, and for internal
    /// nodes the sibling's last child moves over.  The parent's subtree
    /// keeps exactly its keys and its slots.
    pub(crate) fn borrow_from_left_sibling(
        &mut self,
        node_id: usize,
        ci: usize,
        Ghost(h): Ghost<nat>,
        Ghost(lo): Ghost<int>,
        Ghost(hi): Ghost<int>,
    )
        requires
            2 <= old(self).t <= usize::MAX / 4,
            node_inv(old(self).arena.nodes@, node_id as int, h, old(self).t as int, lo, hi, true),
            ids_ok(old(self).arena.nodes@, node_id as int, h),
            free_ok(*old(self), node_id as int, h),
            h >= 1,
            1 <= ci as int <= old(self).arena.nodes@[node_id as int].n,
            old(self).arena.nodes@[old(self).arena.nodes@[node_id as int].children@[ci as int - 1] as int].n
                >= old(self).t,
            old(self).arena.nodes@[old(self).arena.nodes@[node_id as int].children@[ci as int] as int].n
                < 2 * old(self).t - 1,
        ensures
            final(self).t == old(self).t,
            final(self).root_id == old(self).root_id,
            final(self).height == old(self).height,
            node_inv(final(self).arena.nodes@, node_id as int, h, old(self).t as int, lo, hi, true),
            ids_ok(final(self).arena.nodes@, node_id as int, h),
            free_ok(*final(self), node_id as int, h),
            final(self).arena.nodes@[node_id as int].n == old(
                self,
            ).arena.nodes@[node_id as int].n,
            subtree_keys_full(final(self).arena.nodes@, node_id as int, h) == subtree_keys_full(
                old(self).arena.nodes@,
                node_id as int,
                h,
            ),
            deletion_frame(*old(self), *final(self), node_id as int, h),
            final(self).arena.free_list@ == old(self).arena.free_list@,
            final(self).arena.nodes@[node_id as int].children@ == old(
                self,
            ).arena.nodes@[node_id as int].children@,
            forall|j: int|
                0 <= j < old(self).arena.nodes@[node_id as int].n && j != ci as int - 1
                    ==> final(self).arena.nodes@[node_id as int].keys@[j] == #[trigger] old(
                    self,
                ).arena.nodes@[node_id as int].keys@[j],
            (final(self).arena.nodes@[node_id as int].keys@[ci as int - 1] as int) < (old(
                self,
            ).arena.nodes@[node_id as int].keys@[ci as int - 1] as int),
            final(self).arena.nodes@[old(self).arena.nodes@[node_id as int].children@[ci as int] as int].n
                == old(self).arena.nodes@[old(self).arena.nodes@[node_id as int].children@[ci as int] as int].n
                + 1,
    {
        let ghost o = old(self).arena.nodes@;
        let ghost f0 = old(self).arena.free_list@;
        let t: usize = self.t;
        let child_id: usize = self.arena.nodes[node_id].children[ci];
        let left_id: usize = self.arena.nodes[node_id].children[ci - 1];
        proof {
            assert(node_inv(
                o,
                child_id as int,
                (h - 1) as nat,
                t as int,
                child_lo(o[node_id as int], ci as int, lo),
                child_hi(o[node_id as int], ci as int, hi),
                false,
            ));
            assert(node_inv(
                o,
                left_id as int,
                (h - 1) as nat,
                t as int,
                child_lo(o[node_id as int], ci as int - 1, lo),
                child_hi(o[node_id as int], ci as int - 1, hi),
                false,
            ));
            lemma_ids_base(o, child_id as int, (h - 1) as nat, o[child_id as int].n + 1);
            lemma_ids_base(o, left_id as int, (h - 1) as nat, o[left_id as int].n + 1);
            lemma_ids_base(o, node_id as int, h, o[node_id as int].n + 1);
            lemma_ids_child_sub(o, node_id as int, h, ci as int);
            lemma_ids_child_sub(o, node_id as int, h, ci as int - 1);
            assert(subtree_ids_full(o, left_id as int, (h - 1) as nat).disjoint(
                subtree_ids_full(o, child_id as int, (h - 1) as nat),
            ));
            assert(subtree_ids_full(o, left_id as int, (h - 1) as nat).contains(left_id as int));
            assert(subtree_ids_full(o, child_id as int, (h - 1) as nat).contains(child_id as int));
            assert(subtree_ids_full(o, node_id as int, h).contains(node_id as int));
            assert(subtree_ids_full(o, node_id as int, h).contains(left_id as int));
            assert(subtree_ids_full(o, node_id as int, h).contains(child_id as int));
            assert(left_id != child_id && left_id != node_id && child_id != node_id);
        }
        let is_leaf: bool = self.arena.nodes[child_id].is_leaf;
        let cn: usize = self.arena.nodes[child_id].n;
        let ln: usize = self.arena.nodes[left_id].n;
        // Shift the child's keys and children one place right.
        let mut i: usize = cn;
        while i > 0
            invariant
                i <= cn,
                2 <= t <= usize::MAX / 4,
                t == self.t,
                self.t == old(self).t,
                self.root_id == old(self).root_id,
                self.height == old(self).height,
                self.arena.free_list@ == f0,
                self.arena.nodes@.len() == o.len(),
                node_id < o.len(),
                child_id < o.len(),
                left_id < o.len(),
                left_id != child_id && left_id != node_id && child_id != node_id,
                cn == o[child_id as int].n < 2 * t - 1,
                o[child_id as int].keys@.len() == 2 * t - 1,
                o[child_id as int].children@.len() == 2 * t,
                forall|j: int|
                    0 <= j < o.len() && j != child_id ==> self.arena.nodes@[j] == #[trigger] o[j],
                self.arena.nodes@[child_id as int].n == o[child_id as int].n,
                self.arena.nodes@[child_id as int].is_leaf == o[child_id as int].is_leaf,
                self.arena.nodes@[child_id as int].keys@.len() == 2 * t - 1,
                self.arena.nodes@[child_id as int].children@.len() == 2 * t,
                forall|j: int|
                    0 <= j <= i ==> #[trigger] self.arena.nodes@[child_id as int].keys@[j]
                        == o[child_id as int].keys@[j],
                forall|j: int|
                    i < j <= cn ==> #[trigger] self.arena.nodes@[child_id as int].keys@[j]
                        == o[child_id as int].keys@[j - 1],
                forall|j: int|
                    0 <= j <= i ==> #[trigger] self.arena.nodes@[child_id as int].children@[j]
                        == o[child_id as int].children@[j],
                forall|j: int|
                    i + 1 < j <= cn + 1
                        ==> #[trigger] self.arena.nodes@[child_id as int].children@[j]
                        == o[child_id as int].children@[j - 1],
            decreases i,
        {
            let kv: u64 = self.arena.nodes[child_id].keys[i - 1];
            self.arena.set_key(child_id, i, kv);
            let cv: usize = self.arena.nodes[child_id].children[i];
            self.arena.set_child(child_id, i + 1, cv);
            i = i - 1;
        }
        let cv0: usize = self.arena.nodes[child_id].children[0];
        self.arena.set_child(child_id, 1, cv0);
        let sep: u64 = self.arena.nodes[node_id].keys[ci - 1];
        self.arena.set_key(child_id, 0, sep);
        let upk: u64 = self.arena.nodes[left_id].keys[ln - 1];
        self.arena.set_key(node_id, ci - 1, upk);
        if !is_leaf {
            let mv: usize = self.arena.nodes[left_id].children[ln];
            self.arena.set_child(child_id, 0, mv);
        }
        self.arena.set_n(child_id, cn + 1);
        self.arena.set_n(left_id, ln - 1);
        proof {
            let n2 = self.arena.nodes@;
            lemma_borrow_left(
                o,
                n2,
                node_id as int,
                child_id as int,
                left_id as int,
                ci as int,
                h,
                t as int,
                lo,
                hi,
            );
            assert(f0.is_prefix_of(f0)) by {
                assert(f0 =~= f0.subrange(0, f0.len() as int));
            }
            assert(free_ok(*self, node_id as int, h)) by {
                assert forall|ii: int| 0 <= ii < f0.len() implies {
                    &&& 0 <= #[trigger] (f0[ii] as int) < n2.len()
                    &&& is_empty_node(n2[f0[ii] as int], t as int)
                    &&& !subtree_ids_full(n2, node_id as int, h).contains(f0[ii] as int)
                } by {
                    assert(!subtree_ids_full(o, node_id as int, h).contains(f0[ii] as int));
                    assert(f0[ii] as int != node_id as int && f0[ii] as int != child_id as int
                        && f0[ii] as int != left_id as int);
                    assert(n2[f0[ii] as int] == o[f0[ii] as int]);
                    if subtree_ids_full(n2, node_id as int, h).contains(f0[ii] as int) {
                        assert(false);
                    }
                }
            }
            assert(deletion_frame(*old(self), *self, node_id as int, h)) by {
                assert forall|j: int|
                    0 <= j < o.len() && !subtree_ids_full(o, node_id as int, h).contains(
                        j,
                    ) implies n2[j] == #[trigger] o[j] by {
                    assert(j != node_id as int && j != child_id as int && j != left_id as int);
                }
            }
        }
    }

    /// Rotates one key through the parent from the right sibling of the
    /// child at `ci`: the separator comes down to the end of the child,
    /// the sibling's first key goes up to replace it, and for internal
    /// nodes the sibling's first child moves over.  The parent's subtree
    /// keeps exactly its keys and its slots.
    pub(crate) fn borrow_from_right_sibling(
        &mut self,
        node_id: usize,
        ci: usize,
        Ghost(h): Ghost<nat>,
        Ghost(lo): Ghost<int>,
        Ghost(hi): Ghost<int>,
    )
        requires
            2 <= old(self).t <= usize::MAX / 4,
            node_inv(old(self).arena.nodes@, node_id as int, h, old(self).t as int, lo, hi, true),
            ids_ok(old(self).arena.nodes@, node_id as int, h),
            free_ok(*old(self), node_id as int, h),
            h >= 1,
            (ci as int) < old(self).arena.nodes@[node_id as int].n,
            old(self).arena.nodes@[old(self).arena.nodes@[node_id as int].children@[ci as int + 1] as int].n
                >= old(self).t,
            old(self).arena.nodes@[old(self).arena.nodes@[node_id as int].children@[ci as int] as int].n
                < 2 * old(self).t - 1,
        ensures
            final(self).t == old(self).t,
            final(self).root_id == old(self).root_id,
            final(self).height == old(self).height,
            node_inv(final(self).arena.nodes@, node_id as int, h, old(self).t as int, lo, hi, true),
            ids_ok(final(self).arena.nodes@, node_id as int, h),
            free_ok(*final(self), node_id as int, h),
            final(self).arena.nodes@[node_id as int].n == old(
                self,
            ).arena.nodes@[node_id as int].n,
            subtree_keys_full(final(self).arena.nodes@, node_id as int, h) == subtree_keys_full(
                old(self).arena.nodes@,
                node_id as int,
                h,
            ),
            deletion_frame(*old(self), *final(self), node_id as int, h),
            final(self).arena.free_list@ == old(self).arena.free_list@,
            final(self).arena.nodes@[node_id as int].children@ == old(
                self,
            ).arena.nodes@[node_id as int].children@,
            forall|j: int|
                0 <= j < old(self).arena.nodes@[node_id as int].n && j != ci as int
                    ==> final(self).arena.nodes@[node_id as int].keys@[j] == #[trigger] old(
                    self,
                ).arena.nodes@[node_id as int].keys@[j],
            (final(self).arena.nodes@[node_id as int].keys@[ci as int] as int) > (old(
                self,
            ).arena.nodes@[node_id as int].keys@[ci as int] as int),
            final(self).arena.nodes@[old(self).arena.nodes@[node_id as int].children@[ci as int] as int].n
                == old(self).arena.nodes@[old(self).arena.nodes@[node_id as int].children@[ci as int] as int].n
                + 1,
    {
        let ghost o = old(self).arena.nodes@;
        let ghost f0 = old(self).arena.free_list@;
        let t: usize = self.t;
        let child_id: usize = self.arena.nodes[node_id].children[ci];
        let right_id: usize = self.arena.nodes[node_id].children[ci + 1];
        proof {
            assert(node_inv(
                o,
                child_id as int,
                (h - 1) as nat,
                t as int,
                child_lo(o[node_id as int], ci as int, lo),
                child_hi(o[node_id as int], ci as int, hi),
                false,
            ));
            assert(node_inv(
                o,
                right_id as int,
                (h - 1) as nat,
                t as int,
                child_lo(o[node_id as int], ci as int + 1, lo),
                child_hi(o[node_id as int], ci as int + 1, hi),
                false,
            ));
            lemma_ids_base(o, child_id as int, (h - 1) as nat, o[child_id as int].n + 1);
            lemma_ids_base(o, right_id as int, (h - 1) as nat, o[right_id as int].n + 1);
            lemma_ids_base(o, node_id as int, h, o[node_id as int].n + 1);
            lemma_ids_child_sub(o, node_id as int, h, ci as int);
            lemma_ids_child_sub(o, node_id as int, h, ci as int + 1);
            assert(subtree_ids_full(o, child_id as int, (h - 1) as nat).disjoint(
                subtree_ids_full(o, right_id as int, (h - 1) as nat),
            ));
            assert(subtree_ids_full(o, child_id as int, (h - 1) as nat).contains(child_id as int));
            assert(subtree_ids_full(o, right_id as int, (h - 1) as nat).contains(right_id as int));
            assert(subtree_ids_full(o, node_id as int, h).contains(node_id as int));
            assert(subtree_ids_full(o, node_id as int, h).contains(child_id as int));
            assert(subtree_ids_full(o, node_id as int, h).contains(right_id as int));
            assert(right_id != child_id && right_id != node_id && child_id != node_id);
        }
        let is_leaf: bool = self.arena.nodes[child_id].is_leaf;
        let cn: usize = self.arena.nodes[child_id].n;
        let rn: usize = self.arena.nodes[right_id].n;
        let sep: u64 = self.arena.nodes[node_id].keys[ci];
        self.arena.set_key(child_id, cn, sep);
        let dnk: u64 = self.arena.nodes[right_id].keys[0];
        self.arena.set_key(node_id, ci, dnk);
        if !is_leaf {
            let mv: usize = self.arena.nodes[right_id].children[0];
            self.arena.set_child(child_id, cn + 1, mv);
        }
        // Shift the sibling's keys and children one place left.
        let ghost na = self.arena.nodes@;
        let mut i: usize = 0;
        while i < rn - 1
            invariant
                i <= rn - 1,
                1 <= rn <= 2 * t - 1,
                self.arena.nodes@[node_id as int] == na[node_id as int],
                self.arena.nodes@[child_id as int] == na[child_id as int],
                na.len() == o.len(),
                node_id < na.len() && child_id < na.len(),
                2 <= t <= usize::MAX / 4,
                t == self.t,
                self.t == old(self).t,
                self.root_id == old(self).root_id,
                self.height == old(self).height,
                self.arena.free_list@ == f0,
                self.arena.nodes@.len() == o.len(),
                node_id < o.len(),
                child_id < o.len(),
                right_id < o.len(),
                right_id != child_id && right_id != node_id && child_id != node_id,
                rn == o[right_id as int].n,
                o[right_id as int].keys@.len() == 2 * t - 1,
                o[right_id as int].children@.len() == 2 * t,
                forall|j: int|
                    0 <= j < o.len() && j != right_id && j != child_id && j != node_id
                        ==> self.arena.nodes@[j] == #[trigger] o[j],
                self.arena.nodes@[right_id as int].n == o[right_id as int].n,
                self.arena.nodes@[right_id as int].is_leaf == o[right_id as int].is_leaf,
                self.arena.nodes@[right_id as int].keys@.len() == 2 * t - 1,
                self.arena.nodes@[right_id as int].children@.len() == 2 * t,
                forall|j: int|
                    0 <= j < i ==> #[trigger] self.arena.nodes@[right_id as int].keys@[j]
                        == o[right_id as int].keys@[j + 1],
                forall|j: int|
                    i <= j < rn ==> #[trigger] self.arena.nodes@[right_id as int].keys@[j]
                        == o[right_id as int].keys@[j],
                forall|j: int|
                    0 <= j < i ==> #[trigger] self.arena.nodes@[right_id as int].children@[j]
                        == o[right_id as int].children@[j + 1],
                forall|j: int|
                    i <= j < 2 * t ==> #[trigger] self.arena.nodes@[right_id as int].children@[j]
                        == o[right_id as int].children@[j],
            decreases rn - 1 - i,
        {
            let kv: u64 = self.arena.nodes[right_id].keys[i + 1];
            self.arena.set_key(right_id, i, kv);
            let cv: usize = self.arena.nodes[right_id].children[i + 1];
            self.arena.set_child(right_id, i, cv);
            i = i + 1;
        }
        let cv_last: usize = self.arena.nodes[right_id].children[rn];
        self.arena.set_child(right_id, rn - 1, cv_last);
        self.arena.set_n(child_id, cn + 1);
        self.arena.set_n(right_id, rn - 1);
        proof {
            let n2 = self.arena.nodes@;
            lemma_borrow_right(
                o,
                n2,
                node_id as int,
                child_id as int,
                right_id as int,
                ci as int,
                h,
                t as int,
                lo,
                hi,
            );
            assert(f0.is_prefix_of(f0)) by {
                assert(f0 =~= f0.subrange(0, f0.len() as int));
            }
            assert(free_ok(*self, node_id as int, h)) by {
                assert forall|ii: int| 0 <= ii < f0.len() implies {
                    &&& 0 <= #[trigger] (f0[ii] as int) < n2.len()
                    &&& is_empty_node(n2[f0[ii] as int], t as int)
                    &&& !subtree_ids_full(n2, node_id as int, h).contains(f0[ii] as int)
                } by {
                    assert(!subtree_ids_full(o, node_id as int, h).contains(f0[ii] as int));
                    assert(f0[ii] as int != node_id as int && f0[ii] as int != child_id as int
                        && f0[ii] as int != right_id as int);
                    assert(n2[f0[ii] as int] == o[f0[ii] as int]);
                    if subtree_ids_full(n2, node_id as int, h).contains(f0[ii] as int) {
                        assert(false);
                    }
                }
            }
            assert(deletion_frame(*old(self), *self, node_id as int, h)) by {
                assert forall|j: int|
                    0 <= j < o.len() && !subtree_ids_full(o, node_id as int, h).contains(
                        j,
                    ) implies n2[j] == #[trigger] o[j] by {
                    assert(j != node_id as int && j != child_id as int && j != right_id as int);
                }
            }
        }
    }

    /// Removes `key` from the subtree rooted at `node_id`, repairing any
    /// would-be underflow before each descent.  Except at the top of the
    /// tree the node must be able to spare a key.
    #[verifier::rlimit(100)]
    #[verifier::spinoff_prover]
    pub(crate) fn recursive_delete(
        &mut self,
        node_id: usize,
        key: u64,
        Ghost(h): Ghost<nat>,
        Ghost(lo): Ghost<int>,
        Ghost(hi): Ghost<int>,
        Ghost(top): Ghost<bool>,
    )
        requires
            2 <= old(self).t <= usize::MAX / 4,
            node_inv(old(self).arena.nodes@, node_id as int, h, old(self).t as int, lo, hi, true),
            ids_ok(old(self).arena.nodes@, node_id as int, h),
            free_ok(*old(self), node_id as int, h),
            top || old(self).arena.nodes@[node_id as int].n >= old(self).t,
            old(self).arena.nodes@[node_id as int].is_leaf
                || old(self).arena.nodes@[node_id as int].n >= 1,
            lo < (key as int) < hi,
        ensures
            final(self).t == old(self).t,
            final(self).root_id == old(self).root_id,
            final(self).height == old(self).height,
            node_inv(final(self).arena.nodes@, node_id as int, h, old(self).t as int, lo, hi, true),
            ids_ok(final(self).arena.nodes@, node_id as int, h),
            free_ok(*final(self), node_id as int, h),
            final(self).arena.nodes@[node_id as int].n
                >= old(self).arena.nodes@[node_id as int].n - 1,
            final(self).arena.nodes@[node_id as int].n <= old(
                self,
            ).arena.nodes@[node_id as int].n,
            subtree_keys_full(final(self).arena.nodes@, node_id as int, h) == subtree_keys_full(
                old(self).arena.nodes@,
                node_id as int,
                h,
            ).remove(key),
            deletion_frame(*old(self), *final(self), node_id as int, h),
            forall|i: int|
                old(self).arena.free_list@.len() <= i < final(self).arena.free_list@.len()
                    ==> subtree_ids_full(old(self).arena.nodes@, node_id as int, h).contains(
                    #[trigger] (final(self).arena.free_list@[i] as int),
                ),
        decreases h, 2nat,
    {
        let ghost o = old(self).arena.nodes@;
        let ghost f0 = old(self).arena.free_list@;
        let ghost nd0 = o[node_id as int];
        let t: usize = self.t;
        let n: usize = self.arena.nodes[node_id].n;
        let mut pos: usize = 0;
        while pos < n && self.arena.nodes[node_id].keys[pos] < key
            invariant
                pos <= n,
                *self == *old(self),
                node_id < self.arena.nodes@.len(),
                n == nd0.n,
                nd0 == self.arena.nodes@[node_id as int],
                n <= nd0.keys@.len(),
                forall|j: int| 0 <= j < pos ==> #[trigger] nd0.keys@[j] < key,
            decreases n - pos,
        {
            pos = pos + 1;
        }
        let found: bool = pos < n && self.arena.nodes[node_id].keys[pos] == key;
        proof {
            if !found {
                assert(!node_keys(nd0).contains(key)) by {
                    if node_keys(nd0).contains(key) {
                        let i = choose|i: int| 0 <= i < nd0.n && nd0.keys@[i] == key;
                        if i >= pos {
                            assert(nd0.keys@[pos as int] <= nd0.keys@[i]);
                        }
                        assert(false);
                    }
                }
            }
        }
        if self.arena.nodes[node_id].is_leaf {
            proof {
                assert(h == 0);
                assert(subtree_keys_full(o, node_id as int, 0) == node_keys(nd0));
            }
            if found {
                self.remove_from_leaf(node_id, pos, Ghost(lo), Ghost(hi));
            }
            proof {
                let n2 = self.arena.nodes@;
                if !found {
                    assert(subtree_keys_full(o, node_id as int, 0).remove(key)
                        =~= subtree_keys_full(o, node_id as int, 0));
                }
                assert(subtree_ids_full(o, node_id as int, 0) == Set::<int>::empty().insert(
                    node_id as int,
                ));
                assert(subtree_ids_full(n2, node_id as int, 0) == Set::<int>::empty().insert(
                    node_id as int,
                ));
                assert(f0.is_prefix_of(self.arena.free_list@)) by {
                    assert(f0 =~= f0.subrange(0, f0.len() as int));
                }
                assert(free_ok(*self, node_id as int, h)) by {
                    assert forall|i: int| 0 <= i < f0.len() implies {
                        &&& 0 <= #[trigger] (f0[i] as int) < n2.len()
                        &&& is_empty_node(n2[f0[i] as int], t as int)
                        &&& !subtree_ids_full(n2, node_id as int, h).contains(f0[i] as int)
                    } by {
                        assert(f0[i] as int != node_id as int);
                        assert(n2[f0[i] as int] == o[f0[i] as int]);
                    }
                }
                assert(deletion_frame(*old(self), *self, node_id as int, h));
            }
            return ;
        }
        if found {
            self.delete_from_internal_node(node_id, pos, Ghost(h), Ghost(lo), Ghost(hi));
            return ;
        }
        proof {
            assert(child_lo(nd0, pos as int, lo) < (key as int) < child_hi(nd0, pos as int, hi))
                by {
                if pos as int > 0 {
                    assert(nd0.keys@[pos as int - 1] < key);
                }
                if (pos as int) < nd0.n {
                    assert(nd0.keys@[pos as int] >= key);
                    assert(nd0.keys@[pos as int] != key);
                }
            }
        }
        let child_id: usize = self.arena.nodes[node_id].children[pos];
        proof {
            assert(node_inv(
                o,
                child_id as int,
                (h - 1) as nat,
                t as int,
                child_lo(nd0, pos as int, lo),
                child_hi(nd0, pos as int, hi),
                false,
            ));
        }
        if self.arena.nodes[child_id].n < t {
            self.fix_child(node_id, pos, Ghost(key), Ghost(h), Ghost(lo), Ghost(hi));
            let ghost m = *self;
            let ghost om = m.arena.nodes@;
            let ghost fm = m.arena.free_list@;
            let ghost ndm = om[node_id as int];
            let nn: usize = self.arena.nodes[node_id].n;
            let mut pos2: usize = 0;
            while pos2 < nn && self.arena.nodes[node_id].keys[pos2] < key
                invariant
                    pos2 <= nn,
                    *self == m,
                    node_id < self.arena.nodes@.len(),
                    nn == ndm.n,
                    ndm == self.arena.nodes@[node_id as int],
                    nn <= ndm.keys@.len(),
                    forall|j: int| 0 <= j < pos2 ==> #[trigger] ndm.keys@[j] < key,
                decreases nn - pos2,
            {
                pos2 = pos2 + 1;
            }
            let ghost p2 = choose|p2: int| fixed_landing(m, node_id as int, key, lo, hi, p2);
            proof {
                // The rescan lands exactly where the repair says it does.
                assert(pos2 as int == p2) by {
                    if (pos2 as int) < p2 {
                        assert(ndm.keys@[pos2 as int] < key);
                        assert(pos2 < nn ==> ndm.keys@[pos2 as int] >= key);
                        assert((pos2 as int) < ndm.n);
                        assert(false);
                    }
                    if (pos2 as int) > p2 {
                        assert(ndm.keys@[p2] < key);
                        assert(p2 == ndm.n || ndm.keys@[p2] > key);
                        assert(false);
                    }
                }
                assert(!node_keys(ndm).contains(key)) by {
                    if node_keys(ndm).contains(key) {
                        let i = choose|i: int| 0 <= i < ndm.n && ndm.keys@[i] == key;
                        if i >= p2 {
                            assert(p2 < ndm.n);
                            assert(ndm.keys@[p2] <= ndm.keys@[i]);
                        }
                        assert(false);
                    }
                }
                assert(node_inv(
                    om,
                    ndm.children@[p2] as int,
                    (h - 1) as nat,
                    t as int,
                    child_lo(ndm, p2, lo),
                    child_hi(ndm, p2, hi),
                    false,
                ));
                lemma_ids_child_sub(om, node_id as int, h, p2);
                lemma_ids_base(om, node_id as int, h, ndm.n + 1);
                assert forall|i: int| 0 <= i < fm.len() implies {
                    &&& 0 <= #[trigger] (fm[i] as int) < om.len()
                    &&& is_empty_node(om[fm[i] as int], t as int)
                    &&& !subtree_ids_full(om, ndm.children@[p2] as int, (h - 1) as nat).contains(
                        fm[i] as int,
                    )
                } by {
                    if subtree_ids_full(om, ndm.children@[p2] as int, (h - 1) as nat).contains(
                        fm[i] as int,
                    ) {
                        assert(subtree_ids_full(om, node_id as int, h).contains(fm[i] as int));
                        assert(false);
                    }
                }
            }
            let child2: usize = self.arena.nodes[node_id].children[pos2];
            self.recursive_delete(
                child2,
                key,
                Ghost((h - 1) as nat),
                Ghost(child_lo(m.arena.nodes@[node_id as int], pos2 as int, lo)),
                Ghost(child_hi(m.arena.nodes@[node_id as int], pos2 as int, hi)),
                Ghost(false),
            );
            proof {
                let n2 = self.arena.nodes@;
                let f2 = self.arena.free_list@;
                assert(f2.no_duplicates());
                lemma_descend_del(
                    om,
                    n2,
                    fm,
                    f2,
                    node_id as int,
                    p2,
                    key,
                    h,
                    t as int,
                    lo,
                    hi,
                );
                assert(deletion_frame(m, *self, node_id as int, h)) by {
                    assert(fm.is_prefix_of(f2));
                }
                lemma_deletion_frame_trans(*old(self), m, *self, node_id as int, h);
                assert(subtree_keys_full(n2, node_id as int, h) == subtree_keys_full(
                    o,
                    node_id as int,
                    h,
                ).remove(key));
                assert(free_ok(*self, node_id as int, h));
                assert forall|i: int| f0.len() <= i < f2.len() implies subtree_ids_full(
                    o,
                    node_id as int,
                    h,
                ).contains(#[trigger] (f2[i] as int)) by {
                    if i < fm.len() {
                        assert(f2[i] == fm[i]);
                        assert(subtree_ids_full(o, node_id as int, h).contains(fm[i] as int));
                    } else {
                        assert(subtree_ids_full(om, node_id as int, h).contains(f2[i] as int));
                    }
                }
            }
        } else {
            proof {
                lemma_ids_child_sub(o, node_id as int, h, pos as int);
                lemma_ids_base(o, node_id as int, h, nd0.n + 1);
                assert forall|i: int| 0 <= i < f0.len() implies {
                    &&& 0 <= #[trigger] (f0[i] as int) < o.len()
                    &&& is_empty_node(o[f0[i] as int], t as int)
                    &&& !subtree_ids_full(o, child_id as int, (h - 1) as nat).contains(
                        f0[i] as int,
                    )
                } by {
                    if subtree_ids_full(o, child_id as int, (h - 1) as nat).contains(
                        f0[i] as int,
                    ) {
                        assert(subtree_ids_full(o, node_id as int, h).contains(f0[i] as int));
                        assert(false);
                    }
                }
            }
            self.recursive_delete(
                child_id,
                key,
                Ghost((h - 1) as nat),
                Ghost(child_lo(nd0, pos as int, lo)),
                Ghost(child_hi(nd0, pos as int, hi)),
                Ghost(false),
            );
            proof {
                let n2 = self.arena.nodes@;
                let f2 = self.arena.free_list@;
                assert(f2.no_duplicates());
                lemma_descend_del(
                    o,
                    n2,
                    f0,
                    f2,
                    node_id as int,
                    pos as int,
                    key,
                    h,
                    t as int,
                    lo,
                    hi,
                );
                assert(free_ok(*self, node_id as int, h));
            }
        }
    }

    /// Replaces an internal root that has run out of keys by its only
    /// child, freeing the old root's slot.  The key set is untouched.
    fn shrink_root(&mut self)
        requires
            2 <= old(self).t <= usize::MAX / 4,
            node_inv(
                old(self).arena.nodes@,
                old(self).root_id as int,
                old(self).height@,
                old(self).t as int,
                -1,
                key_sup(),
                true,
            ),
            ids_ok(old(self).arena.nodes@, old(self).root_id as int, old(self).height@),
            free_ok(*old(self), old(self).root_id as int, old(self).height@),
            !old(self).arena.nodes@[old(self).root_id as int].is_leaf,
            old(self).arena.nodes@[old(self).root_id as int].n == 0,
        ensures
            final(self).wf(),
            final(self).t == old(self).t,
            final(self).key_set() == old(self).key_set(),
            final(self).height@ + 1 == old(self).height@,
            final(self).root_id != old(self).root_id,
            final(self).arena.free_list@ == old(self).arena.free_list@.push(old(self).root_id),
    {
        let ghost h0 = self.height@;
        let ghost om = self.arena.nodes@;
        let ghost fm = self.arena.free_list@;
        let t: usize = self.t;
        let root: usize = self.root_id;
        let child: usize = self.arena.nodes[root].children[0];
        proof {
            assert(h0 >= 1);
            assert(node_inv(om, child as int, (h0 - 1) as nat, t as int, -1, key_sup(), false));
            lemma_ids_base(om, root as int, h0, om[root as int].n + 1);
            lemma_ids_child_sub(om, root as int, h0, 0);
            lemma_ids_base(om, child as int, (h0 - 1) as nat, om[child as int].n + 1);
            assert(subtree_ids_full(om, child as int, (h0 - 1) as nat).contains(child as int));
            assert(subtree_ids_full(om, root as int, h0).contains(root as int));
            assert(subtree_ids_full(om, root as int, h0).contains(child as int));
            assert(!subtree_ids_full(om, child as int, (h0 - 1) as nat).contains(root as int));
        }
        self.root_id = child;
        self.height = Ghost((h0 - 1) as nat);
        self.arena.deallocate_node(root, t);
        proof {
            let n2 = self.arena.nodes@;
            let f2 = self.arena.free_list@;
            assert forall|x: int| #[trigger]
                subtree_ids_full(om, child as int, (h0 - 1) as nat).contains(x) implies n2[x]
                == om[x] by {
                lemma_ids_bounded(
                    om,
                    child as int,
                    (h0 - 1) as nat,
                    t as int,
                    -1,
                    key_sup(),
                    false,
                    om[child as int].n + 1,
                );
                assert(subtree_ids_full(om, child as int, (h0 - 1) as nat) == subtree_ids_upto(
                    om,
                    child as int,
                    (h0 - 1) as nat,
                    om[child as int].n + 1,
                ));
                assert(x != root as int);
            }
            lemma_frame(om, n2, child as int, (h0 - 1) as nat, t as int, -1, key_sup(), false);
            assert(node_inv(n2, child as int, (h0 - 1) as nat, t as int, -1, key_sup(), true));
            // The empty internal root held no keys of its own, so the key
            // set is exactly the child's.
            assert(subtree_keys_full(om, root as int, h0) == subtree_keys_upto(
                om,
                root as int,
                h0,
                1,
            ));
            assert(subtree_keys_upto(om, root as int, h0, 0) == node_keys(om[root as int]));
            assert forall|k: u64| !#[trigger] node_keys(om[root as int]).contains(k) by {
                if node_keys(om[root as int]).contains(k) {
                    let i = choose|i: int|
                        0 <= i < om[root as int].n && om[root as int].keys@[i] == k;
                    assert(false);
                }
            }
            assert(subtree_keys_full(om, root as int, h0) =~= subtree_keys_full(
                om,
                child as int,
                (h0 - 1) as nat,
            ));
            // Free discipline with the old root's slot on the list.
            assert(self.free_wf()) by {
                assert(f2 == fm.push(root));
                assert(!free_set(fm).contains(root as int)) by {
                    if free_set(fm).contains(root as int) {
                        let i = choose|i: int| 0 <= i < fm.len() && fm[i] == root;
                        assert(!subtree_ids_full(om, root as int, h0).contains(fm[i] as int));
                        assert(false);
                    }
                }
                assert(f2.no_duplicates()) by {
                    assert(forall|i: int| 0 <= i < fm.len() ==> f2[i] == #[trigger] fm[i]);
                    assert(f2[fm.len() as int] == root);
                }
                assert forall|i: int| 0 <= i < f2.len() implies {
                    &&& 0 <= #[trigger] (f2[i] as int) < n2.len()
                    &&& is_empty_node(n2[f2[i] as int], t as int)
                    &&& !subtree_ids_full(n2, child as int, (h0 - 1) as nat).contains(
                        f2[i] as int,
                    )
                } by {
                    if i < fm.len() {
                        assert(f2[i] == fm[i]);
                        assert(f2[i] as int != root as int);
                        assert(n2[f2[i] as int] == om[f2[i] as int]);
                        if subtree_ids_full(n2, child as int, (h0 - 1) as nat).contains(
                            f2[i] as int,
                        ) {
                            assert(subtree_ids_full(om, child as int, (h0 - 1) as nat).contains(
                                f2[i] as int,
                            ));
                            assert(subtree_ids_full(om, root as int, h0).contains(f2[i] as int));
                            assert(false);
                        }
                    } else {
                        assert(f2[i] == root);
                        if subtree_ids_full(n2, child as int, (h0 - 1) as nat).contains(
                            root as int,
                        ) {
                            assert(subtree_ids_full(om, child as int, (h0 - 1) as nat).contains(
                                root as int,
                            ));
                            assert(false);
                        }
                    }
                }
            }
        }
    }

    /// Removes `key` from the tree; a key that is absent leaves the tree
    /// unchanged.  If the root is left as an internal node with no keys,
    /// its only child becomes the root and the old root's slot is freed
    /// (the one place the tree shrinks in height).
    pub fn delete(&mut self, key: u64)
        requires
            old(self).wf(),
        ensures
            final(self).wf(),
            final(self).t == old(self).t,
            final(self).key_set() == old(self).key_set().remove(key),
            final(self).height@ == old(self).height@ || final(self).height@ + 1 == old(
                self,
            ).height@,
            final(self).height@ + 1 == old(self).height@ ==> {
                &&& !old(self).arena.nodes@[old(self).root_id as int].is_leaf
                &&& final(self).root_id != old(self).root_id
                &&& free_set(final(self).arena.free_list@).contains(old(self).root_id as int)
            },
    {
        let root: usize = self.root_id;
        let ghost h1 = self.height@;
        self.recursive_delete(root, key, Ghost(h1), Ghost(-1), Ghost(key_sup()), Ghost(true));
        if !self.arena.nodes[self.root_id].is_leaf && self.arena.nodes[self.root_id].n == 0 {
            self.shrink_root();
            proof {
                let f2 = self.arena.free_list@;
                assert(f2[f2.len() - 1] == root);
                assert(free_set(f2).contains(root as int));
            }
        }
    }

    /// Repairs the child at `ci` before a descent towards `key`: borrow
    /// the nearest key of a sibling that can spare one, else merge with a
    /// sibling around the separating parent key.  Afterwards the scan for
    /// `key` lands on a child with at least `t` keys.
    pub(crate) fn fix_child(
        &mut self,
        node_id: usize,
        ci: usize,
        Ghost(key): Ghost<u64>,
        Ghost(h): Ghost<nat>,
        Ghost(lo): Ghost<int>,
        Ghost(hi): Ghost<int>,
    )
        requires
            2 <= old(self).t <= usize::MAX / 4,
            node_inv(old(self).arena.nodes@, node_id as int, h, old(self).t as int, lo, hi, true),
            ids_ok(old(self).arena.nodes@, node_id as int, h),
            free_ok(*old(self), node_id as int, h),
            h >= 1,
            1 <= old(self).arena.nodes@[node_id as int].n,
            ci as int <= old(self).arena.nodes@[node_id as int].n,
            old(self).arena.nodes@[old(self).arena.nodes@[node_id as int].children@[ci as int] as int].n
                == old(self).t - 1,
            child_lo(old(self).arena.nodes@[node_id as int], ci as int, lo) < (key as int)
                < child_hi(old(self).arena.nodes@[node_id as int], ci as int, hi),
        ensures
            final(self).t == old(self).t,
            final(self).root_id == old(self).root_id,
            final(self).height == old(self).height,
            node_inv(final(self).arena.nodes@, node_id as int, h, old(self).t as int, lo, hi, true),
            ids_ok(final(self).arena.nodes@, node_id as int, h),
            free_ok(*final(self), node_id as int, h),
            final(self).arena.nodes@[node_id as int].n
                >= old(self).arena.nodes@[node_id as int].n - 1,
            final(self).arena.nodes@[node_id as int].n <= old(
                self,
            ).arena.nodes@[node_id as int].n,
            subtree_keys_full(final(self).arena.nodes@, node_id as int, h) == subtree_keys_full(
                old(self).arena.nodes@,
                node_id as int,
                h,
            ),
            deletion_frame(*old(self), *final(self), node_id as int, h),
            forall|i: int|
                old(self).arena.free_list@.len() <= i < final(self).arena.free_list@.len()
                    ==> subtree_ids_full(old(self).arena.nodes@, node_id as int, h).contains(
                    #[trigger] (final(self).arena.free_list@[i] as int),
                ),
            exists|p2: int| fixed_landing(*final(self), node_id as int, key, lo, hi, p2),
    {
        let ghost o = old(self).arena.nodes@;
        let ghost f0 = old(self).arena.free_list@;
        let ghost nd0 = o[node_id as int];
        let t: usize = self.t;
        let n: usize = self.arena.nodes[node_id].n;
        proof {
            // The scan facts around `ci` in the old node.
            assert forall|j: int| 0 <= j < ci as int implies (#[trigger] nd0.keys@[j])
                < key by {
                assert(nd0.keys@[j] <= nd0.keys@[ci - 1]);
            }
            assert forall|j: int| ci as int <= j < nd0.n implies (#[trigger] nd0.keys@[j])
                > key by {
                assert(nd0.keys@[ci as int] <= nd0.keys@[j]);
            }
        }
        if ci > 0 {
            let left: usize = self.arena.nodes[node_id].children[ci - 1];
            proof {
                assert(node_inv(
                    o,
                    left as int,
                    (h - 1) as nat,
                    t as int,
                    child_lo(nd0, ci as int - 1, lo),
                    child_hi(nd0, ci as int - 1, hi),
                    false,
                ));
            }
            if self.arena.nodes[left].n >= t {
                self.borrow_from_left_sibling(node_id, ci, Ghost(h), Ghost(lo), Ghost(hi));
                proof {
                    let nd2 = self.arena.nodes@[node_id as int];
                    assert(fixed_landing(*self, node_id as int, key, lo, hi, ci as int)) by {
                        assert forall|j: int| 0 <= j < ci as int implies (#[trigger] nd2.keys@[j])
                            < key by {
                            if j < ci as int - 1 {
                                assert(nd2.keys@[j] == nd0.keys@[j]);
                            } else {
                                assert((nd2.keys@[j] as int) < nd0.keys@[j] as int);
                            }
                        }
                        assert(ci as int == nd2.n || nd2.keys@[ci as int] > key);
                        assert(nd2.children@[ci as int] == nd0.children@[ci as int]);
                        assert(child_hi(nd2, ci as int, hi) == child_hi(nd0, ci as int, hi));
                    }
                    assert(f0 =~= self.arena.free_list@);
                }
                return ;
            }
        }
        if (ci as usize) < n {
            let right: usize = self.arena.nodes[node_id].children[ci + 1];
            proof {
                assert(node_inv(
                    o,
                    right as int,
                    (h - 1) as nat,
                    t as int,
                    child_lo(nd0, ci as int + 1, lo),
                    child_hi(nd0, ci as int + 1, hi),
                    false,
                ));
            }
            if self.arena.nodes[right].n >= t {
                self.borrow_from_right_sibling(node_id, ci, Ghost(h), Ghost(lo), Ghost(hi));
                proof {
                    let nd2 = self.arena.nodes@[node_id as int];
                    assert(fixed_landing(*self, node_id as int, key, lo, hi, ci as int)) by {
                        assert forall|j: int| 0 <= j < ci as int implies (#[trigger] nd2.keys@[j])
                            < key by {
                            assert(nd2.keys@[j] == nd0.keys@[j]);
                        }
                        assert((nd2.keys@[ci as int] as int) > nd0.keys@[ci as int] as int);
                        assert(nd2.children@[ci as int] == nd0.children@[ci as int]);
                        assert(child_lo(nd2, ci as int, lo) == child_lo(nd0, ci as int, lo));
                        assert(child_hi(nd2, ci as int, hi) == nd2.keys@[ci as int]);
                    }
                    assert(f0 =~= self.arena.free_list@);
                }
                return ;
            }
        }
        if ci > 0 {
            self.merge_children(node_id, ci - 1, Ghost(h), Ghost(lo), Ghost(hi));
            proof {
                let nd2 = self.arena.nodes@[node_id as int];
                assert(fixed_landing(*self, node_id as int, key, lo, hi, ci as int - 1)) by {
                    assert(nd2.n == nd0.n - 1);
                    assert forall|j: int| 0 <= j < ci as int - 1 implies (
                    #[trigger] nd2.keys@[j]) < key by {
                        assert(nd2.keys@[j] == nd0.keys@[j]);
                    }
                    if ci as int - 1 < nd2.n {
                        assert((ci as int - 1) < nd0.n - 1);
                        assert(nd2.keys@[ci as int - 1] == nd0.keys@[(ci as int - 1) + 1]);
                        assert(nd0.keys@[ci as int] > key);
                    }
                    assert(nd2.children@[ci as int - 1] == nd0.children@[ci as int - 1]);
                    assert(self.arena.nodes@[nd0.children@[ci as int - 1] as int].n == 2 * t - 1);
                    assert(child_lo(nd2, ci as int - 1, lo) == child_lo(nd0, ci as int - 1, lo));
                }
            }
        } else {
            self.merge_children(node_id, ci, Ghost(h), Ghost(lo), Ghost(hi));
            proof {
                let nd2 = self.arena.nodes@[node_id as int];
                assert(fixed_landing(*self, node_id as int, key, lo, hi, 0)) by {
                    assert(nd2.n == nd0.n - 1);
                    if 0 < nd2.n {
                        assert(nd2.keys@[0int] == nd0.keys@[1int]);
                        assert(nd0.keys@[0] > key || nd0.n == 0);
                        assert(nd0.keys@[0] < nd0.keys@[1]);
                    }
                    assert(nd2.children@[0] == nd0.children@[0]);
                    assert(self.arena.nodes@[nd0.children@[0] as int].n == 2 * t - 1);
                }
            }
        }
    }

    /// Deletes the key at `idx` of the internal node at `node_id`: it is
    /// replaced by its in-order predecessor or successor when the
    /// adjacent child can spare a key, else the two children are merged
    /// around it and the deletion continues in the merged child.
    pub(crate) fn delete_from_internal_node(
        &mut self,
        node_id: usize,
        idx: usize,
        Ghost(h): Ghost<nat>,
        Ghost(lo): Ghost<int>,
        Ghost(hi): Ghost<int>,
    )
        requires
            2 <= old(self).t <= usize::MAX / 4,
            node_inv(old(self).arena.nodes@, node_id as int, h, old(self).t as int, lo, hi, true),
            ids_ok(old(self).arena.nodes@, node_id as int, h),
            free_ok(*old(self), node_id as int, h),
            h >= 1,
            (idx as int) < old(self).arena.nodes@[node_id as int].n,
        ensures
            final(self).t == old(self).t,
            final(self).root_id == old(self).root_id,
            final(self).height == old(self).height,
            node_inv(final(self).arena.nodes@, node_id as int, h, old(self).t as int, lo, hi, true),
            ids_ok(final(self).arena.nodes@, node_id as int, h),
            free_ok(*final(self), node_id as int, h),
            final(self).arena.nodes@[node_id as int].n
                >= old(self).arena.nodes@[node_id as int].n - 1,
            final(self).arena.nodes@[node_id as int].n <= old(
                self,
            ).arena.nodes@[node_id as int].n,
            subtree_keys_full(final(self).arena.nodes@, node_id as int, h) == subtree_keys_full(
                old(self).arena.nodes@,
                node_id as int,
                h,
            ).remove(old(self).arena.nodes@[node_id as int].keys@[idx as int]),
            deletion_frame(*old(self), *final(self), node_id as int, h),
            forall|i: int|
                old(self).arena.free_list@.len() <= i < final(self).arena.free_list@.len()
                    ==> subtree_ids_full(old(self).arena.nodes@, node_id as int, h).contains(
                    #[trigger] (final(self).arena.free_list@[i] as int),
                ),
        decreases h, 1nat,
    {
        let ghost o = old(self).arena.nodes@;
        let ghost f0 = old(self).arena.free_list@;
        let ghost nd0 = o[node_id as int];
        let t: usize = self.t;
        let key: u64 = self.arena.nodes[node_id].keys[idx];
        let left_id: usize = self.arena.nodes[node_id].children[idx];
        let right_id: usize = self.arena.nodes[node_id].children[idx + 1];
        let ghost lo_i = child_lo(nd0, idx as int, lo);
        let ghost hi_i1 = child_hi(nd0, idx as int + 1, hi);
        proof {
            assert(node_inv(o, left_id as int, (h - 1) as nat, t as int, lo_i, key as int, false));
            assert(node_inv(o, right_id as int, (h - 1) as nat, t as int, key as int, hi_i1, false));
            assert(ids_ok(o, left_id as int, (h - 1) as nat));
            assert(ids_ok(o, right_id as int, (h - 1) as nat));
            lemma_ids_base(o, node_id as int, h, nd0.n + 1);
            lemma_ids_child_sub(o, node_id as int, h, idx as int);
            lemma_ids_child_sub(o, node_id as int, h, idx as int + 1);
        }
        if self.arena.nodes[left_id].n >= t {
            let predecessor: u64 = self.find_predecessor(
                left_id,
                Ghost((h - 1) as nat),
                Ghost(lo_i),
                Ghost(key as int),
            );
            proof {
                lemma_subtree_bounded(
                    o,
                    left_id as int,
                    (h - 1) as nat,
                    t as int,
                    lo_i,
                    key as int,
                    false,
                    o[left_id as int].n + 1,
                );
                assert(subtree_keys_full(o, left_id as int, (h - 1) as nat) == subtree_keys_upto(
                    o,
                    left_id as int,
                    (h - 1) as nat,
                    o[left_id as int].n + 1,
                ));
                assert(lo_i < (predecessor as int) < key as int);
                assert forall|i: int| 0 <= i < f0.len() implies {
                    &&& 0 <= #[trigger] (f0[i] as int) < o.len()
                    &&& is_empty_node(o[f0[i] as int], t as int)
                    &&& !subtree_ids_full(o, left_id as int, (h - 1) as nat).contains(f0[i] as int)
                } by {
                    if subtree_ids_full(o, left_id as int, (h - 1) as nat).contains(f0[i] as int) {
                        assert(subtree_ids_full(o, node_id as int, h).contains(f0[i] as int));
                        assert(false);
                    }
                }
            }
            self.recursive_delete(
                left_id,
                predecessor,
                Ghost((h - 1) as nat),
                Ghost(lo_i),
                Ghost(key as int),
                Ghost(false),
            );
            let ghost m = *self;
            self.arena.set_key(node_id, idx, predecessor);
            proof {
                let n2 = self.arena.nodes@;
                let f2 = self.arena.free_list@;
                assert(!subtree_ids_full(o, left_id as int, (h - 1) as nat).contains(
                    node_id as int,
                ));
                assert(m.arena.nodes@[node_id as int] == nd0);
                // Transfer the child-level conclusions across the parent
                // record update.
                assert forall|x: int| #[trigger]
                    subtree_ids_full(m.arena.nodes@, left_id as int, (h - 1) as nat).contains(
                    x,
                ) implies n2[x] == m.arena.nodes@[x] by {
                    assert(subtree_ids_full(o, left_id as int, (h - 1) as nat).contains(x));
                    assert(x != node_id as int);
                    lemma_ids_bounded(
                        o,
                        left_id as int,
                        (h - 1) as nat,
                        t as int,
                        lo_i,
                        key as int,
                        false,
                        o[left_id as int].n + 1,
                    );
                    assert(subtree_ids_full(o, left_id as int, (h - 1) as nat)
                        == subtree_ids_upto(
                        o,
                        left_id as int,
                        (h - 1) as nat,
                        o[left_id as int].n + 1,
                    ));
                }
                lemma_frame(
                    m.arena.nodes@,
                    n2,
                    left_id as int,
                    (h - 1) as nat,
                    t as int,
                    lo_i,
                    key as int,
                    true,
                );
                lemma_replace_sep_pred(
                    o,
                    n2,
                    node_id as int,
                    idx as int,
                    predecessor,
                    h,
                    t as int,
                    lo,
                    hi,
                );
                // Free-slot discipline afterwards.
                assert(free_ok(*self, node_id as int, h)) by {
                    assert forall|i: int| 0 <= i < f2.len() implies {
                        &&& 0 <= #[trigger] (f2[i] as int) < n2.len()
                        &&& is_empty_node(n2[f2[i] as int], t as int)
                        &&& !subtree_ids_full(n2, node_id as int, h).contains(f2[i] as int)
                    } by {
                        assert(f2[i] as int != node_id as int) by {
                            if i < f0.len() {
                                assert(f2[i] == f0[i]);
                            } else {
                                assert(subtree_ids_full(o, left_id as int, (h - 1) as nat)
                                    .contains(f2[i] as int));
                            }
                        }
                        assert(n2[f2[i] as int] == m.arena.nodes@[f2[i] as int]);
                        if subtree_ids_full(n2, node_id as int, h).contains(f2[i] as int) {
                            assert(subtree_ids_full(o, node_id as int, h).contains(f2[i] as int));
                            lemma_ids_decompose(n2, node_id as int, h, nd0.n + 1, f2[i] as int);
                            assert(subtree_ids_full(n2, node_id as int, h) == subtree_ids_upto(
                                n2,
                                node_id as int,
                                h,
                                nd0.n + 1,
                            ));
                            let j = choose|j: int|
                                0 <= j <= nd0.n && subtree_ids_full(
                                    n2,
                                    #[trigger] (n2[node_id as int].children@[j] as int),
                                    (h - 1) as nat,
                                ).contains(f2[i] as int);
                            assert(n2[node_id as int].children@[j] == nd0.children@[j]);
                            if j == idx as int {
                                assert(!subtree_ids_full(
                                    m.arena.nodes@,
                                    left_id as int,
                                    (h - 1) as nat,
                                ).contains(f2[i] as int));
                                assert(false);
                            } else {
                                assert(subtree_ids_full(n2, nd0.children@[j] as int, (h - 1) as nat)
                                    == subtree_ids_full(
                                    o,
                                    nd0.children@[j] as int,
                                    (h - 1) as nat,
                                ));
                                assert(subtree_ids_full(
                                    o,
                                    nd0.children@[j] as int,
                                    (h - 1) as nat,
                                ).contains(f2[i] as int));
                                lemma_ids_child_sub(o, node_id as int, h, j);
                                if i < f0.len() {
                                    assert(!subtree_ids_full(o, node_id as int, h).contains(
                                        f0[i] as int,
                                    ));
                                    assert(false);
                                } else {
                                    assert(subtree_ids_full(o, left_id as int, (h - 1) as nat)
                                        .contains(f2[i] as int));
                                    if j < idx as int {
                                        assert(subtree_ids_full(
                                            o,
                                            nd0.children@[j] as int,
                                            (h - 1) as nat,
                                        ).disjoint(
                                            subtree_ids_full(o, left_id as int, (h - 1) as nat),
                                        ));
                                    } else {
                                        assert(subtree_ids_full(
                                            o,
                                            left_id as int,
                                            (h - 1) as nat,
                                        ).disjoint(
                                            subtree_ids_full(
                                                o,
                                                nd0.children@[j] as int,
                                                (h - 1) as nat,
                                            ),
                                        ));
                                    }
                                    assert(false);
                                }
                            }
                        }
                    }
                }
                assert(deletion_frame(*old(self), *self, node_id as int, h)) by {
                    assert forall|j: int|
                        0 <= j < o.len() && !subtree_ids_full(o, node_id as int, h).contains(
                            j,
                        ) implies n2[j] == #[trigger] o[j] by {
                        assert(!subtree_ids_full(o, left_id as int, (h - 1) as nat).contains(j));
                        assert(j != node_id as int);
                        assert(n2[j] == m.arena.nodes@[j]);
                        assert(m.arena.nodes@[j] == o[j]);
                    }
                }
                assert forall|i: int| f0.len() <= i < f2.len() implies subtree_ids_full(
                    o,
                    node_id as int,
                    h,
                ).contains(#[trigger] (f2[i] as int)) by {
                    assert(subtree_ids_full(o, left_id as int, (h - 1) as nat).contains(
                        f2[i] as int,
                    ));
                }
            }
        } else if self.arena.nodes[right_id].n >= t {
            let successor: u64 = self.find_successor(
                right_id,
                Ghost((h - 1) as nat),
                Ghost(key as int),
                Ghost(hi_i1),
            );
            proof {
                lemma_subtree_bounded(
                    o,
                    right_id as int,
                    (h - 1) as nat,
                    t as int,
                    key as int,
                    hi_i1,
                    false,
                    o[right_id as int].n + 1,
                );
                assert(subtree_keys_full(o, right_id as int, (h - 1) as nat) == subtree_keys_upto(
                    o,
                    right_id as int,
                    (h - 1) as nat,
                    o[right_id as int].n + 1,
                ));
                assert((key as int) < (successor as int) && (successor as int) < hi_i1);
                assert forall|i: int| 0 <= i < f0.len() implies {
                    &&& 0 <= #[trigger] (f0[i] as int) < o.len()
                    &&& is_empty_node(o[f0[i] as int], t as int)
                    &&& !subtree_ids_full(o, right_id as int, (h - 1) as nat).contains(
                        f0[i] as int,
                    )
                } by {
                    if subtree_ids_full(o, right_id as int, (h - 1) as nat).contains(
                        f0[i] as int,
                    ) {
                        assert(subtree_ids_full(o, node_id as int, h).contains(f0[i] as int));
                        assert(false);
                    }
                }
            }
            self.recursive_delete(
                right_id,
                successor,
                Ghost((h - 1) as nat),
                Ghost(key as int),
                Ghost(hi_i1),
                Ghost(false),
            );
            let ghost m = *self;
            self.arena.set_key(node_id, idx, successor);
            proof {
                let n2 = self.arena.nodes@;
                let f2 = self.arena.free_list@;
                assert(!subtree_ids_full(o, right_id as int, (h - 1) as nat).contains(
                    node_id as int,
                ));
                assert(m.arena.nodes@[node_id as int] == nd0);
                assert forall|x: int| #[trigger]
                    subtree_ids_full(m.arena.nodes@, right_id as int, (h - 1) as nat).contains(
                    x,
                ) implies n2[x] == m.arena.nodes@[x] by {
                    assert(subtree_ids_full(o, right_id as int, (h - 1) as nat).contains(x));
                    assert(x != node_id as int);
                    lemma_ids_bounded(
                        o,
                        right_id as int,
                        (h - 1) as nat,
                        t as int,
                        key as int,
                        hi_i1,
                        false,
                        o[right_id as int].n + 1,
                    );
                    assert(subtree_ids_full(o, right_id as int, (h - 1) as nat)
                        == subtree_ids_upto(
                        o,
                        right_id as int,
                        (h - 1) as nat,
                        o[right_id as int].n + 1,
                    ));
                }
                lemma_frame(
                    m.arena.nodes@,
                    n2,
                    right_id as int,
                    (h - 1) as nat,
                    t as int,
                    key as int,
                    hi_i1,
                    true,
                );
                lemma_replace_sep_succ(
                    o,
                    n2,
                    node_id as int,
                    idx as int,
                    successor,
                    h,
                    t as int,
                    lo,
                    hi,
                );
                assert(free_ok(*self, node_id as int, h)) by {
                    assert forall|i: int| 0 <= i < f2.len() implies {
                        &&& 0 <= #[trigger] (f2[i] as int) < n2.len()
                        &&& is_empty_node(n2[f2[i] as int], t as int)
                        &&& !subtree_ids_full(n2, node_id as int, h).contains(f2[i] as int)
                    } by {
                        assert(f2[i] as int != node_id as int) by {
                            if i < f0.len() {
                                assert(f2[i] == f0[i]);
                            } else {
                                assert(subtree_ids_full(o, right_id as int, (h - 1) as nat)
                                    .contains(f2[i] as int));
                            }
                        }
                        assert(n2[f2[i] as int] == m.arena.nodes@[f2[i] as int]);
                        if subtree_ids_full(n2, node_id as int, h).contains(f2[i] as int) {
                            assert(subtree_ids_full(o, node_id as int, h).contains(f2[i] as int));
                            lemma_ids_decompose(n2, node_id as int, h, nd0.n + 1, f2[i] as int);
                            assert(subtree_ids_full(n2, node_id as int, h) == subtree_ids_upto(
                                n2,
                                node_id as int,
                                h,
                                nd0.n + 1,
                            ));
                            let j = choose|j: int|
                                0 <= j <= nd0.n && subtree_ids_full(
                                    n2,
                                    #[trigger] (n2[node_id as int].children@[j] as int),
                                    (h - 1) as nat,
                                ).contains(f2[i] as int);
                            assert(n2[node_id as int].children@[j] == nd0.children@[j]);
                            if j == idx as int + 1 {
                                assert(!subtree_ids_full(
                                    m.arena.nodes@,
                                    right_id as int,
                                    (h - 1) as nat,
                                ).contains(f2[i] as int));
                                assert(false);
                            } else {
                                assert(subtree_ids_full(n2, nd0.children@[j] as int, (h - 1) as nat)
                                    == subtree_ids_full(
                                    o,
                                    nd0.children@[j] as int,
                                    (h - 1) as nat,
                                ));
                                assert(subtree_ids_full(
                                    o,
                                    nd0.children@[j] as int,
                                    (h - 1) as nat,
                                ).contains(f2[i] as int));
                                lemma_ids_child_sub(o, node_id as int, h, j);
                                if i < f0.len() {
                                    assert(!subtree_ids_full(o, node_id as int, h).contains(
                                        f0[i] as int,
                                    ));
                                    assert(false);
                                } else {
                                    assert(subtree_ids_full(o, right_id as int, (h - 1) as nat)
                                        .contains(f2[i] as int));
                                    if j < idx as int + 1 {
                                        assert(subtree_ids_full(
                                            o,
                                            nd0.children@[j] as int,
                                            (h - 1) as nat,
                                        ).disjoint(
                                            subtree_ids_full(o, right_id as int, (h - 1) as nat),
                                        ));
                                    } else {
                                        assert(subtree_ids_full(
                                            o,
                                            right_id as int,
                                            (h - 1) as nat,
                                        ).disjoint(
                                            subtree_ids_full(
                                                o,
                                                nd0.children@[j] as int,
                                                (h - 1) as nat,
                                            ),
                                        ));
                                    }
                                    assert(false);
                                }
                            }
                        }
                    }
                }
                assert(deletion_frame(*old(self), *self, node_id as int, h)) by {
                    assert forall|j: int|
                        0 <= j < o.len() && !subtree_ids_full(o, node_id as int, h).contains(
                            j,
                        ) implies n2[j] == #[trigger] o[j] by {
                        assert(!subtree_ids_full(o, right_id as int, (h - 1) as nat).contains(j));
                        assert(j != node_id as int);
                        assert(n2[j] == m.arena.nodes@[j]);
                        assert(m.arena.nodes@[j] == o[j]);
                    }
                }
                assert forall|i: int| f0.len() <= i < f2.len() implies subtree_ids_full(
                    o,
                    node_id as int,
                    h,
                ).contains(#[trigger] (f2[i] as int)) by {
                    assert(subtree_ids_full(o, right_id as int, (h - 1) as nat).contains(
                        f2[i] as int,
                    ));
                }
            }
        } else {
            self.merge_children(node_id, idx, Ghost(h), Ghost(lo), Ghost(hi));
            let ghost m = *self;
            let ghost om = m.arena.nodes@;
            let ghost fm = m.arena.free_list@;
            proof {
                let ndm = om[node_id as int];
                assert(ndm.children@[idx as int] == left_id);
                assert(om[left_id as int].n == 2 * t - 1);
                assert(child_lo(ndm, idx as int, lo) < (key as int) < child_hi(
                    ndm,
                    idx as int,
                    hi,
                )) by {
                    if idx as int > 0 {
                        assert(ndm.keys@[idx as int - 1] == nd0.keys@[idx as int - 1]);
                        assert(nd0.keys@[idx as int - 1] < key);
                    }
                    if (idx as int) < ndm.n {
                        assert(ndm.keys@[idx as int] == nd0.keys@[idx as int + 1]);
                        assert(key < nd0.keys@[idx as int + 1]);
                    }
                }
                assert(!node_keys(ndm).contains(key)) by {
                    if node_keys(ndm).contains(key) {
                        let i = choose|i: int| 0 <= i < ndm.n && ndm.keys@[i] == key;
                        if i < idx as int {
                            assert(ndm.keys@[i] == nd0.keys@[i]);
                            assert(nd0.keys@[i] < nd0.keys@[idx as int]);
                        } else {
                            assert(ndm.keys@[i] == nd0.keys@[i + 1]);
                            assert(nd0.keys@[idx as int] < nd0.keys@[i + 1]);
                        }
                        assert(false);
                    }
                }
                assert(node_inv(
                    om,
                    left_id as int,
                    (h - 1) as nat,
                    t as int,
                    child_lo(ndm, idx as int, lo),
                    child_hi(ndm, idx as int, hi),
                    false,
                ));
                assert(ids_ok(om, left_id as int, (h - 1) as nat));
                lemma_ids_base(om, node_id as int, h, ndm.n + 1);
                lemma_ids_child_sub(om, node_id as int, h, idx as int);
                assert forall|i: int| 0 <= i < fm.len() implies {
                    &&& 0 <= #[trigger] (fm[i] as int) < om.len()
                    &&& is_empty_node(om[fm[i] as int], t as int)
                    &&& !subtree_ids_full(om, left_id as int, (h - 1) as nat).contains(
                        fm[i] as int,
                    )
                } by {
                    if subtree_ids_full(om, left_id as int, (h - 1) as nat).contains(
                        fm[i] as int,
                    ) {
                        assert(subtree_ids_full(om, node_id as int, h).contains(fm[i] as int));
                        assert(false);
                    }
                }
            }
            self.recursive_delete(
                left_id,
                key,
                Ghost((h - 1) as nat),
                Ghost(child_lo(m.arena.nodes@[node_id as int], idx as int, lo)),
                Ghost(child_hi(m.arena.nodes@[node_id as int], idx as int, hi)),
                Ghost(false),
            );
            proof {
                let n2 = self.arena.nodes@;
                let f2 = self.arena.free_list@;
                assert(f2.no_duplicates());
                lemma_descend_del(
                    om,
                    n2,
                    fm,
                    f2,
                    node_id as int,
                    idx as int,
                    key,
                    h,
                    t as int,
                    lo,
                    hi,
                );
                assert(deletion_frame(m, *self, node_id as int, h)) by {
                    assert(fm.is_prefix_of(f2));
                }
                lemma_deletion_frame_trans(*old(self), m, *self, node_id as int, h);
                assert(subtree_keys_full(n2, node_id as int, h) == subtree_keys_full(
                    o,
                    node_id as int,
                    h,
                ).remove(key));
                assert(free_ok(*self, node_id as int, h));
                assert forall|i: int| f0.len() <= i < f2.len() implies subtree_ids_full(
                    o,
                    node_id as int,
                    h,
                ).contains(#[trigger] (f2[i] as int)) by {
                    if i < fm.len() {
                        assert(f2[i] == fm[i]);
                        assert(subtree_ids_full(o, node_id as int, h).contains(fm[i] as int));
                    } else {
                        assert(subtree_ids_full(om, node_id as int, h).contains(f2[i] as int));
                    }
                }
            }
        }
    }

    /// The largest key of the subtree under `node_id`: the last key of
    /// its rightmost leaf.
    fn find_predecessor(
        &self,
        node_id: usize,
        Ghost(h): Ghost<nat>,
        Ghost(lo): Ghost<int>,
        Ghost(hi): Ghost<int>,
    ) -> (r: u64)
        requires
            2 <= self.t <= usize::MAX / 4,
            node_inv(self.arena.nodes@, node_id as int, h, self.t as int, lo, hi, false),
        ensures
            subtree_keys_full(self.arena.nodes@, node_id as int, h).contains(r),
            forall|k: u64|
                #[trigger] subtree_keys_full(self.arena.nodes@, node_id as int, h).contains(k)
                    ==> k <= r,
        decreases h,
    {
        let ghost nodes = self.arena.nodes@;
        let ghost nd = nodes[node_id as int];
        let nd_n: usize = self.arena.nodes[node_id].n;
        if self.arena.nodes[node_id].is_leaf {
            let r: u64 = self.arena.nodes[node_id].keys[nd_n - 1];
            proof {
                assert(node_keys(nd).contains(r));
                assert(subtree_keys_full(nodes, node_id as int, h) == node_keys(nd));
                assert forall|k: u64| #[trigger]
                    subtree_keys_full(nodes, node_id as int, h).contains(k) implies k <= r by {
                    let i = choose|i: int| 0 <= i < nd.n && nd.keys@[i] == k;
                    if i < nd.n - 1 {
                        assert(nd.keys@[i] < nd.keys@[nd.n - 1]);
                    }
                }
            }
            return r;
        }
        let c: usize = self.arena.nodes[node_id].children[nd_n];
        let ghost clo = child_lo(nd, nd_n as int, lo);
        proof {
            assert(node_inv(nodes, c as int, (h - 1) as nat, self.t as int, clo, hi, false));
        }
        let r: u64 = self.find_predecessor(c, Ghost((h - 1) as nat), Ghost(clo), Ghost(hi));
        proof {
            lemma_subtree_decompose(nodes, node_id as int, h, nd.n + 1, r);
            assert(subtree_keys_full(nodes, node_id as int, h) == subtree_keys_upto(
                nodes,
                node_id as int,
                h,
                nd.n + 1,
            ));
            lemma_subtree_bounded(
                nodes,
                c as int,
                (h - 1) as nat,
                self.t as int,
                clo,
                hi,
                false,
                nodes[c as int].n + 1,
            );
            assert(subtree_keys_upto(nodes, c as int, (h - 1) as nat, nodes[c as int].n
                + 1).contains(r));
            assert(clo < (r as int));
            assert forall|k: u64| #[trigger]
                subtree_keys_full(nodes, node_id as int, h).contains(k) implies k <= r by {
                lemma_subtree_decompose(nodes, node_id as int, h, nd.n + 1, k);
                if node_keys(nd).contains(k) {
                    let i = choose|i: int| 0 <= i < nd.n && nd.keys@[i] == k;
                    if i < nd.n - 1 {
                        assert(nd.keys@[i] < nd.keys@[nd.n - 1]);
                    }
                    assert((k as int) <= clo);
                } else {
                    let j = choose|j: int|
                        0 <= j < nd.n + 1 && subtree_keys_full(
                            nodes,
                            #[trigger] (nd.children@[j] as int),
                            (h - 1) as nat,
                        ).contains(k);
                    if j < nd.n {
                        let cj = nd.children@[j] as int;
                        assert(node_inv(
                            nodes,
                            cj,
                            (h - 1) as nat,
                            self.t as int,
                            child_lo(nd, j, lo),
                            child_hi(nd, j, hi),
                            false,
                        ));
                        lemma_subtree_bounded(
                            nodes,
                            cj,
                            (h - 1) as nat,
                            self.t as int,
                            child_lo(nd, j, lo),
                            child_hi(nd, j, hi),
                            false,
                            nodes[cj].n + 1,
                        );
                        assert(subtree_keys_upto(nodes, cj, (h - 1) as nat, nodes[cj].n
                            + 1).contains(k));
                        assert((k as int) < child_hi(nd, j, hi));
                        assert(child_hi(nd, j, hi) == nd.keys@[j]);
                        assert(nd.keys@[j] <= nd.keys@[nd.n - 1]);
                    }
                }
            }
        }
        r
    }

    /// The smallest key of the subtree under `node_id`: the first key of
    /// its leftmost leaf.
    fn find_successor(
        &self,
        node_id: usize,
        Ghost(h): Ghost<nat>,
        Ghost(lo): Ghost<int>,
        Ghost(hi): Ghost<int>,
    ) -> (r: u64)
        requires
            2 <= self.t <= usize::MAX / 4,
            node_inv(self.arena.nodes@, node_id as int, h, self.t as int, lo, hi, false),
        ensures
            subtree_keys_full(self.arena.nodes@, node_id as int, h).contains(r),
            forall|k: u64|
                #[trigger] subtree_keys_full(self.arena.nodes@, node_id as int, h).contains(k)
                    ==> k >= r,
        decreases h,
    {
        let ghost nodes = self.arena.nodes@;
        let ghost nd = nodes[node_id as int];
        if self.arena.nodes[node_id].is_leaf {
            let r: u64 = self.arena.nodes[node_id].keys[0];
            proof {
                assert(node_keys(nd).contains(r));
                assert(subtree_keys_full(nodes, node_id as int, h) == node_keys(nd));
                assert forall|k: u64| #[trigger]
                    subtree_keys_full(nodes, node_id as int, h).contains(k) implies k >= r by {
                    let i = choose|i: int| 0 <= i < nd.n && nd.keys@[i] == k;
                    if i > 0 {
                        assert(nd.keys@[0] < nd.keys@[i]);
                    }
                }
            }
            return r;
        }
        let c: usize = self.arena.nodes[node_id].children[0];
        let ghost chi = child_hi(nd, 0, hi);
        proof {
            assert(node_inv(nodes, c as int, (h - 1) as nat, self.t as int, lo, chi, false));
        }
        let r: u64 = self.find_successor(c, Ghost((h - 1) as nat), Ghost(lo), Ghost(chi));
        proof {
            lemma_subtree_decompose(nodes, node_id as int, h, nd.n + 1, r);
            assert(subtree_keys_full(nodes, node_id as int, h) == subtree_keys_upto(
                nodes,
                node_id as int,
                h,
                nd.n + 1,
            ));
            lemma_subtree_bounded(
                nodes,
                c as int,
                (h - 1) as nat,
                self.t as int,
                lo,
                chi,
                false,
                nodes[c as int].n + 1,
            );
            assert(subtree_keys_upto(nodes, c as int, (h - 1) as nat, nodes[c as int].n
                + 1).contains(r));
            assert((r as int) < chi);
            assert forall|k: u64| #[trigger]
                subtree_keys_full(nodes, node_id as int, h).contains(k) implies k >= r by {
                lemma_subtree_decompose(nodes, node_id as int, h, nd.n + 1, k);
                if node_keys(nd).contains(k) {
                    let i = choose|i: int| 0 <= i < nd.n && nd.keys@[i] == k;
                    if i > 0 {
                        assert(nd.keys@[0] < nd.keys@[i]);
                    }
                    assert((k as int) >= chi);
                } else {
                    let j = choose|j: int|
                        0 <= j < nd.n + 1 && subtree_keys_full(
                            nodes,
                            #[trigger] (nd.children@[j] as int),
                            (h - 1) as nat,
                        ).contains(k);
                    if j > 0 {
                        let cj = nd.children@[j] as int;
                        assert(node_inv(
                            nodes,
                            cj,
                            (h - 1) as nat,
                            self.t as int,
                            child_lo(nd, j, lo),
                            child_hi(nd, j, hi),
                            false,
                        ));
                        lemma_subtree_bounded(
                            nodes,
                            cj,
                            (h - 1) as nat,
                            self.t as int,
                            child_lo(nd, j, lo),
                            child_hi(nd, j, hi),
                            false,
                            nodes[cj].n + 1,
                        );
                        assert(subtree_keys_upto(nodes, cj, (h - 1) as nat, nodes[cj].n
                            + 1).contains(k));
                        assert((k as int) > child_lo(nd, j, lo));
                        assert(child_lo(nd, j, lo) == nd.keys@[j - 1]);
                        assert(nd.keys@[0] <= nd.keys@[j - 1]);
                    }
                }
            }
        }
        r
    }

    /// Deletes the key at `idx` of the leaf at `node_id` by shifting the
    /// tail of the key array one place left.
    fn remove_from_leaf(
        &mut self,
        node_id: usize,
        idx: usize,
        Ghost(lo): Ghost<int>,
        Ghost(hi): Ghost<int>,
    )
        requires
            2 <= old(self).t <= usize::MAX / 4,
            node_inv(old(self).arena.nodes@, node_id as int, 0, old(self).t as int, lo, hi, true),
            (idx as int) < old(self).arena.nodes@[node_id as int].n,
        ensures
            final(self).t == old(self).t,
            final(self).root_id == old(self).root_id,
            final(self).height == old(self).height,
            final(self).arena.free_list@ == old(self).arena.free_list@,
            final(self).arena.nodes@.len() == old(self).arena.nodes@.len(),
            forall|j: int|
                0 <= j < old(self).arena.nodes@.len() && j != node_id
                    ==> final(self).arena.nodes@[j] == old(self).arena.nodes@[j],
            node_inv(final(self).arena.nodes@, node_id as int, 0, old(self).t as int, lo, hi, true),
            final(self).arena.nodes@[node_id as int].n == old(
                self,
            ).arena.nodes@[node_id as int].n - 1,
            subtree_keys_full(final(self).arena.nodes@, node_id as int, 0) == subtree_keys_full(
                old(self).arena.nodes@,
                node_id as int,
                0,
            ).remove(old(self).arena.nodes@[node_id as int].keys@[idx as int]),
    {
        let ghost nd1 = self.arena.nodes@[node_id as int];
        let n: usize = self.arena.nodes[node_id].n;
        let mut i: usize = idx;
        while i < n - 1
            invariant
                idx <= i <= n - 1,
                1 <= n,
                self.t == old(self).t,
                self.root_id == old(self).root_id,
                self.height == old(self).height,
                self.arena.free_list@ == old(self).arena.free_list@,
                self.arena.nodes@.len() == old(self).arena.nodes@.len(),
                forall|j: int|
                    0 <= j < old(self).arena.nodes@.len() && j != node_id ==> self.arena.nodes@[j]
                        == old(self).arena.nodes@[j],
                nd1 == old(self).arena.nodes@[node_id as int],
                node_id < self.arena.nodes@.len(),
                n == nd1.n <= nd1.keys@.len(),
                self.arena.nodes@[node_id as int].n == nd1.n,
                self.arena.nodes@[node_id as int].is_leaf == nd1.is_leaf,
                self.arena.nodes@[node_id as int].children@ == nd1.children@,
                self.arena.nodes@[node_id as int].keys@.len() == nd1.keys@.len(),
                forall|j: int|
                    0 <= j < idx ==> #[trigger] self.arena.nodes@[node_id as int].keys@[j]
                        == nd1.keys@[j],
                forall|j: int|
                    idx <= j < i ==> #[trigger] self.arena.nodes@[node_id as int].keys@[j]
                        == nd1.keys@[j + 1],
                forall|j: int|
                    i <= j < n ==> #[trigger] self.arena.nodes@[node_id as int].keys@[j]
                        == nd1.keys@[j],
            decreases n - i,
        {
            let kv: u64 = self.arena.nodes[node_id].keys[i + 1];
            self.arena.set_key(node_id, i, kv);
            i = i + 1;
        }
        self.arena.set_n(node_id, n - 1);
        proof {
            let nd2 = self.arena.nodes@[node_id as int];
            assert forall|a: int, b: int| 0 <= a < b < nd1.n implies #[trigger] nd1.keys@[a]
                != #[trigger] nd1.keys@[b] by {
                assert(nd1.keys@[a] < nd1.keys@[b]);
            }
            lemma_node_keys_remove(nd1, nd2, idx as int);
            assert forall|a: int, b: int| 0 <= a < b < nd2.n implies #[trigger] nd2.keys@[a]
                < #[trigger] nd2.keys@[b] by {
                if b < idx {
                } else if a < idx {
                    assert(nd2.keys@[a] == nd1.keys@[a] && nd2.keys@[b] == nd1.keys@[b + 1]);
                } else {
                    assert(nd2.keys@[a] == nd1.keys@[a + 1] && nd2.keys@[b] == nd1.keys@[b + 1]);
                }
            }
            assert forall|a: int| 0 <= a < nd2.n implies lo < #[trigger] (nd2.keys@[a] as int)
                < hi by {
                if a < idx {
                    assert(nd2.keys@[a] == nd1.keys@[a]);
                } else {
                    assert(nd2.keys@[a] == nd1.keys@[a + 1]);
                }
            }
        }
    }
}

} // verus!
