//! A max-tree over the free-space categories of the slots of one free
//! space map page, stored as an array: node `i` has the children `2i + 1`
//! and `2i + 2`; the first `non_leaf_nodes` entries are inner nodes and the
//! rest are the leaves, one per slot.
use vstd::prelude::*;

use crate::layout::{is_power_of_two, valid_page_size, PageDataLayout, PAGE_HEADER_SIZE, SLOT_SIZE, MAX_PAGE_SIZE};

verus! {

// ---------------------------------------------------------------------------
// Model of the array tree
// ---------------------------------------------------------------------------

/// Depth of node `i`: the root has depth 0.
pub open spec fn depth(i: nat) -> nat
    decreases i,
{
    if i == 0 {
        0
    } else {
        depth(((i - 1) / 2) as nat) + 1
    }
}

/// The value of node `j`, where nodes past the end of the array count as 0.
pub open spec fn val(a: Seq<u8>, j: int) -> u8 {
    if 0 <= j < a.len() {
        a[j]
    } else {
        0
    }
}

pub open spec fn max_u8(x: u8, y: u8) -> u8 {
    if x >= y {
        x
    } else {
        y
    }
}

/// An array of `len` nodes whose first `nl` are inner nodes: every leaf
/// has an inner node as parent, and the inner nodes fill whole levels, so
/// that all leaves lie on one level.
pub open spec fn tree_shape(len: nat, nl: nat) -> bool {
    &&& 1 <= nl < len <= 2 * nl + 1
    &&& depth((nl - 1) as nat) < depth(nl)
}

/// Every inner node holds the larger of its children's values.
pub open spec fn consistent(a: Seq<u8>, nl: nat) -> bool {
    forall|i: int| 0 <= i < nl ==> #[trigger] a[i] == max_u8(val(a, 2 * i + 1), val(a, 2 * i + 2))
}

/// The leaf that a search for `min` reaches from node `i`: go to the left
/// child when it holds at least `min`, else to the right child when it
/// does; `None` where neither does, or where the left child is missing.
pub open spec fn descend(a: Seq<u8>, nl: nat, min: u8, i: nat) -> Option<nat>
    decreases a.len() - i,
{
    if i >= nl {
        Some(i)
    } else if 2 * i + 1 >= a.len() {
        None
    } else if a[(2 * i + 1) as int] >= min {
        descend(a, nl, min, (2 * i + 1) as nat)
    } else if 2 * i + 2 < a.len() && a[(2 * i + 2) as int] >= min {
        descend(a, nl, min, (2 * i + 2) as nat)
    } else {
        None
    }
}

/// The search for `min` from node `i` never reads a left child past the
/// end of the array.
pub open spec fn descent_safe(a: Seq<u8>, nl: nat, min: u8, i: nat) -> bool
    decreases a.len() - i,
{
    if i >= nl {
        true
    } else if 2 * i + 1 >= a.len() {
        false
    } else if a[(2 * i + 1) as int] >= min {
        descent_safe(a, nl, min, (2 * i + 1) as nat)
    } else if 2 * i + 2 < a.len() && a[(2 * i + 2) as int] >= min {
        descent_safe(a, nl, min, (2 * i + 2) as nat)
    } else {
        true
    }
}

/// What a search for `min` answers: nothing when the root holds less than
/// `min`; else the slot of the leaf reached, paired with the space that
/// leaf records.
pub open spec fn spec_find(a: Seq<u8>, nl: nat, min: u8) -> Option<(nat, u8)> {
    if a[0] < min {
        None
    } else {
        match descend(a, nl, min, 0) {
            Some(j) => Some(((j - nl) as nat, a[j as int])),
            None => None,
        }
    }
}

/// Walks up from node `n`, whose value has changed, and sets each parent to
/// the larger of its children, stopping at the first parent that keeps its
/// value, or after the root.
pub open spec fn fix_up(a: Seq<u8>, n: nat) -> Seq<u8>
    decreases n,
{
    if n == 0 {
        a
    } else {
        let p = ((n - 1) / 2) as nat;
        let nv = max_u8(val(a, (2 * p + 1) as int), val(a, (2 * p + 2) as int));
        if a[p as int] == nv {
            a
        } else if p == 0 {
            a.update(p as int, nv)
        } else {
            fix_up(a.update(p as int, nv), p)
        }
    }
}

/// The array after the leaf of `slot` is set to `v`.
#[verifier::opaque]
pub open spec fn spec_set(a: Seq<u8>, nl: nat, slot: nat, v: u8) -> Seq<u8> {
    let node = nl + slot;
    if node >= a.len() {
        a
    } else if a[node as int] == v && v <= a[0] {
        a
    } else {
        fix_up(a.update(node as int, v), node)
    }
}

/// The first leaf under node `i` (following left children).
pub open spec fn lo(nl: nat, i: nat) -> nat
    decreases 2 * nl + 1 - i,
{
    if i >= nl {
        i
    } else {
        lo(nl, (2 * i + 1) as nat)
    }
}

/// The last leaf position under node `i` (following right children).
pub open spec fn hi(nl: nat, i: nat) -> nat
    decreases 2 * nl + 1 - i,
{
    if i >= nl {
        i
    } else {
        hi(nl, (2 * i + 2) as nat)
    }
}

// ---------------------------------------------------------------------------
// Lemmas on the shape
// ---------------------------------------------------------------------------

proof fn lemma_depth_children(i: nat)
    ensures
        depth((2 * i + 1) as nat) == depth(i) + 1,
        depth((2 * i + 2) as nat) == depth(i) + 1,
        i > 0 ==> depth((2 * i) as nat) == depth((i - 1) as nat) + 1,
{
    assert(((2 * i + 1) as nat - 1) / 2 == i);
    assert(((2 * i + 2) as nat - 1) / 2 == i);
    if i > 0 {
        assert(((2 * i) as nat - 1) / 2 == i - 1);
    }
}

proof fn lemma_depth_monotone(x: nat, y: nat)
    requires
        x <= y,
    ensures
        depth(x) <= depth(y),
    decreases y,
{
    if x > 0 {
        lemma_depth_monotone(((x - 1) / 2) as nat, ((y - 1) / 2) as nat);
    }
}

/// For a power of two `m >= 2`, node `m - 1` starts a new level.
proof fn lemma_depth_power_of_two(m: nat)
    requires
        is_power_of_two(m),
        m >= 2,
    ensures
        depth((m - 1) as nat) == depth((m - 2) as nat) + 1,
    decreases m,
{
    if m == 2 {
        assert(depth(1) == depth(0) + 1);
    } else {
        let h = m / 2;
        assert(h >= 2);
        lemma_depth_power_of_two(h);
        assert(((m - 1) as nat - 1) / 2 == h - 1);
        assert(((m - 2) as nat - 1) / 2 == h - 2);
    }
}

/// In a tree of the required shape, a node is inner exactly when it lies
/// above the leaf level.
proof fn lemma_inner_iff_shallow(nl: nat, j: nat)
    requires
        nl >= 1,
        depth((nl - 1) as nat) < depth(nl),
    ensures
        j < nl <==> depth(j) < depth(nl),
{
    if j < nl {
        lemma_depth_monotone(j, (nl - 1) as nat);
    } else {
        lemma_depth_monotone(nl, j);
    }
}

proof fn lemma_lo_hi_bounds(nl: nat, i: nat)
    ensures
        lo(nl, i) >= i,
        lo(nl, i) >= nl,
        hi(nl, i) >= i,
        hi(nl, i) >= nl,
    decreases 2 * nl + 1 - i,
{
    if i < nl {
        lemma_lo_hi_bounds(nl, (2 * i + 1) as nat);
        lemma_lo_hi_bounds(nl, (2 * i + 2) as nat);
    }
}

/// The leaves under two neighbouring nodes of one level are neighbouring
/// ranges.
proof fn lemma_adjacent(nl: nat, x: nat)
    requires
        nl >= 1,
        depth((nl - 1) as nat) < depth(nl),
        depth(x) == depth(x + 1),
    ensures
        hi(nl, x) + 1 == lo(nl, x + 1),
    decreases 2 * nl + 1 - x,
{
    lemma_inner_iff_shallow(nl, x);
    lemma_inner_iff_shallow(nl, x + 1);
    if x < nl {
        lemma_depth_children(x);
        lemma_depth_children(x + 1);
        assert(2 * (x + 1) + 1 == 2 * x + 3);
        lemma_adjacent(nl, (2 * x + 2) as nat);
    }
}

/// The leaves under node `i` form a non-empty range that the ranges of its
/// two children split.
proof fn lemma_split(nl: nat, i: nat)
    requires
        nl >= 1,
        depth((nl - 1) as nat) < depth(nl),
        i < nl,
    ensures
        lo(nl, i) == lo(nl, (2 * i + 1) as nat),
        hi(nl, i) == hi(nl, (2 * i + 2) as nat),
        hi(nl, (2 * i + 1) as nat) + 1 == lo(nl, (2 * i + 2) as nat),
{
    lemma_depth_children(i);
    lemma_adjacent(nl, (2 * i + 1) as nat);
}

proof fn lemma_lo_le_hi(nl: nat, i: nat)
    requires
        nl >= 1,
        depth((nl - 1) as nat) < depth(nl),
    ensures
        lo(nl, i) <= hi(nl, i),
    decreases 2 * nl + 1 - i,
{
    if i < nl {
        lemma_split(nl, i);
        lemma_lo_le_hi(nl, (2 * i + 1) as nat);
        lemma_lo_le_hi(nl, (2 * i + 2) as nat);
    }
}

/// Following left children from a node that starts its level ends at the
/// first leaf.
proof fn lemma_lo_first(nl: nat, i: nat)
    requires
        nl >= 1,
        depth((nl - 1) as nat) < depth(nl),
        depth(i) <= depth(nl),
        i == 0 || depth((i - 1) as nat) < depth(i),
    ensures
        depth(lo(nl, i)) == depth(nl),
        lo(nl, i) == 0 || depth((lo(nl, i) - 1) as nat) < depth(lo(nl, i)),
    decreases 2 * nl + 1 - i,
{
    lemma_inner_iff_shallow(nl, i);
    if i < nl {
        lemma_depth_children(i);
        if i == 0 {
            assert(depth(1) == 1);
            assert(depth(0) == 0);
        }
        lemma_lo_first(nl, (2 * i + 1) as nat);
    }
}

/// Following right children from a node that ends its level ends at the
/// last position of the leaf level.
proof fn lemma_hi_last(nl: nat, i: nat)
    requires
        nl >= 1,
        depth((nl - 1) as nat) < depth(nl),
        depth(i) <= depth(nl),
        depth(i) < depth(i + 1),
    ensures
        depth(hi(nl, i)) == depth(nl),
        depth(nl) < depth(hi(nl, i) + 1),
    decreases 2 * nl + 1 - i,
{
    lemma_inner_iff_shallow(nl, i);
    if i < nl {
        lemma_depth_children(i);
        lemma_depth_children(i + 1);
        assert(2 * (i + 1) + 1 == 2 * i + 3);
        lemma_hi_last(nl, (2 * i + 2) as nat);
    }
}

/// The root covers every leaf of the array.
proof fn lemma_root_range(len: nat, nl: nat)
    requires
        tree_shape(len, nl),
    ensures
        lo(nl, 0) == nl,
        hi(nl, 0) >= len - 1,
{
    assert(depth(0) == 0);
    assert(depth(1) == 1);
    lemma_lo_first(nl, 0);
    lemma_hi_last(nl, 0);
    lemma_lo_hi_bounds(nl, 0);
    let l = lo(nl, 0);
    if l > nl {
        lemma_depth_monotone(nl, (l - 1) as nat);
    }
    let h = hi(nl, 0);
    lemma_depth_children((nl - 1) as nat);
    assert(2 * (nl - 1) + 2 == 2 * nl);
    lemma_depth_monotone((len - 1) as nat, (2 * nl) as nat);
    if len - 1 > h {
        lemma_depth_monotone(h + 1, (len - 1) as nat);
    }
}

// ---------------------------------------------------------------------------
// Lemmas on consistent trees
// ---------------------------------------------------------------------------

/// In a consistent tree a node holds the largest value of the leaves under
/// it, and one of them holds that value.
proof fn lemma_node_is_max(a: Seq<u8>, nl: nat, i: nat)
    requires
        tree_shape(a.len(), nl),
        consistent(a, nl),
    ensures
        forall|j: int| lo(nl, i) <= j <= hi(nl, i) ==> val(a, j) <= val(a, i as int),
        exists|j: int| lo(nl, i) <= j <= hi(nl, i) && val(a, j) == val(a, i as int),
    decreases 2 * nl + 1 - i,
{
    if i >= nl {
        assert(lo(nl, i) <= i <= hi(nl, i));
    } else {
        let l = (2 * i + 1) as nat;
        let r = (2 * i + 2) as nat;
        lemma_split(nl, i);
        lemma_node_is_max(a, nl, l);
        lemma_node_is_max(a, nl, r);
        assert(a[i as int] == max_u8(val(a, (2 * i + 1) as int), val(a, (2 * i + 2) as int)));
        assert(val(a, i as int) == max_u8(val(a, l as int), val(a, r as int)));
        if val(a, l as int) >= val(a, r as int) {
            let w = choose|j: int| lo(nl, l) <= j <= hi(nl, l) && val(a, j) == val(a, l as int);
            lemma_lo_le_hi(nl, r);
            assert(lo(nl, i) <= w <= hi(nl, i));
        } else {
            let w = choose|j: int| lo(nl, r) <= j <= hi(nl, r) && val(a, j) == val(a, r as int);
            lemma_lo_le_hi(nl, l);
            assert(lo(nl, i) <= w <= hi(nl, i));
        }
    }
}

/// In a consistent tree a search from a node that holds at least `min`
/// stays inside the array and reaches the first leaf under that node that
/// holds at least `min`.
proof fn lemma_search(a: Seq<u8>, nl: nat, min: u8, i: nat)
    requires
        tree_shape(a.len(), nl),
        consistent(a, nl),
        i < a.len(),
        lo(nl, i) < a.len(),
        a[i as int] >= min,
    ensures
        descent_safe(a, nl, min, i),
        descend(a, nl, min, i) matches Some(j) && {
            &&& nl <= j < a.len()
            &&& lo(nl, i) <= j <= hi(nl, i)
            &&& a[j as int] >= min
            &&& forall|k: int| lo(nl, i) <= k < j ==> val(a, k) < min
        },
    decreases 2 * nl + 1 - i,
{
    if i < nl {
        let l = (2 * i + 1) as nat;
        let r = (2 * i + 2) as nat;
        lemma_split(nl, i);
        lemma_lo_hi_bounds(nl, l);
        lemma_lo_le_hi(nl, r);
        if a[l as int] >= min {
            lemma_search(a, nl, min, l);
        } else {
            lemma_node_is_max(a, nl, l);
            lemma_node_is_max(a, nl, r);
            assert(a[i as int] == max_u8(val(a, (2 * i + 1) as int), val(a, (2 * i + 2) as int)));
            assert(val(a, r as int) >= min);
            assert(r < a.len());
            let w = choose|j: int| lo(nl, r) <= j <= hi(nl, r) && val(a, j) == val(a, r as int);
            assert(w < a.len());
            lemma_search(a, nl, min, r);
            let j = descend(a, nl, min, r).unwrap();
            assert forall|k: int| lo(nl, i) <= k < j implies val(a, k) < min by {
                if k <= hi(nl, l) {
                    assert(val(a, k) <= val(a, l as int));
                }
            }
        }
    }
}

/// Whatever the tree holds, a search that ends ends on a leaf of the array.
pub proof fn lemma_descend_range(a: Seq<u8>, nl: nat, min: u8, i: nat)
    requires
        i < a.len(),
    ensures
        descend(a, nl, min, i) matches Some(j) ==> nl <= j < a.len(),
    decreases a.len() - i,
{
    if i < nl {
        if 2 * i + 1 < a.len() {
            lemma_descend_range(a, nl, min, (2 * i + 1) as nat);
        }
        if 2 * i + 2 < a.len() {
            lemma_descend_range(a, nl, min, (2 * i + 2) as nat);
        }
    }
}

// ---------------------------------------------------------------------------
// Laws
// ---------------------------------------------------------------------------

/// A search on a consistent tree finds the leftmost slot that holds at least
/// `min_space_needed`, and finds nothing exactly when no slot does; it never
/// leaves the array.
#[verifier::spinoff_prover]
#[verifier::rlimit(40)]
pub proof fn lemma_find_leftmost(a: Seq<u8>, nl: nat, min_space_needed: u8)
    requires
        tree_shape(a.len(), nl),
        consistent(a, nl),
    ensures
        a[0] >= min_space_needed ==> descent_safe(a, nl, min_space_needed, 0),
        a[0] >= min_space_needed ==> spec_find(a, nl, min_space_needed) is Some,
        spec_find(a, nl, min_space_needed) is None <==> forall|j: int|
            nl <= j < a.len() ==> a[j] < min_space_needed,
        spec_find(a, nl, min_space_needed) matches Some((s, _)) ==> {
            &&& nl + s < a.len()
            &&& a[(nl + s) as int] >= min_space_needed
            &&& forall|j: int| nl <= j < nl + s ==> a[j] < min_space_needed
        },
{
    lemma_root_range(a.len(), nl);
    lemma_node_is_max(a, nl, 0);
    if a[0] >= min_space_needed {
        lemma_search(a, nl, min_space_needed, 0);
        let j = descend(a, nl, min_space_needed, 0).unwrap();
        assert forall|k: int| nl <= k < j implies a[k] < min_space_needed by {
            assert(val(a, k) < min_space_needed);
        }
    } else {
        assert forall|j: int| nl <= j < a.len() implies a[j] < min_space_needed by {
            assert(val(a, j) <= val(a, 0));
        }
    }
}

/// `fix_up` changes only inner nodes.
proof fn lemma_fix_up_inner_only(a: Seq<u8>, nl: nat, n: nat)
    requires
        n < a.len() <= 2 * nl + 1,
    ensures
        fix_up(a, n).len() == a.len(),
        forall|j: int| nl <= j < a.len() ==> fix_up(a, n)[j] == a[j],
    decreases n,
{
    if n > 0 {
        let p = ((n - 1) / 2) as nat;
        assert(p < nl);
        let nv = max_u8(val(a, (2 * p + 1) as int), val(a, (2 * p + 2) as int));
        let b = a.update(p as int, nv);
        if a[p as int] != nv && p != 0 {
            lemma_fix_up_inner_only(b, nl, p);
            assert forall|j: int| nl <= j < a.len() implies fix_up(a, n)[j] == a[j] by {
                assert(fix_up(a, n) == fix_up(b, p));
                assert(b[j] == a[j]);
            }
        } else if a[p as int] != nv {
            assert forall|j: int| nl <= j < a.len() implies fix_up(a, n)[j] == a[j] by {
                assert(fix_up(a, n) == b);
                assert(b[j] == a[j]);
            }
        }
    }
}

proof fn lemma_parent_of_child(i: int)
    ensures
        ((2 * i + 1) - 1) / 2 == i,
        ((2 * i + 2) - 1) / 2 == i,
{
}

/// Changing node `c` leaves every inner node other than `c` and its parent
/// as consistent as it was.
proof fn lemma_update_keeps_others(a: Seq<u8>, nl: nat, c: int, x: u8, i: int)
    requires
        0 <= c < a.len(),
        0 <= i < nl,
        i < a.len(),
        i != c,
        i != (c - 1) / 2,
        a[i] == max_u8(val(a, 2 * i + 1), val(a, 2 * i + 2)),
    ensures
        a.update(c, x)[i] == max_u8(val(a.update(c, x), 2 * i + 1), val(a.update(c, x), 2 * i + 2)),
{
    lemma_parent_of_child(i);
    let b = a.update(c, x);
    assert(2 * i + 1 != c);
    assert(2 * i + 2 != c);
    assert(val(b, 2 * i + 1) == val(a, 2 * i + 1));
    assert(val(b, 2 * i + 2) == val(a, 2 * i + 2));
}

/// Setting inner node `p`, the only one that may hold the wrong value, to
/// the larger of its children leaves only its parent possibly wrong.
proof fn lemma_repair(a: Seq<u8>, nl: nat, p: int, nv: u8)
    requires
        0 <= p < nl,
        a.len() <= 2 * nl + 1,
        nl < a.len(),
        nv == max_u8(val(a, 2 * p + 1), val(a, 2 * p + 2)),
        forall|i: int|
            0 <= i < nl && i != p ==> #[trigger] a[i] == max_u8(val(a, 2 * i + 1), val(a, 2 * i + 2)),
    ensures
        forall|i: int|
            0 <= i < nl && (p == 0 || i != (p - 1) / 2) ==> #[trigger] a.update(p, nv)[i] == max_u8(
                val(a.update(p, nv), 2 * i + 1),
                val(a.update(p, nv), 2 * i + 2),
            ),
{
    let b = a.update(p, nv);
    assert forall|i: int|
        0 <= i < nl && (p == 0 || i != (p - 1) / 2) implies #[trigger] b[i] == max_u8(
        val(b, 2 * i + 1),
        val(b, 2 * i + 2),
    ) by {
        lemma_parent_of_child(i);
        if i != p {
            lemma_update_keeps_others(a, nl, p, nv, i);
        } else {
            assert(val(b, 2 * i + 1) == val(a, 2 * i + 1));
            assert(val(b, 2 * i + 2) == val(a, 2 * i + 2));
        }
    }
}

/// `fix_up` from a node whose parent is the only inner node that may hold
/// the wrong value gives a consistent tree.
proof fn lemma_fix_up_consistent(a: Seq<u8>, nl: nat, n: nat)
    requires
        1 <= n < a.len() <= 2 * nl + 1,
        nl < a.len(),
        forall|i: int|
            0 <= i < nl && i != (n - 1) / 2 ==> #[trigger] a[i] == max_u8(
                val(a, 2 * i + 1),
                val(a, 2 * i + 2),
            ),
    ensures
        consistent(fix_up(a, n), nl),
    decreases n,
{
    let p = ((n - 1) / 2) as nat;
    let nv = max_u8(val(a, (2 * p + 1) as int), val(a, (2 * p + 2) as int));
    if a[p as int] == nv {
        assert(fix_up(a, n) == a);
    } else {
        lemma_repair(a, nl, p as int, nv);
        if p != 0 {
            lemma_fix_up_consistent(a.update(p as int, nv), nl, p);
        }
    }
}

/// Setting a slot of a consistent tree keeps it consistent, gives that slot
/// the new value and leaves every other slot as it was.
pub proof fn lemma_set_keeps_consistent(a: Seq<u8>, nl: nat, slot: nat, v: u8)
    requires
        tree_shape(a.len(), nl),
        consistent(a, nl),
        nl + slot < a.len(),
    ensures
        consistent(spec_set(a, nl, slot, v), nl),
        spec_set(a, nl, slot, v).len() == a.len(),
        spec_set(a, nl, slot, v)[(nl + slot) as int] == v,
        forall|j: int| nl <= j < a.len() && j != nl + slot ==> spec_set(a, nl, slot, v)[j] == a[j],
{
    reveal(spec_set);
    let node = nl + slot;
    if a[node as int] == v && v <= a[0] {
    } else {
        let b = a.update(node as int, v);
        assert forall|i: int|
            0 <= i < nl && i != (node - 1) / 2 implies #[trigger] b[i] == max_u8(
            val(b, 2 * i + 1),
            val(b, 2 * i + 2),
        ) by {
            lemma_update_keeps_others(a, nl, node as int, v, i);
        }
        lemma_fix_up_consistent(b, nl, node);
        lemma_fix_up_inner_only(b, nl, node);
        assert(spec_set(a, nl, slot, v) == fix_up(b, node));
        assert forall|j: int| nl <= j < a.len() && j != nl + slot implies spec_set(a, nl, slot, v)[j] == a[j] by {
            assert(fix_up(b, node)[j] == b[j]);
        }
    }
}

/// After a slot of a consistent tree is set to `v`, a search for at most
/// `v` finds that slot or one to its left; a search for more than `v` that
/// did not find that slot before finds the same slot as before, or again
/// nothing.
pub proof fn lemma_find_after_set(a: Seq<u8>, nl: nat, slot: nat, v: u8, min: u8)
    requires
        tree_shape(a.len(), nl),
        consistent(a, nl),
        nl + slot < a.len(),
    ensures
        min <= v ==> spec_find(spec_set(a, nl, slot, v), nl, min) is Some,
        min <= v ==> spec_find(spec_set(a, nl, slot, v), nl, min).unwrap().0 <= slot,
        min > v && (spec_find(a, nl, min) is None || spec_find(a, nl, min).unwrap().0 != slot)
            ==> (spec_find(spec_set(a, nl, slot, v), nl, min) is None <==> spec_find(a, nl, min) is None),
        min > v && spec_find(a, nl, min) is Some && spec_find(a, nl, min).unwrap().0 != slot
            ==> spec_find(spec_set(a, nl, slot, v), nl, min).unwrap().0 == spec_find(a, nl, min).unwrap().0,
{
    let b = spec_set(a, nl, slot, v);
    lemma_set_keeps_consistent(a, nl, slot, v);
    lemma_find_leftmost(a, nl, min);
    lemma_find_leftmost(b, nl, min);
    if min <= v {
        assert(b[(nl + slot) as int] >= min);
    } else {
        if spec_find(a, nl, min) is None {
            assert forall|j: int| nl <= j < b.len() implies b[j] < min by {
                if j != nl + slot {
                    assert(b[j] == a[j]);
                }
            }
        } else {
            let t = spec_find(a, nl, min).unwrap().0;
            if t != slot {
                assert(b[(nl + t) as int] == a[(nl + t) as int]);
                let u = spec_find(b, nl, min).unwrap().0;
                if u < t {
                    assert(b[(nl + u) as int] >= min);
                    assert(u != slot);
                    assert(b[(nl + u) as int] == a[(nl + u) as int]);
                    assert(a[(nl + u) as int] < min);
                }
                if u > t {
                    assert(b[(nl + t) as int] < min);
                }
            }
        }
    }
}

// ---------------------------------------------------------------------------
// Executable tree
// ---------------------------------------------------------------------------

pub struct BinaryTree {
    arr: Vec<u8>,
    non_leaf_nodes: usize,
    leaf_nodes: usize,
}

/// How many nodes a tree on a page of a given layout has, and how many of
/// them are inner nodes and leaves.
pub struct NodeStructure {
    pub leaf_nodes: usize,
    pub non_leaf_nodes: usize,
    pub nodes: usize,
}

/// A slot that a search found, with the space its leaf records.
#[derive(Debug)]
pub struct FsmSlot {
    slot_index: usize,
    available_space: u8,
}

impl View for FsmSlot {
    type V = (nat, u8);

    closed spec fn view(&self) -> (nat, u8) {
        (self.slot_index as nat, self.available_space)
    }
}

impl FsmSlot {
    pub fn slot_index(&self) -> (r: usize)
        ensures
            r == self@.0,
    {
        self.slot_index
    }

    pub fn available_space(&self) -> (r: u8)
        ensures
            r == self@.1,
    {
        self.available_space
    }
}

/// Index of the left child of node `x`.
pub fn left_child(x: usize) -> (r: usize)
    requires
        2 * x + 1 <= usize::MAX,
    ensures
        r == 2 * x + 1,
{
    2 * x + 1
}

/// Index of the right child of node `x`.
pub fn right_child(x: usize) -> (r: usize)
    requires
        2 * x + 2 <= usize::MAX,
    ensures
        r == 2 * x + 2,
{
    2 * x + 2
}

/// Index of the parent of node `x`.
pub fn parent(x: usize) -> (r: usize)
    requires
        x >= 1,
    ensures
        r == (x - 1) / 2,
{
    (x - 1) / 2
}

/// Number of nodes of the tree on a page of `page_size` bytes: the page's
/// data area less one slot.
pub open spec fn spec_nodes(page_size: nat) -> nat {
    (page_size - PAGE_HEADER_SIZE - SLOT_SIZE) as nat
}

/// Number of inner nodes of the tree on a page of `page_size` bytes.
pub open spec fn spec_non_leaf_nodes(page_size: nat) -> nat {
    (page_size / 2 - 1) as nat
}

/// A page of a valid size of at least 64 bytes holds a tree of the
/// required shape.
pub proof fn lemma_page_shape(page_size: nat)
    requires
        valid_page_size(page_size),
        page_size >= 64,
    ensures
        tree_shape(spec_nodes(page_size), spec_non_leaf_nodes(page_size)),
        spec_nodes(page_size) <= MAX_PAGE_SIZE,
{
    let h = page_size / 2;
    assert(is_power_of_two(h)) by {
        reveal_with_fuel(is_power_of_two, 2);
    }
    lemma_depth_power_of_two(h);
}

impl BinaryTree {
    /// The node values.
    pub closed spec fn nodes(&self) -> Seq<u8> {
        self.arr@
    }

    /// The number of inner nodes.
    pub closed spec fn non_leaf(&self) -> nat {
        self.non_leaf_nodes as nat
    }

    /// The number of leaves, one per slot.
    pub closed spec fn leaves(&self) -> nat {
        self.leaf_nodes as nat
    }

    pub closed spec fn wf(&self) -> bool {
        &&& self.arr@.len() == self.non_leaf_nodes + self.leaf_nodes
        &&& self.arr@.len() <= MAX_PAGE_SIZE
        &&& tree_shape(self.arr@.len(), self.non_leaf_nodes as nat)
    }

    /// A well-formed tree has the shape of a max-tree array, so the laws
    /// stated over `tree_shape` apply to its nodes.
    pub proof fn lemma_wf_shape(&self)
        requires
            self.wf(),
        ensures
            tree_shape(self.nodes().len(), self.non_leaf()),
            self.nodes().len() == self.non_leaf() + self.leaves(),
    {
    }

    /// Every inner node holds the larger of its children.
    pub open spec fn is_consistent(&self) -> bool {
        consistent(self.nodes(), self.non_leaf())
    }

    /// The tree a page of `page_size` bytes holds has this shape.
    pub open spec fn has_page_shape(&self, page_size: nat) -> bool {
        &&& self.nodes().len() == spec_nodes(page_size)
        &&& self.non_leaf() == spec_non_leaf_nodes(page_size)
        &&& self.leaves() == spec_nodes(page_size) - spec_non_leaf_nodes(page_size)
    }

    /// The number of nodes, inner nodes and leaves of the tree on a page of
    /// the given layout.
    pub fn node_structure(page_layout: &PageDataLayout) -> (r: NodeStructure)
        requires
            page_layout.spec_page_size() >= 64,
        ensures
            r.nodes == spec_nodes(page_layout.spec_page_size() as nat),
            r.non_leaf_nodes == spec_non_leaf_nodes(page_layout.spec_page_size() as nat),
            r.leaf_nodes == r.nodes - r.non_leaf_nodes,
    {
        let page_size = page_layout.page_size();
        let nodes = page_layout.page_data_size() - SLOT_SIZE;
        let non_leaf_nodes = page_size / 2 - 1;
        let leaf_nodes = nodes - non_leaf_nodes;
        NodeStructure { leaf_nodes, non_leaf_nodes, nodes }
    }

    /// An empty tree (every node 0) for a page of the given layout.
    pub fn new(page_layout: &PageDataLayout) -> (r: Self)
        requires
            page_layout.spec_page_size() >= 64,
        ensures
            r.wf(),
            r.has_page_shape(page_layout.spec_page_size() as nat),
            forall|i: int| 0 <= i < r.nodes().len() ==> r.nodes()[i] == 0,
            r.is_consistent(),
    {
        let structure = BinaryTree::node_structure(page_layout);
        let ps = page_layout.page_size();
        proof {
            lemma_page_shape(ps as nat);
        }
        let arr = vec![0u8; structure.nodes];
        let r = Self {
            arr,
            non_leaf_nodes: structure.non_leaf_nodes,
            leaf_nodes: structure.leaf_nodes,
        };
        assert forall|i: int| 0 <= i < r.nodes().len() implies r.nodes()[i] == 0 by {
            assert(cloned(0u8, r.arr@[i]));
        }
        assert forall|i: int| 0 <= i < r.non_leaf() implies #[trigger] r.nodes()[i] == max_u8(
            val(r.nodes(), 2 * i + 1),
            val(r.nodes(), 2 * i + 2),
        ) by {
            assert(r.nodes()[i] == 0);
            if 2 * i + 1 < r.nodes().len() {
                assert(r.nodes()[2 * i + 1] == 0);
            }
            if 2 * i + 2 < r.nodes().len() {
                assert(r.nodes()[2 * i + 2] == 0);
            }
        }
        r
    }

    /// The tree whose node values are `bytes`, for a page of the given
    /// layout; `bytes` must hold one byte per node.
    pub fn deserialize(bytes: &[u8], page_layout: &PageDataLayout) -> (r: Self)
        requires
            page_layout.spec_page_size() >= 64,
            bytes@.len() == spec_nodes(page_layout.spec_page_size() as nat),
        ensures
            r.wf(),
            r.has_page_shape(page_layout.spec_page_size() as nat),
            r.nodes() == bytes@,
    {
        let mut tree = BinaryTree::new(page_layout);
        tree.arr = vstd::slice::slice_to_vec(bytes);
        tree
    }

    /// The node values, one byte per node.
    pub fn serialize(self) -> (r: Vec<u8>)
        ensures
            r@ == self.nodes(),
    {
        self.arr
    }

    fn is_leaf_node(&self, index: usize) -> (r: bool)
        ensures
            r == (index >= self.non_leaf()),
    {
        index >= self.non_leaf_nodes
    }

    /// Whether a search for `min_space_needed` stays inside the array, so
    /// that `find_available` can be called.
    pub fn can_search(&self, min_space_needed: u8) -> (r: bool)
        requires
            self.wf(),
        ensures
            r == (self.nodes()[0] < min_space_needed || descent_safe(
                self.nodes(),
                self.non_leaf(),
                min_space_needed,
                0,
            )),
    {
        if self.arr[0] < min_space_needed {
            return true;
        }
        let mut current: usize = 0;
        while !self.is_leaf_node(current)
            invariant
                self.wf(),
                self.nodes()[0] >= min_space_needed,
                current < self.arr@.len(),
                descent_safe(self.nodes(), self.non_leaf(), min_space_needed, 0) == descent_safe(
                    self.nodes(),
                    self.non_leaf(),
                    min_space_needed,
                    current as nat,
                ),
            decreases self.arr@.len() - current,
        {
            let left_child_index = left_child(current);
            let right_child_index = left_child_index + 1;
            if left_child_index >= self.arr.len() {
                assert(!descent_safe(self.nodes(), self.non_leaf(), min_space_needed, current as nat));
                return false;
            }
            let left_child_value = self.arr[left_child_index];
            let right_child_value = if right_child_index < self.arr.len() {
                self.arr[right_child_index]
            } else {
                0
            };
            if left_child_value >= min_space_needed {
                current = left_child_index;
            } else if right_child_value >= min_space_needed {
                current = right_child_index;
            } else {
                return true;
            }
        }
        true
    }

    /// Finds a slot whose leaf holds at least `min_space_needed`, walking
    /// from the root and preferring the left child.
    pub fn find_available(&self, min_space_needed: u8) -> (r: Option<FsmSlot>)
        requires
            self.wf(),
            self.nodes()[0] >= min_space_needed ==> descent_safe(
                self.nodes(),
                self.non_leaf(),
                min_space_needed,
                0,
            ),
        ensures
            match r {
                Some(s) => spec_find(self.nodes(), self.non_leaf(), min_space_needed) == Some(s@)
                    && s@.0 < self.leaves() && s@.1 == self.nodes()[(self.non_leaf() + s@.0) as int],
                None => spec_find(self.nodes(), self.non_leaf(), min_space_needed) is None,
            },
            self.is_consistent() ==> (r is None <==> forall|j: int|
                self.non_leaf() <= j < self.nodes().len() ==> self.nodes()[j] < min_space_needed),
            self.is_consistent() && r is Some ==> {
                &&& r.unwrap()@.1 >= min_space_needed
                &&& forall|j: int|
                    self.non_leaf() <= j < self.non_leaf() + r.unwrap()@.0 ==> self.nodes()[j]
                        < min_space_needed
            },
    {
        proof {
            lemma_descend_range(self.nodes(), self.non_leaf(), min_space_needed, 0);
            if self.is_consistent() {
                lemma_find_leftmost(self.nodes(), self.non_leaf(), min_space_needed);
            }
        }
        if self.arr[0] < min_space_needed {
            return None;
        }
        let mut current: usize = 0;
        while !self.is_leaf_node(current)
            invariant
                self.wf(),
                current < self.arr@.len(),
                descent_safe(self.nodes(), self.non_leaf(), min_space_needed, current as nat),
                descend(self.nodes(), self.non_leaf(), min_space_needed, 0) == descend(
                    self.nodes(),
                    self.non_leaf(),
                    min_space_needed,
                    current as nat,
                ),
            decreases self.arr@.len() - current,
        {
            let left_child_index = left_child(current);
            let right_child_index = left_child_index + 1;
            let left_child_value = self.arr[left_child_index];
            let right_child_value = if right_child_index < self.arr.len() {
                self.arr[right_child_index]
            } else {
                0
            };
            if left_child_value >= min_space_needed {
                current = left_child_index;
            } else if right_child_value >= min_space_needed {
                current = right_child_index;
            } else {
                proof {
                    if self.is_consistent() {
                        lemma_find_leftmost(self.nodes(), self.non_leaf(), min_space_needed);
                    }
                }
                return None;
            }
        }
        let slot = current - self.non_leaf_nodes;
        Some(FsmSlot { slot_index: slot, available_space: self.arr[current] })
    }

    /// Sets the leaf of `slot` to `available_space` and updates the inner
    /// nodes above it.
    pub fn set_available_space(&mut self, slot: usize, available_space: u8)
        requires
            old(self).wf(),
            slot < old(self).leaves(),
        ensures
            final(self).wf(),
            final(self).non_leaf() == old(self).non_leaf(),
            final(self).leaves() == old(self).leaves(),
            final(self).nodes().len() == old(self).nodes().len(),
            final(self).nodes() == spec_set(
                old(self).nodes(),
                old(self).non_leaf(),
                slot as nat,
                available_space,
            ),
            old(self).is_consistent() ==> {
                &&& final(self).is_consistent()
                &&& final(self).nodes()[old(self).non_leaf() + slot as int] == available_space
                &&& forall|j: int|
                    old(self).non_leaf() <= j < old(self).nodes().len() && j != old(self).non_leaf()
                        + slot ==> final(self).nodes()[j] == old(self).nodes()[j]
            },
    {
        proof {
            if old(self).is_consistent() {
                lemma_set_keeps_consistent(
                    old(self).nodes(),
                    old(self).non_leaf(),
                    slot as nat,
                    available_space,
                );
            }
            reveal(spec_set);
        }
        let mut node_number = self.non_leaf_nodes + slot;
        if node_number >= self.arr.len() {
            return;
        }
        if self.arr[node_number] == available_space && available_space <= self.arr[0] {
            return;
        }
        let ghost target = spec_set(self.nodes(), self.non_leaf(), slot as nat, available_space);
        self.arr.set(node_number, available_space);
        loop
            invariant_except_break
                1 <= node_number < self.arr@.len(),
                fix_up(self.nodes(), node_number as nat) == target,
            invariant
                self.wf(),
                self.non_leaf() == old(self).non_leaf(),
                self.leaves() == old(self).leaves(),
            ensures
                self.nodes() == target,
            decreases node_number,
        {
            let changed = node_number;
            node_number = parent(changed);
            let left_child_index = left_child(node_number);
            let right_child_index = left_child_index + 1;
            let mut new_value = self.arr[left_child_index];
            if right_child_index < self.arr.len() {
                let right_value = self.arr[right_child_index];
                if right_value > new_value {
                    new_value = right_value;
                }
            }
            assert(new_value == max_u8(
                val(self.nodes(), (2 * node_number + 1) as int),
                val(self.nodes(), (2 * node_number + 2) as int),
            ));
            let old_value = self.arr[node_number];
            if old_value == new_value {
                break;
            }
            self.arr.set(node_number, new_value);
            if node_number == 0 {
                break;
            }
        }
    }
}

} // verus!
