//! The free space map of a table: one max-tree per page of the free space
//! map file, the trees stacked into levels. A leaf of a bottom-level tree
//! holds the space category of one heap page; a leaf of a higher tree holds
//! the root value of one tree of the level below. Pages are laid out in
//! pre-order: the root page first, then its first child and that child's
//! subtree, and so on.
use vstd::prelude::*;

use crate::fsm::binary_tree::{
    descent_safe, lemma_descend_range, spec_find, spec_nodes, spec_non_leaf_nodes, spec_set,
    BinaryTree,
};
use crate::store::{decimal, push_decimal, PageStorage};
use vstd::string::StringExecFns;
use crate::layout::{is_power_of_two, valid_page_size, PageDataLayout, PAGE_HEADER_SIZE, SLOT_SIZE};

verus! {

/// `b` to the power `e`.
pub open spec fn power(b: nat, e: nat) -> nat
    decreases e,
{
    if e == 0 {
        1
    } else {
        b * power(b, (e - 1) as nat)
    }
}

/// The number of pages of the free space map up to the bottom-level page
/// `leaf`, counting on each of `levels` levels every page that starts at
/// or before it.
pub open spec fn pages_upto(leaf: nat, slots: nat, levels: nat) -> nat
    decreases levels,
{
    if levels == 0 {
        0
    } else {
        leaf + 1 + pages_upto(leaf / slots, slots, (levels - 1) as nat)
    }
}

/// The address of one page of the free space map: its number among the
/// pages of its level, and the level (0 is the bottom level).
#[derive(PartialEq, Eq, Structural, Debug, Clone, Copy)]
pub struct FsmAddress {
    pub node_number: usize,
    pub level: usize,
}

/// The numbers that describe the free space map on pages of one size.
pub struct FsmShape {
    pub page_size: nat,
    pub depth: nat,
    pub slots: nat,
    pub step: nat,
    pub max_tupel: nat,
}

impl FsmShape {
    /// The shape of the map on pages of `page_size` bytes: a tree per page
    /// has `page_size / 2 - 20` slots; three levels from pages of 4096
    /// bytes up, else four; space is counted in steps of `page_size / 256`
    /// bytes.
    pub open spec fn wf(self) -> bool {
        &&& valid_page_size(self.page_size)
        &&& self.page_size >= 256
        &&& self.depth == (if self.page_size >= 4096 {
            3nat
        } else {
            4nat
        })
        &&& self.slots == self.page_size / 2 - 20
        &&& self.step == self.page_size / 256
        &&& self.max_tupel == self.page_size - PAGE_HEADER_SIZE - SLOT_SIZE
    }

    pub open spec fn root_level(self) -> nat {
        (self.depth - 1) as nat
    }

    pub open spec fn root(self) -> FsmAddress {
        FsmAddress { node_number: 0, level: (self.depth - 1) as usize }
    }

    /// The parent address of `a` and the slot of `a` in the parent's tree.
    pub open spec fn parent(self, a: FsmAddress) -> (FsmAddress, usize) {
        (
            FsmAddress {
                node_number: (a.node_number as nat / self.slots) as usize,
                level: (a.level + 1) as usize,
            },
            (a.node_number as nat % self.slots) as usize,
        )
    }

    /// The child address behind `slot` of the tree at `a`.
    pub open spec fn child(self, a: FsmAddress, slot: usize) -> FsmAddress {
        FsmAddress {
            node_number: (a.node_number * self.slots + slot) as usize,
            level: (a.level - 1) as usize,
        }
    }

    /// The category recorded for a page with `available` free bytes: a page
    /// with room for the largest record gets 255, any other the free bytes
    /// in whole steps, at most 254.
    pub open spec fn page_space_category(self, available: nat) -> u8 {
        if available >= self.max_tupel {
            255
        } else if available / self.step > 254 {
            254
        } else {
            (available / self.step) as u8
        }
    }

    /// The category a page needs to hold `needed` bytes: the bytes in steps
    /// rounded up, at least 1, at most 255.
    pub open spec fn space_needed_category(self, needed: nat) -> u8 {
        if needed == 0 {
            1
        } else {
            let c = needed / self.step + (if needed % self.step == 0 {
                0nat
            } else {
                1nat
            });
            if c > 255 {
                255
            } else {
                c as u8
            }
        }
    }

    /// The bottom-level address and slot that track heap page `page_id`
    /// (heap pages are numbered from 1).
    pub open spec fn heap_addr(self, page_id: int) -> (FsmAddress, usize) {
        let g = page_id - 1;
        (FsmAddress { node_number: (g / self.slots as int) as usize, level: 0 }, (g
            % self.slots as int) as usize)
    }

    /// The index of slot `slot` of bottom-level address `a` over all slots
    /// of the bottom level.
    pub open spec fn global_slot(self, a: FsmAddress, slot: usize) -> nat {
        (a.node_number * self.slots + slot) as nat
    }

    /// The bottom-level page of the free space map under address `a`.
    pub open spec fn first_leaf(self, a: FsmAddress) -> nat {
        (a.node_number * power(self.slots, a.level as nat)) as nat
    }

    /// The pages of the free space map up to and including the page at `a`.
    pub open spec fn page_number(self, a: FsmAddress) -> int {
        pages_upto(self.first_leaf(a), self.slots, self.depth) - a.level
    }

    /// Whether the page number of `a` can be computed without overflow.
    pub open spec fn page_number_fits(self, a: FsmAddress) -> bool {
        &&& self.first_leaf(a) <= usize::MAX
        &&& pages_upto(self.first_leaf(a), self.slots, self.depth) <= usize::MAX
        &&& pages_upto(self.first_leaf(a), self.slots, self.depth) >= a.level
    }
}

// ---------------------------------------------------------------------------
// Arithmetic lemmas
// ---------------------------------------------------------------------------

pub(crate) proof fn lemma_power_positive(b: nat, e: nat)
    requires
        b >= 1,
    ensures
        power(b, e) >= 1,
    decreases e,
{
    if e > 0 {
        lemma_power_positive(b, (e - 1) as nat);
        assert(b * power(b, (e - 1) as nat) >= 1) by (nonlinear_arith)
            requires
                b >= 1,
                power(b, (e - 1) as nat) >= 1,
        ;
    }
}

pub(crate) proof fn lemma_power_monotone(b: nat, e1: nat, e2: nat)
    requires
        b >= 1,
        e1 <= e2,
    ensures
        power(b, e1) <= power(b, e2),
    decreases e2,
{
    if e1 < e2 {
        lemma_power_monotone(b, e1, (e2 - 1) as nat);
        lemma_power_positive(b, (e2 - 1) as nat);
        let p = power(b, (e2 - 1) as nat);
        assert(p <= b * p) by (nonlinear_arith)
            requires
                b >= 1,
                p >= 1,
        ;
    }
}

pub(crate) proof fn lemma_mul_le(x: nat, y: nat, z: nat)
    requires
        y <= z,
    ensures
        x * y <= x * z,
{
    assert(x * y <= x * z) by (nonlinear_arith)
        requires
            y <= z,
    ;
}

pub(crate) proof fn lemma_pages_upto_ge(leaf: nat, slots: nat, levels: nat)
    requires
        levels >= 1,
        slots >= 1,
    ensures
        pages_upto(leaf, slots, levels) >= leaf + levels,
    decreases levels,
{
    if levels > 1 {
        lemma_pages_upto_ge(leaf / slots, slots, (levels - 1) as nat);
    } else {
        assert(pages_upto(leaf / slots, slots, 0) == 0);
    }
}

pub(crate) proof fn lemma_div_mod(x: int, d: int)
    requires
        d >= 1,
        x >= 0,
    ensures
        x == (x / d) * d + x % d,
        0 <= x % d < d,
        0 <= x / d <= x,
{
    vstd::arithmetic::div_mod::lemma_fundamental_div_mod(x, d);
    let q = x / d;
    assert(d * q == q * d) by (nonlinear_arith);
    vstd::arithmetic::div_mod::lemma_div_pos_is_pos(x, d);
    vstd::arithmetic::div_mod::lemma_div_is_ordered_by_denominator(x, 1, d);
}

pub(crate) proof fn lemma_power_add(b: nat, e1: nat, e2: nat)
    ensures
        power(b, e1) * power(b, e2) == power(b, e1 + e2),
    decreases e1,
{
    if e1 > 0 {
        lemma_power_add(b, (e1 - 1) as nat, e2);
        let p1 = power(b, (e1 - 1) as nat);
        let p2 = power(b, e2);
        assert((b * p1) * p2 == b * (p1 * p2)) by (nonlinear_arith);
        assert((e1 - 1) as nat + e2 == (e1 + e2 - 1) as nat);
        assert(power(b, e1 + e2) == b * power(b, (e1 + e2 - 1) as nat));
    } else {
        assert(power(b, 0) == 1);
        assert(1 * power(b, e2) == power(b, e2));
    }
}

proof fn lemma_pages_upto_zero(slots: nat, levels: nat)
    requires
        slots >= 1,
    ensures
        pages_upto(0, slots, levels) == levels,
    decreases levels,
{
    if levels > 0 {
        assert(0nat / slots == 0);
        lemma_pages_upto_zero(slots, (levels - 1) as nat);
    }
}

proof fn lemma_pages_upto_strictly_increasing(x: nat, y: nat, slots: nat, levels: nat)
    requires
        slots >= 1,
        levels >= 1,
        x < y,
    ensures
        pages_upto(x, slots, levels) < pages_upto(y, slots, levels),
    decreases levels,
{
    vstd::arithmetic::div_mod::lemma_div_is_ordered(x as int, y as int, slots as int);
    if levels > 1 {
        if x / slots < y / slots {
            lemma_pages_upto_strictly_increasing(x / slots, y / slots, slots, (levels - 1) as nat);
        }
    } else {
        assert(pages_upto(x / slots, slots, 0) == 0);
        assert(pages_upto(y / slots, slots, 0) == 0);
    }
}

/// Page counts stay below twice the first leaf plus the number of levels.
pub(crate) proof fn lemma_pages_upto_bound(leaf: nat, slots: nat, levels: nat)
    requires
        slots >= 2,
    ensures
        pages_upto(leaf, slots, levels) <= 2 * leaf + levels,
    decreases levels,
{
    if levels > 0 {
        lemma_pages_upto_bound(leaf / slots, slots, (levels - 1) as nat);
        vstd::arithmetic::div_mod::lemma_div_is_ordered_by_denominator(leaf as int, 2, slots as int);
        assert(2 * (leaf / 2) <= leaf);
    }
}

proof fn lemma_power_of_two_gap(n: nat, m: nat)
    requires
        is_power_of_two(n),
        is_power_of_two(m),
        n > m,
    ensures
        n >= 2 * m,
    decreases m,
{
    if m > 1 {
        lemma_power_of_two_gap(n / 2, m / 2);
    }
}

/// The trees of one level hold at most this many pages of the level below
/// the root, and this many heap pages altogether.
pub(crate) proof fn lemma_capacity(shape: FsmShape)
    requires
        shape.wf(),
    ensures
        shape.slots >= 2,
        power(shape.slots, shape.root_level()) <= 1_072_431_504,
        power(shape.slots, shape.depth) <= 40_000_000_000_000,
{
    let s = shape.slots;
    assert(power(s, 0) == 1);
    assert(power(s, 1) == s * power(s, 0));
    assert(power(s, 1) == s);
    assert(power(s, 2) == s * power(s, 1));
    assert(power(s, 3) == s * power(s, 2));
    if shape.page_size < 4096 {
        assert(is_power_of_two(2048)) by {
            reveal_with_fuel(is_power_of_two, 12);
        }
        if shape.page_size > 2048 {
            lemma_power_of_two_gap(shape.page_size, 2048);
        }
        assert(s <= 1004);
        assert(power(s, 4) == s * (s * (s * s)));
        assert(s * (s * s) <= 1_072_431_504) by (nonlinear_arith)
            requires
                s <= 1004,
        ;
        assert(s * (s * (s * s)) <= 40_000_000_000_000) by (nonlinear_arith)
            requires
                s <= 1004,
        ;
    } else {
        assert(s <= 32748);
        assert(s * s <= 1_072_431_504) by (nonlinear_arith)
            requires
                s <= 32748,
        ;
        assert(s * (s * s) <= 40_000_000_000_000) by (nonlinear_arith)
            requires
                s <= 32748,
        ;
    }
}

/// An address lies in the tree when its number is below the number of
/// pages its level has under the root.
pub open spec fn in_tree(shape: FsmShape, a: FsmAddress) -> bool {
    &&& a.level <= shape.root_level()
    &&& a.node_number < power(shape.slots, (shape.root_level() - a.level) as nat)
}

/// For an address in the tree the page number fits, and below the root
/// level its first leaf stays under the bound of `lemma_capacity`.
pub proof fn lemma_in_tree_fits(shape: FsmShape, a: FsmAddress)
    requires
        shape.wf(),
        in_tree(shape, a),
    ensures
        shape.first_leaf(a) < power(shape.slots, shape.root_level()),
        shape.page_number_fits(a),
{
    let s = shape.slots;
    let up = (shape.root_level() - a.level) as nat;
    lemma_capacity(shape);
    lemma_power_add(s, up, a.level as nat);
    lemma_power_positive(s, a.level as nat);
    let pl = power(s, a.level as nat);
    assert(a.node_number * pl < power(s, up) * pl) by (nonlinear_arith)
        requires
            a.node_number < power(s, up),
            pl >= 1,
    ;
    lemma_pages_upto_bound(shape.first_leaf(a), s, shape.depth);
    lemma_pages_upto_ge(shape.first_leaf(a), s, shape.depth);
}

/// Every tree of the map has a page id from 1 up to `i32::MAX`, so the
/// page number of an address in the map is its page id as is, and distinct
/// addresses keep distinct ids.
pub proof fn lemma_page_id_in_range(shape: FsmShape, a: FsmAddress)
    requires
        shape.wf(),
        in_tree(shape, a),
    ensures
        shape.page_number_fits(a),
        1 <= shape.page_number(a) <= i32::MAX,
        shape.page_number(a) as i32 == shape.page_number(a),
{
    lemma_in_tree_fits(shape, a);
    lemma_capacity(shape);
    lemma_pages_upto_bound(shape.first_leaf(a), shape.slots, shape.depth);
    lemma_pages_upto_ge(shape.first_leaf(a), shape.slots, shape.depth);
}

/// The child behind a slot of a tree in the map lies in the map too.
pub(crate) proof fn lemma_child_in_tree(shape: FsmShape, a: FsmAddress, slot: usize)
    requires
        shape.wf(),
        in_tree(shape, a),
        a.level >= 1,
        slot < shape.slots,
    ensures
        a.node_number * shape.slots + slot < power(shape.slots, (shape.root_level() - a.level + 1) as nat),
        a.node_number * shape.slots + slot <= usize::MAX,
        in_tree(shape, shape.child(a, slot)),
{
    let s = shape.slots;
    let up = (shape.root_level() - a.level) as nat;
    let p = power(s, up);
    assert(power(s, up + 1) == s * p);
    assert(a.node_number * s + slot < s * p) by (nonlinear_arith)
        requires
            a.node_number < p,
            slot < s,
    ;
    lemma_capacity(shape);
    lemma_power_monotone(s, up + 1, shape.root_level());
    assert((shape.root_level() - (a.level - 1)) as nat == up + 1);
}

pub(crate) proof fn lemma_first_leaf_of_parent(shape: FsmShape, a: FsmAddress)
    requires
        shape.wf(),
        a.level < usize::MAX,
    ensures
        shape.first_leaf(shape.parent(a).0) <= shape.first_leaf(a),
{
    let s = shape.slots;
    let n = a.node_number as nat;
    lemma_div_mod(n as int, s as int);
    let q = n / s;
    let p = power(s, a.level as nat);
    assert(power(s, (a.level + 1) as nat) == s * p);
    lemma_power_positive(s, a.level as nat);
    assert(q * (s * p) <= n * p) by (nonlinear_arith)
        requires
            q * s <= n,
            p >= 1,
    ;
}

// ---------------------------------------------------------------------------
// Laws
// ---------------------------------------------------------------------------

/// The parent of the child behind `slot` is the tree itself, and the child
/// sits in `slot` of it.
pub proof fn lemma_parent_of_child(shape: FsmShape, a: FsmAddress, slot: usize)
    requires
        shape.wf(),
        a.level >= 1,
        slot < shape.slots,
        a.node_number * shape.slots + slot <= usize::MAX,
    ensures
        shape.parent(shape.child(a, slot)) == (a, slot),
{
    let s = shape.slots as int;
    let n = a.node_number * s + slot;
    vstd::arithmetic::div_mod::lemma_fundamental_div_mod_converse(n, s, a.node_number as int, slot as int);
}

/// The child behind the parent slot of an address is the address itself.
pub proof fn lemma_child_of_parent(shape: FsmShape, a: FsmAddress)
    requires
        shape.wf(),
        a.level < usize::MAX,
    ensures
        shape.child(shape.parent(a).0, shape.parent(a).1) == a,
{
    lemma_div_mod(a.node_number as int, shape.slots as int);
}

/// Mapping a heap page to its slot in the map and back gives the page.
pub proof fn lemma_heap_page_round_trip(shape: FsmShape, page_id: i32)
    requires
        shape.wf(),
        page_id >= 1,
    ensures
        shape.heap_addr(page_id as int).0.level == 0,
        shape.heap_addr(page_id as int).1 < shape.slots,
        shape.global_slot(shape.heap_addr(page_id as int).0, shape.heap_addr(page_id as int).1)
            == page_id - 1,
        (shape.global_slot(shape.heap_addr(page_id as int).0, shape.heap_addr(page_id as int).1)
            as i32) + 1 == page_id,
{
    lemma_div_mod(page_id - 1, shape.slots as int);
}

/// The category recorded for a page with `available` free bytes: 255 for
/// a page with room for the largest record; otherwise the number of whole
/// steps of free space, at most 254, so that it never promises more than
/// the page has and falls short of the free space by less than one step
/// unless it is capped.
pub proof fn lemma_page_space_category_exact(shape: FsmShape, available: nat)
    requires
        shape.wf(),
    ensures
        available >= shape.max_tupel ==> shape.page_space_category(available) == 255,
        available < shape.max_tupel ==> {
            let c = shape.page_space_category(available);
            &&& c <= 254
            &&& c * shape.step <= available
            &&& (c == 254 || available < (c + 1) * shape.step)
        },
{
    let st = shape.step as int;
    assert(st >= 1);
    lemma_div_mod(available as int, st);
    let q = available as int / st;
    if available < shape.max_tupel && q > 254 {
        assert(254 * st <= q * st) by (nonlinear_arith)
            requires
                q > 254,
                st >= 1,
        ;
    }
    if available < shape.max_tupel && q <= 254 {
        assert((q + 1) * st == q * st + st) by (nonlinear_arith);
    }
}

/// The category a request for `needed` bytes looks for: the least category,
/// at least 1, whose whole steps hold `needed` bytes; a request of more than
/// 255 steps looks for 255.
pub proof fn lemma_space_needed_category_exact(shape: FsmShape, needed: nat)
    requires
        shape.wf(),
    ensures
        shape.space_needed_category(needed) >= 1,
        needed <= 255 * shape.step ==> {
            let c = shape.space_needed_category(needed);
            &&& c * shape.step >= needed
            &&& (c == 1 || (c - 1) * shape.step < needed)
        },
        needed > 255 * shape.step ==> shape.space_needed_category(needed) == 255,
{
    let st = shape.step as int;
    assert(st >= 1);
    if needed > 0 {
        lemma_div_mod(needed as int, st);
        let q = needed as int / st;
        let rn = needed as int % st;
        let c = q + (if rn == 0 { 0int } else { 1int });
        assert(c * st >= needed && (c - 1) * st < needed) by (nonlinear_arith)
            requires
                needed == q * st + rn,
                0 <= rn < st,
                c == q + (if rn == 0 { 0int } else { 1int }),
                needed > 0,
        ;
        assert(c >= 1) by (nonlinear_arith)
            requires
                c * st >= needed,
                needed > 0,
                st >= 1,
        ;
        if needed <= 255 * shape.step {
            assert(c <= 255) by (nonlinear_arith)
                requires
                    (c - 1) * st < needed,
                    needed <= 255 * st,
                    st >= 1,
            ;
        } else {
            assert(c > 255) by (nonlinear_arith)
                requires
                    c * st >= needed,
                    needed > 255 * st,
                    st >= 1,
            ;
        }
    }
}

/// A page whose recorded category reaches the category needed for a
/// request of at most the largest record size has room for the request.
pub proof fn lemma_category_sound(shape: FsmShape, available: nat, needed: nat)
    requires
        shape.wf(),
        needed <= shape.max_tupel,
        shape.page_space_category(available) >= shape.space_needed_category(needed),
    ensures
        available >= needed,
{
    let st = shape.step as int;
    assert(st >= 1);
    if available < shape.max_tupel {
        lemma_div_mod(available as int, st);
        lemma_div_mod(needed as int, st);
        let qa = available as int / st;
        let qn = needed as int / st;
        let rn = needed as int % st;
        if needed > 0 {
            let c = qn + (if rn == 0 { 0int } else { 1int });
            assert(c <= qa);
            assert(c * st >= needed) by (nonlinear_arith)
                requires
                    needed == qn * st + rn,
                    0 <= rn < st,
                    c == qn + (if rn == 0 { 0int } else { 1int }),
            ;
            assert(qa * st >= c * st) by (nonlinear_arith)
                requires
                    c <= qa,
                    st >= 1,
            ;
        }
    }
}

/// The root tree is on the first page of the map.
pub proof fn lemma_root_page(shape: FsmShape)
    requires
        shape.wf(),
    ensures
        shape.page_number(shape.root()) == 1,
{
    assert(shape.first_leaf(shape.root()) == 0);
    lemma_pages_upto_zero(shape.slots, shape.depth);
}

/// The first child of a tree is on the page right after the tree's page.
pub proof fn lemma_first_child_page(shape: FsmShape, a: FsmAddress)
    requires
        shape.wf(),
        a.level >= 1,
        a.node_number * shape.slots <= usize::MAX,
    ensures
        shape.page_number(shape.child(a, 0)) == shape.page_number(a) + 1,
{
    let s = shape.slots;
    let p = power(s, (a.level - 1) as nat);
    assert(power(s, a.level as nat) == s * p);
    assert((a.node_number * s) * p == a.node_number * (s * p)) by (nonlinear_arith);
}

/// Distinct trees of one level are on distinct pages, in the order of
/// their numbers.
pub proof fn lemma_pages_ordered_in_level(shape: FsmShape, a: FsmAddress, b: FsmAddress)
    requires
        shape.wf(),
        a.level == b.level,
        a.node_number < b.node_number,
    ensures
        shape.page_number(a) < shape.page_number(b),
{
    let p = power(shape.slots, a.level as nat);
    lemma_power_positive(shape.slots, a.level as nat);
    assert(a.node_number * p < b.node_number * p) by (nonlinear_arith)
        requires
            a.node_number < b.node_number,
            p >= 1,
    ;
    lemma_pages_upto_strictly_increasing(shape.first_leaf(a), shape.first_leaf(b), shape.slots, shape.depth);
}

/// Going from a bottom-level slot to its heap page and back gives the slot.
pub proof fn lemma_slot_round_trip(shape: FsmShape, a: FsmAddress, slot: usize)
    requires
        shape.wf(),
        a.level == 0,
        slot < shape.slots,
        shape.global_slot(a, slot) < i32::MAX,
    ensures
        shape.heap_addr((shape.global_slot(a, slot) + 1) as int) == (a, slot),
{
    vstd::arithmetic::div_mod::lemma_fundamental_div_mod_converse(
        shape.global_slot(a, slot) as int,
        shape.slots as int,
        a.node_number as int,
        slot as int,
    );
}

// ---------------------------------------------------------------------------
// The executable map
// ---------------------------------------------------------------------------

/// The free space map on pages of one layout.
#[derive(Clone, Copy)]
pub struct Fsm {
    page_layout: PageDataLayout,
    root_level: usize,
    fsm_category_step: usize,
    depth: usize,
    slots: usize,
    max_tupel_size: usize,
}

impl View for Fsm {
    type V = FsmShape;

    closed spec fn view(&self) -> FsmShape {
        FsmShape {
            page_size: self.page_layout.spec_page_size() as nat,
            depth: self.depth as nat,
            slots: self.slots as nat,
            step: self.fsm_category_step as nat,
            max_tupel: self.max_tupel_size as nat,
        }
    }
}

impl Fsm {
    #[verifier::type_invariant]
    spec fn inv(self) -> bool {
        &&& self@.wf()
        &&& self.root_level == self.depth - 1
    }

    /// The free space map for pages of the given layout, which must be at
    /// least 256 bytes.
    pub fn new(page_layout: &PageDataLayout) -> (r: Self)
        requires
            page_layout.spec_page_size() >= 256,
        ensures
            r@.wf(),
            r@.page_size == page_layout.spec_page_size(),
    {
        let page_size = page_layout.page_size();
        let step_size = page_size / 256;
        let depth: usize = if page_size >= 4096 {
            3
        } else {
            4
        };
        let structure = crate::fsm::binary_tree::BinaryTree::node_structure(page_layout);
        let max_tupel_size = page_layout.max_tupel_size();
        Fsm {
            page_layout: *page_layout,
            root_level: depth - 1,
            fsm_category_step: step_size,
            depth,
            slots: structure.leaf_nodes,
            max_tupel_size,
        }
    }

    /// The number of levels of the map; the map has the shape that its
    /// page size gives, so the laws over `FsmShape::wf` apply to it.
    pub fn depth(&self) -> (r: usize)
        ensures
            r == self@.depth,
            self@.wf(),
    {
        proof {
            use_type_invariant(self);
        }
        self.depth
    }

    /// The number of slots of the tree on one page of the map.
    pub fn slots(&self) -> (r: usize)
        ensures
            r == self@.slots,
            self@.wf(),
    {
        proof {
            use_type_invariant(self);
        }
        self.slots
    }

    /// The address of the root page.
    pub fn root(&self) -> (r: FsmAddress)
        ensures
            r == self@.root(),
            self@.wf(),
    {
        proof {
            use_type_invariant(self);
        }
        FsmAddress { node_number: 0, level: self.depth - 1 }
    }

    /// The parent address of `child_addr`, and the slot of `child_addr` in
    /// the parent's tree.
    pub fn parent(&self, child_addr: &FsmAddress) -> (r: (FsmAddress, usize))
        requires
            child_addr.level != self@.root_level(),
            child_addr.level < usize::MAX,
        ensures
            r == self@.parent(*child_addr),
    {
        proof {
            use_type_invariant(self);
        }
        let level = child_addr.level + 1;
        let node_number = child_addr.node_number / self.slots;
        let parent_slot = child_addr.node_number % self.slots;
        (FsmAddress { node_number, level }, parent_slot)
    }

    /// The child address behind `slot` of the tree at `parent_addr`.
    pub fn child(&self, parent_addr: &FsmAddress, slot: usize) -> (r: FsmAddress)
        requires
            parent_addr.level != 0,
            parent_addr.node_number * self@.slots + slot <= usize::MAX,
        ensures
            r == self@.child(*parent_addr, slot),
    {
        proof {
            use_type_invariant(self);
            assert(parent_addr.node_number * self.slots <= parent_addr.node_number * self.slots
                + slot);
        }
        let level = parent_addr.level - 1;
        let node_number = parent_addr.node_number * self.slots + slot;
        FsmAddress { node_number, level }
    }

    /// The category to record for a page with `available` free bytes.
    pub fn page_space_to_category(&self, available: usize) -> (r: u8)
        ensures
            r == self@.page_space_category(available as nat),
            available >= self@.max_tupel ==> r == 255,
            available < self@.max_tupel ==> r <= 254 && r * self@.step <= available && (r == 254
                || available < (r + 1) * self@.step),
    {
        proof {
            use_type_invariant(self);
            lemma_page_space_category_exact(self@, available as nat);
        }
        if available >= self.max_tupel_size {
            return 255;
        }
        let cat = available / self.fsm_category_step;
        if cat > 254 {
            254
        } else {
            cat as u8
        }
    }

    /// The category a page needs to hold `needed` bytes.
    pub fn space_needed_to_category(&self, needed: usize) -> (r: u8)
        ensures
            r == self@.space_needed_category(needed as nat),
            r >= 1,
            needed <= 255 * self@.step ==> r * self@.step >= needed && (r == 1 || (r - 1)
                * self@.step < needed),
            needed > 255 * self@.step ==> r == 255,
    {
        proof {
            use_type_invariant(self);
            lemma_space_needed_category_exact(self@, needed as nat);
        }
        if needed == 0 {
            return 1;
        }
        let whole = needed / self.fsm_category_step;
        if whole >= 255 {
            return 255;
        }
        let cat = if needed % self.fsm_category_step == 0 {
            whole
        } else {
            whole + 1
        };
        if cat > 255 {
            255
        } else {
            cat as u8
        }
    }

    /// The bottom-level address and slot that track heap page `page_id`.
    pub fn heap_page_id_to_addr(&self, page_id: i32) -> (r: (FsmAddress, usize))
        requires
            page_id >= 1,
        ensures
            r == self@.heap_addr(page_id as int),
    {
        proof {
            use_type_invariant(self);
        }
        let slot_index_globally = page_id - 1;
        let g = slot_index_globally as usize;
        let logical_fsm_page = g / self.slots;
        proof {
            lemma_div_mod(g as int, self.slots as int);
        }
        let slot_on_fsm_page = g - logical_fsm_page * self.slots;
        let addr = FsmAddress { node_number: logical_fsm_page, level: 0 };
        (addr, slot_on_fsm_page)
    }

    /// The heap page tracked by `slot_index` of the bottom-level address
    /// `addr`; the global slot index is cast to `i32` as is.
    pub fn addr_slot_to_heap_page_id(&self, addr: &FsmAddress, slot_index: usize) -> (r: i32)
        requires
            addr.level == 0,
            self@.global_slot(*addr, slot_index) <= u64::MAX,
            (self@.global_slot(*addr, slot_index) as i32) < i32::MAX,
        ensures
            r == (self@.global_slot(*addr, slot_index) as i32) + 1,
    {
        proof {
            use_type_invariant(self);
            assert(addr.node_number * self.slots <= addr.node_number * self.slots + slot_index);
        }
        let slot_index_globally: u64 = (addr.node_number as u64) * (self.slots as u64)
            + slot_index as u64;
        let truncated = #[verifier::truncate]
        (slot_index_globally as i32);
        truncated + 1
    }

    /// The page id of the page of the free space map at `addr`: the number
    /// of pages up to it in pre-order, cast to `i32` as is.
    pub fn logical_addr_to_fms_page_id(&self, addr: &FsmAddress) -> (r: i32)
        requires
            self@.page_number_fits(*addr),
        ensures
            r == self@.page_number(*addr) as i32,
    {
        proof {
            use_type_invariant(self);
        }
        let ghost total = pages_upto(self@.first_leaf(*addr), self.slots as nat, self.depth as nat);
        let mut leaf_number = addr.node_number;
        let lvl = addr.level;
        let mut l: usize = 0;
        assert(power(self.slots as nat, 0) == 1);
        while l < lvl
            invariant
                self@.wf(),
                l <= lvl,
                lvl == addr.level,
                leaf_number == addr.node_number * power(self.slots as nat, l as nat),
                self@.first_leaf(*addr) <= usize::MAX,
            decreases lvl - l,
        {
            proof {
                lemma_power_monotone(self.slots as nat, (l + 1) as nat, lvl as nat);
                lemma_mul_le(
                    addr.node_number as nat,
                    power(self.slots as nat, (l + 1) as nat),
                    power(self.slots as nat, lvl as nat),
                );
                assert(addr.node_number * power(self.slots as nat, (l + 1) as nat) == leaf_number
                    * self.slots) by (nonlinear_arith)
                    requires
                        leaf_number == addr.node_number * power(self.slots as nat, l as nat),
                        power(self.slots as nat, (l + 1) as nat) == self.slots * power(
                            self.slots as nat,
                            l as nat,
                        ),
                ;
            }
            leaf_number = leaf_number * self.slots;
            l = l + 1;
        }
        let mut pages: usize = 0;
        let mut k: usize = 0;
        while k < self.depth
            invariant
                self@.wf(),
                k <= self.depth,
                pages + pages_upto(leaf_number as nat, self.slots as nat, (self.depth - k) as nat)
                    == total,
                total <= usize::MAX,
            decreases self.depth - k,
        {
            proof {
                lemma_pages_upto_ge(leaf_number as nat, self.slots as nat, (self.depth - k) as nat);
            }
            pages = pages + leaf_number + 1;
            leaf_number = leaf_number / self.slots;
            k = k + 1;
        }
        pages = pages - lvl;
        #[verifier::truncate]
        (pages as i32)
    }
}


/// The state of an update: the page of the map to write next (by its
/// address), the slot to set in its tree, and the value to set it to.
pub struct UpdateState {
    pub shape: FsmShape,
    pub addr: FsmAddress,
    pub slot: usize,
    pub value: u8,
    pub done: bool,
}

/// What an update does with the tree `bytes` of its current page: it sets
/// its slot to its value, giving the new tree; below the root level it then
/// moves to the parent slot, which is to hold the new tree's root.
pub open spec fn update_step(st: UpdateState, bytes: Seq<u8>) -> (UpdateState, Seq<u8>) {
    let nb = spec_set(bytes, spec_non_leaf_nodes(st.shape.page_size), st.slot as nat, st.value);
    if st.addr.level < st.shape.root_level() {
        let p = st.shape.parent(st.addr);
        (UpdateState { addr: p.0, slot: p.1, value: nb[0], ..st }, nb)
    } else {
        (UpdateState { done: true, ..st }, nb)
    }
}

/// An update of the map for one heap page, level by level from the bottom.
pub struct FsmUpdate {
    fsm: Fsm,
    addr: FsmAddress,
    slot: usize,
    value: u8,
    done: bool,
}

impl View for FsmUpdate {
    type V = UpdateState;

    closed spec fn view(&self) -> UpdateState {
        UpdateState {
            shape: self.fsm@,
            addr: self.addr,
            slot: self.slot,
            value: self.value,
            done: self.done,
        }
    }
}

impl FsmUpdate {
    #[verifier::type_invariant]
    spec fn inv(self) -> bool {
        &&& self.fsm@.wf()
        &&& self.addr.level <= self.fsm@.root_level()
        &&& self.slot < self.fsm@.slots
        &&& self.fsm@.first_leaf(self.addr) <= 0x4000_0000
    }

    /// Whether the update has written the root level.
    pub fn is_done(&self) -> (r: bool)
        ensures
            r == self@.done,
    {
        self.done
    }

    /// The page of the map that the update writes next.
    pub fn current_page(&self) -> (r: i32)
        ensures
            r == self@.shape.page_number(self@.addr) as i32,
    {
        proof {
            use_type_invariant(self);
            lemma_capacity(self.fsm@);
            lemma_pages_upto_bound(self.fsm@.first_leaf(self.addr), self.fsm@.slots, self.fsm@.depth);
            lemma_pages_upto_ge(self.fsm@.first_leaf(self.addr), self.fsm@.slots, self.fsm@.depth);
        }
        self.fsm.logical_addr_to_fms_page_id(&self.addr)
    }

    /// Writes the update into the tree of the current page, given as the
    /// record bytes of that page, and returns the new bytes of that page.
    pub fn apply(&mut self, tree_bytes: &[u8]) -> (r: Vec<u8>)
        requires
            !old(self)@.done,
            tree_bytes@.len() == spec_nodes(old(self)@.shape.page_size),
        ensures
            (final(self)@, r@) == update_step(old(self)@, tree_bytes@),
    {
        proof {
            use_type_invariant(&*self);
            use_type_invariant(&self.fsm);
        }
        let mut tree = BinaryTree::deserialize(tree_bytes, &self.fsm.page_layout);
        tree.set_available_space(self.slot, self.value);
        let bytes = tree.serialize();
        proof {
            crate::fsm::binary_tree::lemma_page_shape(self.fsm@.page_size);
        }
        let root = bytes[0];
        if self.addr.level < self.fsm.root_level {
            proof {
                lemma_first_leaf_of_parent(self.fsm@, self.addr);
                lemma_div_mod(self.addr.node_number as int, self.fsm@.slots as int);
            }
            let (parent, parent_slot) = self.fsm.parent(&self.addr);
            *self = FsmUpdate {
                fsm: self.fsm,
                addr: parent,
                slot: parent_slot,
                value: root,
                done: false,
            };
        } else {
            *self = FsmUpdate {
                fsm: self.fsm,
                addr: self.addr,
                slot: self.slot,
                value: self.value,
                done: true,
            };
        }
        bytes
    }
}

/// How many pages must be allocated so that page `last_needed` exists when
/// the next page to allocate has id `next_id`.
pub fn missing_pages(next_id: i32, last_needed: i32) -> (r: u64)
    ensures
        r == (if next_id <= last_needed {
            last_needed + 1 - next_id
        } else {
            0
        }),
{
    if next_id <= last_needed {
        (last_needed as i64 + 1 - next_id as i64) as u64
    } else {
        0
    }
}

/// What a search for a heap page asks for next.
#[derive(PartialEq, Eq, Structural, Debug, Clone, Copy)]
pub enum FsmSearchStep {
    /// Read this page of the map and hand its tree to the search.
    ReadFsmPage(i32),
    /// This heap page has room.
    UseHeapPage(i32),
    /// No heap page has room: allocate a new one.
    AllocateHeapPage,
    /// The trees contradict each other or point outside the heap.
    Corrupted,
}

/// The state of a search: the tree being read and the category wanted.
pub struct SearchState {
    pub shape: FsmShape,
    pub addr: FsmAddress,
    pub category: u8,
    pub descended: bool,
}

/// What a search does with the tree `bytes` of its current page: it
/// searches the tree for its category. Finding nothing is the end when the
/// search is still at the root (a new heap page is needed), and corruption
/// below it; on the bottom level a found slot names the heap page, and
/// above it the search moves to the child behind the slot.
pub open spec fn search_step(st: SearchState, bytes: Seq<u8>) -> (SearchState, FsmSearchStep) {
    let nl = spec_non_leaf_nodes(st.shape.page_size);
    if !(bytes[0] < st.category || descent_safe(bytes, nl, st.category, 0)) {
        (st, FsmSearchStep::Corrupted)
    } else {
        match spec_find(bytes, nl, st.category) {
            None => if st.descended {
                (st, FsmSearchStep::Corrupted)
            } else {
                (st, FsmSearchStep::AllocateHeapPage)
            },
            Some((slot, _)) => if st.addr.level == 0 {
                let h = st.shape.global_slot(st.addr, slot as usize) as i32;
                if h == i32::MAX || h + 1 < 1 {
                    (st, FsmSearchStep::Corrupted)
                } else {
                    (st, FsmSearchStep::UseHeapPage((h + 1) as i32))
                }
            } else {
                let c = st.shape.child(st.addr, slot as usize);
                (
                    SearchState { addr: c, descended: true, ..st },
                    FsmSearchStep::ReadFsmPage(st.shape.page_number(c) as i32),
                )
            },
        }
    }
}

/// When the bottom-level tree is consistent and records for the heap page
/// behind the found slot the category of its free space, a request of at
/// most the largest record size that leads the search to that heap page
/// fits on it.
pub proof fn lemma_found_heap_page_has_room(
    st: SearchState,
    bytes: Seq<u8>,
    needed: nat,
    available: nat,
)
    requires
        st.shape.wf(),
        st.addr.level == 0,
        st.category == st.shape.space_needed_category(needed),
        needed <= st.shape.max_tupel,
        bytes.len() == spec_nodes(st.shape.page_size),
        crate::fsm::binary_tree::consistent(bytes, spec_non_leaf_nodes(st.shape.page_size)),
        search_step(st, bytes).1 is UseHeapPage,
        spec_find(bytes, spec_non_leaf_nodes(st.shape.page_size), st.category) matches Some((slot, _))
            && bytes[(spec_non_leaf_nodes(st.shape.page_size) + slot) as int]
            == st.shape.page_space_category(available),
    ensures
        available >= needed,
{
    let nl = spec_non_leaf_nodes(st.shape.page_size);
    crate::fsm::binary_tree::lemma_page_shape(st.shape.page_size);
    crate::fsm::binary_tree::lemma_find_leftmost(bytes, nl, st.category);
    lemma_category_sound(st.shape, available, needed);
}

/// A consistent tree whose root holds at least the category searched for
/// never stops the search as corrupted or without a page above the bottom
/// level: the search moves to a child, or, on the bottom level, names the
/// heap page behind the slot it found unless that page number does not fit
/// a page id.
pub proof fn lemma_search_step_progress(st: SearchState, bytes: Seq<u8>)
    requires
        st.shape.wf(),
        bytes.len() == spec_nodes(st.shape.page_size),
        crate::fsm::binary_tree::consistent(bytes, spec_non_leaf_nodes(st.shape.page_size)),
        bytes[0] >= st.category,
    ensures
        st.addr.level > 0 ==> search_step(st, bytes).1 is ReadFsmPage,
        st.addr.level == 0 ==> (search_step(st, bytes).1 is UseHeapPage || {
            let slot = spec_find(bytes, spec_non_leaf_nodes(st.shape.page_size), st.category).unwrap().0;
            let h = st.shape.global_slot(st.addr, slot as usize) as i32;
            h == i32::MAX || h + 1 < 1
        }),
{
    let nl = spec_non_leaf_nodes(st.shape.page_size);
    crate::fsm::binary_tree::lemma_page_shape(st.shape.page_size);
    crate::fsm::binary_tree::lemma_find_leftmost(bytes, nl, st.category);
    assert(descent_safe(bytes, nl, st.category, 0));
    assert(spec_find(bytes, nl, st.category) is Some);
}

proof fn lemma_pages_upto_monotone(x: nat, y: nat, slots: nat, levels: nat)
    requires
        slots >= 1,
        y <= x,
    ensures
        pages_upto(y, slots, levels) <= pages_upto(x, slots, levels),
{
    if y < x && levels >= 1 {
        lemma_pages_upto_strictly_increasing(y, x, slots, levels);
    }
}

/// Counting up to a first leaf that starts `m` levels of pages counts at
/// least `m + 1` more pages than counting up to any earlier leaf.
proof fn lemma_pages_upto_gap(x: nat, y: nat, slots: nat, levels: nat, n: nat, m: nat)
    requires
        slots >= 1,
        y < x,
        x == n * power(slots, m),
        m < levels,
    ensures
        pages_upto(x, slots, levels) >= pages_upto(y, slots, levels) + m + 1,
    decreases m,
{
    let xs = x / slots;
    let ys = y / slots;
    if m == 0 {
        vstd::arithmetic::div_mod::lemma_div_is_ordered(y as int, x as int, slots as int);
        lemma_pages_upto_monotone(xs, ys, slots, (levels - 1) as nat);
    } else {
        let p = power(slots, (m - 1) as nat);
        assert(x == (n * p) * slots) by (nonlinear_arith)
            requires
                x == n * power(slots, m),
                power(slots, m) == slots * p,
        ;
        vstd::arithmetic::div_mod::lemma_fundamental_div_mod_converse(x as int, slots as int, (n * p) as int, 0);
        lemma_div_mod(y as int, slots as int);
        assert(ys < xs) by (nonlinear_arith)
            requires
                y < x,
                x == xs * slots,
                y == ys * slots + y % slots,
                0 <= y % slots,
                slots >= 1,
        ;
        lemma_pages_upto_gap(xs, ys, slots, (levels - 1) as nat, n, (m - 1) as nat);
    }
}

/// Different trees of the map are on different pages.
pub proof fn lemma_page_number_injective(shape: FsmShape, a: FsmAddress, b: FsmAddress)
    requires
        shape.wf(),
        in_tree(shape, a),
        in_tree(shape, b),
        a != b,
    ensures
        shape.page_number(a) != shape.page_number(b),
        shape.page_number(a) as i32 != shape.page_number(b) as i32,
{
    lemma_page_id_in_range(shape, a);
    lemma_page_id_in_range(shape, b);
    if a.level == b.level {
        if a.node_number < b.node_number {
            lemma_pages_ordered_in_level(shape, a, b);
        } else {
            lemma_pages_ordered_in_level(shape, b, a);
        }
    } else {
        let (hi, lo) = if a.level > b.level {
            (a, b)
        } else {
            (b, a)
        };
        let fh = shape.first_leaf(hi);
        let fl = shape.first_leaf(lo);
        lemma_capacity(shape);
        if fl >= fh {
            lemma_pages_upto_monotone(fl, fh, shape.slots, shape.depth);
        } else {
            lemma_pages_upto_gap(fh, fl, shape.slots, shape.depth, hi.node_number as nat, hi.level as nat);
        }
    }
}

/// A consistent tree's root holds at least as much as any leaf.
pub(crate) proof fn lemma_root_covers_leaf(a: Seq<u8>, nl: nat, j: int)
    requires
        crate::fsm::binary_tree::tree_shape(a.len(), nl),
        crate::fsm::binary_tree::consistent(a, nl),
        nl <= j < a.len(),
    ensures
        a[0] >= a[j],
{
    crate::fsm::binary_tree::lemma_find_leftmost(a, nl, a[j]);
}

pub(crate) proof fn lemma_parent_in_tree(shape: FsmShape, a: FsmAddress)
    requires
        shape.wf(),
        in_tree(shape, a),
        a.level < shape.root_level(),
    ensures
        in_tree(shape, shape.parent(a).0),
{
    let s = shape.slots;
    let up = (shape.root_level() - a.level - 1) as nat;
    assert((shape.root_level() - a.level) as nat == up + 1);
    let p = power(s, up);
    assert(power(s, up + 1) == s * p);
    lemma_capacity(shape);
    lemma_div_mod(a.node_number as int, s as int);
    let q = a.node_number as nat / s;
    assert(q < p) by (nonlinear_arith)
        requires
            q * s <= a.node_number,
            a.node_number < s * p,
            s >= 1,
    ;
}

/// A search of the map for a heap page with room for a request.
pub struct FsmSearch {
    fsm: Fsm,
    addr: FsmAddress,
    category: u8,
    descended: bool,
}

impl View for FsmSearch {
    type V = SearchState;

    closed spec fn view(&self) -> SearchState {
        SearchState {
            shape: self.fsm@,
            addr: self.addr,
            category: self.category,
            descended: self.descended,
        }
    }
}

impl FsmSearch {
    #[verifier::type_invariant]
    spec fn inv(self) -> bool {
        &&& self.fsm@.wf()
        &&& in_tree(self.fsm@, self.addr)
        &&& self.descended == (self.addr.level < self.fsm@.root_level())
    }

    /// The page of the map whose tree the search reads next.
    pub fn current_page(&self) -> (r: i32)
        ensures
            r == self@.shape.page_number(self@.addr) as i32,
    {
        proof {
            use_type_invariant(self);
            lemma_in_tree_fits(self.fsm@, self.addr);
        }
        self.fsm.logical_addr_to_fms_page_id(&self.addr)
    }

    /// Continues the search with the tree of the current page, given as the
    /// record bytes of that page.
    pub fn next(&mut self, tree_bytes: &[u8]) -> (r: FsmSearchStep)
        requires
            tree_bytes@.len() == spec_nodes(old(self)@.shape.page_size),
        ensures
            (final(self)@, r) == search_step(old(self)@, tree_bytes@),
    {
        proof {
            use_type_invariant(&*self);
        }
        let tree = BinaryTree::deserialize(tree_bytes, &self.fsm.page_layout);
        if !tree.can_search(self.category) {
            return FsmSearchStep::Corrupted;
        }
        let found = tree.find_available(self.category);
        match found {
            None => {
                if self.descended {
                    FsmSearchStep::Corrupted
                } else {
                    FsmSearchStep::AllocateHeapPage
                }
            },
            Some(slot) => {
                let slot_index = slot.slot_index();
                proof {
                    lemma_descend_range(tree_bytes@, tree.non_leaf(), self.category, 0);
                    lemma_capacity(self.fsm@);
                }
                if self.addr.level == 0 {
                    proof {
                        let s = self.fsm@.slots;
                        assert(power(s, (self.fsm@.root_level() + 1) as nat) == s * power(s, self.fsm@.root_level()));
                        assert(self.addr.node_number * s + slot_index < s * power(s, self.fsm@.root_level())) by (nonlinear_arith)
                            requires
                                self.addr.node_number < power(s, self.fsm@.root_level()),
                                slot_index < s,
                        ;
                        assert((self.fsm@.root_level() + 1) as nat == self.fsm@.depth);
                    }
                    let slot_index_globally: u64 = (self.addr.node_number as u64) * (
                    self.fsm.slots as u64) + slot_index as u64;
                    let h = #[verifier::truncate]
                    (slot_index_globally as i32);
                    if h == i32::MAX {
                        return FsmSearchStep::Corrupted;
                    }
                    let heap_page_id = self.fsm.addr_slot_to_heap_page_id(&self.addr, slot_index);
                    if heap_page_id < 1 {
                        return FsmSearchStep::Corrupted;
                    }
                    FsmSearchStep::UseHeapPage(heap_page_id)
                } else {
                    proof {
                        lemma_child_in_tree(self.fsm@, self.addr, slot_index);
                    }
                    let child = self.fsm.child(&self.addr, slot_index);
                    proof {
                        lemma_in_tree_fits(self.fsm@, child);
                    }
                    let page = self.fsm.logical_addr_to_fms_page_id(&child);
                    *self = FsmSearch {
                        fsm: self.fsm,
                        addr: child,
                        category: self.category,
                        descended: true,
                    };
                    FsmSearchStep::ReadFsmPage(page)
                }
            },
        }
    }
}

impl Fsm {
    /// Starts the update of the map for heap page `page_id`, which now has
    /// `free_space` free bytes: its slot on the bottom level is to hold the
    /// category of that space.
    pub fn update(&self, page_id: i32, free_space: usize) -> (r: FsmUpdate)
        requires
            page_id >= 1,
        ensures
            r@ == (UpdateState {
                shape: self@,
                addr: self@.heap_addr(page_id as int).0,
                slot: self@.heap_addr(page_id as int).1,
                value: self@.page_space_category(free_space as nat),
                done: false,
            }),
    {
        proof {
            use_type_invariant(self);
            lemma_capacity(self@);
            lemma_div_mod(page_id - 1, self.slots as int);
            vstd::arithmetic::div_mod::lemma_div_is_ordered_by_denominator(page_id - 1, 2, self.slots as int);
            assert(power(self.slots as nat, 0) == 1);
        }
        let category = self.page_space_to_category(free_space);
        let (addr, slot) = self.heap_page_id_to_addr(page_id);
        assert(self@.first_leaf(addr) == addr.node_number * 1);
        FsmUpdate { fsm: *self, addr, slot, value: category, done: false }
    }

    /// Starts a search for a heap page with room for `bytes` bytes, and
    /// says how many pages the map file, which has `number_of_pages` pages,
    /// must first be given so that one page per level exists.
    pub fn find_available_page(&self, bytes: usize, number_of_pages: usize) -> (r: (
        FsmSearch,
        usize,
    ))
        ensures
            r.0@ == (SearchState {
                shape: self@,
                addr: self@.root(),
                category: self@.space_needed_category(bytes as nat),
                descended: false,
            }),
            r.1 == (if number_of_pages < self@.depth {
                self@.depth - number_of_pages
            } else {
                0
            }),
    {
        proof {
            use_type_invariant(self);
            assert(power(self.slots as nat, 0) == 1);
        }
        let cat = self.space_needed_to_category(bytes);
        let missing = if number_of_pages < self.root_level + 1 {
            self.root_level + 1 - number_of_pages
        } else {
            0
        };
        let search = FsmSearch { fsm: *self, addr: self.root(), category: cat, descended: false };
        (search, missing)
    }
}


/// The pages of the free space map of one table.
pub struct FsmAccess {
    table_id: i32,
}

impl FsmAccess {
    /// The free space map pages of the table with id `table_id`.
    pub fn new(table_id: i32) -> (r: FsmAccess)
        ensures
            r.spec_table_id() == table_id,
    {
        FsmAccess { table_id }
    }

    pub closed spec fn spec_table_id(&self) -> i32 {
        self.table_id
    }

    /// The id of the table whose free space map this is.
    pub fn table_id(&self) -> (r: i32)
        ensures
            r == self.spec_table_id(),
    {
        self.table_id
    }
}

impl PageStorage for FsmAccess {
    /// `fsm_<table id>.dat`.
    fn file_path(&self) -> (r: String)
        ensures
            r@ == "fsm_"@ + decimal(self.spec_table_id() as int) + ".dat"@,
    {
        proof {
            reveal_strlit("fsm_");
            reveal_strlit(".dat");
        }
        let mut path = String::new();
        path.append("fsm_");
        push_decimal(&mut path, self.table_id);
        path.append(".dat");
        path
    }
}

impl Fsm {
    /// Where the free space map of the table with id `table_id` is stored.
    pub fn access(table_id: i32) -> (r: FsmAccess)
        ensures
            r.spec_table_id() == table_id,
    {
        FsmAccess::new(table_id)
    }
}

} // verus!
