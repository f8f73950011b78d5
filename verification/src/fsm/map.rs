//! Laws of the free space map as a whole: the map is modelled as a map
//! from page numbers to the tree bytes of those pages, updates and searches
//! as the runs of their step functions over it.
use vstd::prelude::*;

use crate::fsm::binary_tree::{
    consistent, lemma_find_leftmost, lemma_page_shape, lemma_set_keeps_consistent, spec_find,
    spec_nodes, spec_non_leaf_nodes, spec_set, tree_shape,
};
use crate::fsm::fsm::{
    in_tree, lemma_capacity, lemma_child_in_tree, lemma_child_of_parent, lemma_div_mod,
    lemma_page_number_injective, lemma_parent_in_tree, lemma_power_positive, lemma_parent_of_child, lemma_root_covers_leaf, power, search_step,
    update_step, FsmAddress, FsmSearchStep, FsmShape, SearchState, UpdateState,
};

verus! {

/// Every tree of the map is there, with one byte per node, and consistent.
pub open spec fn trees_ok(shape: FsmShape, pages: Map<int, Seq<u8>>) -> bool {
    forall|a: FsmAddress|
        #[trigger] in_tree(shape, a) ==> {
            &&& pages.contains_key(shape.page_number(a))
            &&& pages[shape.page_number(a)].len() == spec_nodes(shape.page_size)
            &&& consistent(pages[shape.page_number(a)], spec_non_leaf_nodes(shape.page_size))
        }
}

/// Slot `s` of the tree at `a`, above the bottom level, holds the root of
/// the tree behind it.
pub open spec fn slot_matches_child(shape: FsmShape, pages: Map<int, Seq<u8>>, a: FsmAddress, s: usize) -> bool {
    pages[shape.page_number(shape.child(a, s))][0] == pages[shape.page_number(a)][spec_non_leaf_nodes(
        shape.page_size,
    ) + s]
}

/// Every tree of the map is consistent and every slot above the bottom
/// level holds the root of the tree behind it.
pub open spec fn map_consistent(shape: FsmShape, pages: Map<int, Seq<u8>>) -> bool {
    &&& trees_ok(shape, pages)
    &&& forall|a: FsmAddress, s: usize|
        in_tree(shape, a) && a.level >= 1 && s < shape.slots ==> #[trigger] slot_matches_child(
            shape,
            pages,
            a,
            s,
        )
}

/// The state in which an update of heap page `page_id` to `free_space`
/// free bytes starts.
pub open spec fn update_start(shape: FsmShape, page_id: int, free_space: nat) -> UpdateState {
    UpdateState {
        shape,
        addr: shape.heap_addr(page_id).0,
        slot: shape.heap_addr(page_id).1,
        value: shape.page_space_category(free_space),
        done: false,
    }
}

/// The map after at most `steps` steps of an update, each step writing the
/// new tree of the page at the update's current address.
pub open spec fn run_update(st: UpdateState, pages: Map<int, Seq<u8>>, steps: nat) -> Map<int, Seq<u8>>
    decreases steps,
{
    if st.done || steps == 0 {
        pages
    } else {
        let pn = st.shape.page_number(st.addr);
        let r = update_step(st, pages[pn]);
        run_update(r.0, pages.insert(pn, r.1), (steps - 1) as nat)
    }
}

/// The category recorded for the heap page with global slot `g` (page id
/// `g + 1`): the leaf of that slot in its bottom-level tree.
pub open spec fn recorded(shape: FsmShape, pages: Map<int, Seq<u8>>, g: nat) -> u8 {
    let b = FsmAddress { node_number: (g / shape.slots) as usize, level: 0 };
    pages[shape.page_number(b)][(spec_non_leaf_nodes(shape.page_size) + g % shape.slots) as int]
}

/// The number of heap pages the map covers.
pub open spec fn capacity(shape: FsmShape) -> nat {
    power(shape.slots, shape.depth)
}

/// Only heap pages below `next_id`, the id the next allocated heap page
/// gets, have a non-zero recorded category.
pub open spec fn recorded_below(shape: FsmShape, pages: Map<int, Seq<u8>>, next_id: int) -> bool {
    forall|g: nat| g < capacity(shape) && #[trigger] recorded(shape, pages, g) > 0 ==> g + 1 < next_id
}

proof fn lemma_trees_ok_at(shape: FsmShape, pages: Map<int, Seq<u8>>, a: FsmAddress)
    requires
        trees_ok(shape, pages),
        in_tree(shape, a),
    ensures
        pages.contains_key(shape.page_number(a)),
        pages[shape.page_number(a)].len() == spec_nodes(shape.page_size),
        consistent(pages[shape.page_number(a)], spec_non_leaf_nodes(shape.page_size)),
{
}

/// One update step keeps every tree consistent, and every slot matching
/// except the parent slot of the tree just written.
proof fn lemma_update_step_pairs(st: UpdateState, pages: Map<int, Seq<u8>>, b: FsmAddress, t: usize)
    requires
        st.shape.wf(),
        !st.done,
        in_tree(st.shape, st.addr),
        st.slot < st.shape.slots,
        trees_ok(st.shape, pages),
        forall|b2: FsmAddress, t2: usize|
            in_tree(st.shape, b2) && b2.level >= 1 && t2 < st.shape.slots && !(st.addr.level >= 1
                && b2 == st.addr && t2 == st.slot) ==> #[trigger] slot_matches_child(
                st.shape,
                pages,
                b2,
                t2,
            ),
        st.addr.level >= 1 ==> st.value == pages[st.shape.page_number(
            st.shape.child(st.addr, st.slot),
        )][0],
        in_tree(st.shape, b),
        b.level >= 1,
        t < st.shape.slots,
        st.shape.child(b, t) != st.addr,
    ensures
        slot_matches_child(
            st.shape,
            pages.insert(
                st.shape.page_number(st.addr),
                update_step(st, pages[st.shape.page_number(st.addr)]).1,
            ),
            b,
            t,
        ),
{
    let shape = st.shape;
    let nl = spec_non_leaf_nodes(shape.page_size);
    let pn = shape.page_number(st.addr);
    let old = pages[pn];
    let nb = update_step(st, old).1;
    let m = pages.insert(pn, nb);
    let c = shape.child(b, t);
    lemma_page_shape(shape.page_size);
    lemma_child_in_tree(shape, b, t);
    lemma_trees_ok_at(shape, pages, st.addr);
    lemma_trees_ok_at(shape, pages, c);
    lemma_page_number_injective(shape, c, st.addr);
    assert(m[shape.page_number(c)] == pages[shape.page_number(c)]);
    lemma_set_keeps_consistent(old, nl, st.slot as nat, st.value);
    if b == st.addr {
        assert(m[shape.page_number(b)] == nb);
        if t == st.slot {
            assert(nb[nl + t] == st.value);
        } else {
            assert(nb[nl + t] == old[nl + t]);
            assert(slot_matches_child(shape, pages, b, t));
        }
    } else {
        lemma_page_number_injective(shape, b, st.addr);
        assert(slot_matches_child(shape, pages, b, t));
    }
}

/// The trees after one update step are all there and consistent.
proof fn lemma_update_step_trees(st: UpdateState, pages: Map<int, Seq<u8>>)
    requires
        st.shape.wf(),
        !st.done,
        in_tree(st.shape, st.addr),
        st.slot < st.shape.slots,
        trees_ok(st.shape, pages),
    ensures
        trees_ok(
            st.shape,
            pages.insert(
                st.shape.page_number(st.addr),
                update_step(st, pages[st.shape.page_number(st.addr)]).1,
            ),
        ),
{
    let shape = st.shape;
    let nl = spec_non_leaf_nodes(shape.page_size);
    let pn = shape.page_number(st.addr);
    let old = pages[pn];
    let nb = update_step(st, old).1;
    let m = pages.insert(pn, nb);
    lemma_page_shape(shape.page_size);
    lemma_trees_ok_at(shape, pages, st.addr);
    lemma_set_keeps_consistent(old, nl, st.slot as nat, st.value);
    assert forall|a: FsmAddress| #[trigger] in_tree(shape, a) implies {
        &&& m.contains_key(shape.page_number(a))
        &&& m[shape.page_number(a)].len() == spec_nodes(shape.page_size)
        &&& consistent(m[shape.page_number(a)], nl)
    } by {
        lemma_trees_ok_at(shape, pages, a);
        if a != st.addr {
            lemma_page_number_injective(shape, a, st.addr);
        }
    }
}

/// What an update state carries: its address lies in the map, and the map
/// is consistent except at the state's own slot, whose child root (above
/// the bottom level) the state carries as its value.
pub open spec fn update_inv(st: UpdateState, pages: Map<int, Seq<u8>>) -> bool {
    &&& st.shape.wf()
    &&& !st.done
    &&& in_tree(st.shape, st.addr)
    &&& st.slot < st.shape.slots
    &&& trees_ok(st.shape, pages)
    &&& forall|b2: FsmAddress, t2: usize|
        in_tree(st.shape, b2) && b2.level >= 1 && t2 < st.shape.slots && !(st.addr.level >= 1 && b2
            == st.addr && t2 == st.slot) ==> #[trigger] slot_matches_child(st.shape, pages, b2, t2)
    &&& st.addr.level >= 1 ==> st.value == pages[st.shape.page_number(
        st.shape.child(st.addr, st.slot),
    )][0]
}

/// After a step below the root level every slot matches except the parent
/// slot of the tree just written.
#[verifier::spinoff_prover]
proof fn lemma_update_step_parent_pairs(st: UpdateState, pages: Map<int, Seq<u8>>, m: Map<int, Seq<u8>>, p: (FsmAddress, usize))
    requires
        update_inv(st, pages),
        st.addr.level < st.shape.root_level(),
        m == pages.insert(
            st.shape.page_number(st.addr),
            update_step(st, pages[st.shape.page_number(st.addr)]).1,
        ),
        p == st.shape.parent(st.addr),
    ensures
        forall|b2: FsmAddress, t2: usize|
            in_tree(st.shape, b2) && b2.level >= 1 && t2 < st.shape.slots && !(p.0.level >= 1 && b2
                == p.0 && t2 == p.1) ==> #[trigger] slot_matches_child(st.shape, m, b2, t2),
{
    let shape = st.shape;
    assert forall|b2: FsmAddress, t2: usize|
        in_tree(shape, b2) && b2.level >= 1 && t2 < shape.slots && !(p.0.level >= 1 && b2 == p.0 && t2
            == p.1) implies #[trigger] slot_matches_child(shape, m, b2, t2) by {
        lemma_child_in_tree(shape, b2, t2);
        if shape.child(b2, t2) == st.addr {
            lemma_parent_of_child(shape, b2, t2);
        }
        lemma_update_step_pairs(st, pages, b2, t2);
    }
}

/// A step below the root level keeps the invariant for the parent slot.
#[verifier::spinoff_prover]
#[verifier::rlimit(60)]
proof fn lemma_update_step_inv(st: UpdateState, pages: Map<int, Seq<u8>>)
    requires
        update_inv(st, pages),
        st.addr.level < st.shape.root_level(),
    ensures
        update_inv(
            update_step(st, pages[st.shape.page_number(st.addr)]).0,
            pages.insert(
                st.shape.page_number(st.addr),
                update_step(st, pages[st.shape.page_number(st.addr)]).1,
            ),
        ),
{
    let shape = st.shape;
    let pn = shape.page_number(st.addr);
    let r = update_step(st, pages[pn]);
    let nb = r.1;
    let m = pages.insert(pn, nb);
    let p = shape.parent(st.addr);
    let nst = r.0;
    assert(nst.addr == p.0);
    assert(nst.slot == p.1);
    assert(nst.value == nb[0]);
    lemma_update_step_trees(st, pages);
    lemma_parent_in_tree(shape, st.addr);
    lemma_child_of_parent(shape, st.addr);
    lemma_div_mod(st.addr.node_number as int, shape.slots as int);
    lemma_update_step_parent_pairs(st, pages, m, p);
    assert(m[shape.page_number(shape.child(p.0, p.1))] == nb);
}

/// A step on the root level leaves a consistent map.
#[verifier::spinoff_prover]
proof fn lemma_update_last_step(st: UpdateState, pages: Map<int, Seq<u8>>)
    requires
        update_inv(st, pages),
        st.addr.level >= st.shape.root_level(),
    ensures
        update_step(st, pages[st.shape.page_number(st.addr)]).0.done,
        map_consistent(
            st.shape,
            pages.insert(
                st.shape.page_number(st.addr),
                update_step(st, pages[st.shape.page_number(st.addr)]).1,
            ),
        ),
{
    let shape = st.shape;
    let pn = shape.page_number(st.addr);
    let m = pages.insert(pn, update_step(st, pages[pn]).1);
    lemma_update_step_trees(st, pages);
    assert forall|b2: FsmAddress, t2: usize|
        in_tree(shape, b2) && b2.level >= 1 && t2 < shape.slots implies #[trigger] slot_matches_child(
        shape,
        m,
        b2,
        t2,
    ) by {
        lemma_child_in_tree(shape, b2, t2);
        lemma_update_step_pairs(st, pages, b2, t2);
    }
}

/// An update run from a state that keeps the invariant, with a step left
/// for every level from its own up to the root, leaves a consistent map.
proof fn lemma_run_update_consistent(st: UpdateState, pages: Map<int, Seq<u8>>, steps: nat)
    requires
        update_inv(st, pages),
        steps >= st.shape.root_level() - st.addr.level + 1,
    ensures
        map_consistent(st.shape, run_update(st, pages, steps)),
    decreases steps,
{
    let pn = st.shape.page_number(st.addr);
    let r = update_step(st, pages[pn]);
    let m = pages.insert(pn, r.1);
    assert(run_update(st, pages, steps) == run_update(r.0, m, (steps - 1) as nat));
    if st.addr.level < st.shape.root_level() {
        lemma_update_step_inv(st, pages);
        lemma_run_update_consistent(r.0, m, (steps - 1) as nat);
    } else {
        lemma_update_last_step(st, pages);
    }
}

/// Updating a heap page that the map covers keeps a consistent map
/// consistent: each slot above the bottom level is set to the new root of
/// the tree just written below it.
pub proof fn lemma_update_keeps_map_consistent(
    shape: FsmShape,
    pages: Map<int, Seq<u8>>,
    page_id: int,
    free_space: nat,
)
    requires
        shape.wf(),
        1 <= page_id <= i32::MAX,
        in_tree(shape, shape.heap_addr(page_id).0),
        map_consistent(shape, pages),
    ensures
        map_consistent(shape, run_update(update_start(shape, page_id, free_space), pages, shape.depth)),
{
    lemma_div_mod(page_id - 1, shape.slots as int);
    lemma_run_update_consistent(update_start(shape, page_id, free_space), pages, shape.depth);
}

/// An update run that has reached level `b.level + 1` or above no longer
/// changes the page of `b`.
proof fn lemma_run_update_keeps_lower(st: UpdateState, pages: Map<int, Seq<u8>>, steps: nat, b: FsmAddress)
    requires
        st.shape.wf(),
        in_tree(st.shape, st.addr),
        in_tree(st.shape, b),
        b.level < st.addr.level,
    ensures
        run_update(st, pages, steps)[st.shape.page_number(b)] == pages[st.shape.page_number(b)],
    decreases steps,
{
    if !st.done && steps > 0 {
        let pn = st.shape.page_number(st.addr);
        let r = update_step(st, pages[pn]);
        lemma_page_number_injective(st.shape, b, st.addr);
        if st.addr.level < st.shape.root_level() {
            lemma_parent_in_tree(st.shape, st.addr);
        }
        lemma_run_update_keeps_lower(r.0, pages.insert(pn, r.1), (steps - 1) as nat, b);
    }
}

/// The bottom-level address of global slot `g`.
pub open spec fn bottom(shape: FsmShape, g: nat) -> FsmAddress {
    FsmAddress { node_number: (g / shape.slots) as usize, level: 0 }
}

proof fn lemma_bottom_in_tree(shape: FsmShape, g: nat)
    requires
        shape.wf(),
        g < capacity(shape),
    ensures
        in_tree(shape, bottom(shape, g)),
        g % shape.slots < shape.slots,
        g / shape.slots < power(shape.slots, shape.root_level()),
        bottom(shape, g).node_number == g / shape.slots,
{
    let s = shape.slots;
    lemma_div_mod(g as int, s as int);
    lemma_capacity(shape);
    let p = power(s, shape.root_level());
    assert(power(s, shape.depth) == s * p);
    let q = g / s;
    assert(q < p) by (nonlinear_arith)
        requires
            q * s <= g,
            g < s * p,
            s >= 1,
    ;
}

proof fn lemma_same_global_slot(shape: FsmShape, g: nat, page_id: int)
    requires
        shape.wf(),
        1 <= page_id <= i32::MAX,
        g < capacity(shape),
    ensures
        (g == page_id - 1) <==> (bottom(shape, g) == shape.heap_addr(page_id).0 && g % shape.slots
            == shape.heap_addr(page_id).1),
{
    let s = shape.slots as int;
    lemma_div_mod(page_id - 1, s);
    lemma_div_mod(g as int, s);
    lemma_capacity(shape);
    lemma_bottom_in_tree(shape, g);
    assert(g / shape.slots < power(shape.slots, shape.root_level()));
    if bottom(shape, g) == shape.heap_addr(page_id).0 && g % shape.slots == shape.heap_addr(page_id).1 {
        assert(g / shape.slots == (page_id - 1) / s);
        assert(g as int == (g / shape.slots) * s + g % shape.slots);
    }
}

/// The first step of an update records its category on the bottom level.
#[verifier::spinoff_prover]
proof fn lemma_first_update_step(
    shape: FsmShape,
    pages: Map<int, Seq<u8>>,
    page_id: int,
    free_space: nat,
    g: nat,
)
    requires
        shape.wf(),
        1 <= page_id <= i32::MAX,
        in_tree(shape, shape.heap_addr(page_id).0),
        map_consistent(shape, pages),
        g < capacity(shape),
    ensures
        ({
            let st = update_start(shape, page_id, free_space);
            let pn = shape.page_number(st.addr);
            let m = pages.insert(pn, update_step(st, pages[pn]).1);
            recorded(shape, m, g) == if g == page_id - 1 {
                shape.page_space_category(free_space)
            } else {
                recorded(shape, pages, g)
            }
        }),
{
    let st = update_start(shape, page_id, free_space);
    let nl = spec_non_leaf_nodes(shape.page_size);
    let a0 = st.addr;
    let pn = shape.page_number(a0);
    let nb = update_step(st, pages[pn]).1;
    let m = pages.insert(pn, nb);
    let b = bottom(shape, g);
    lemma_div_mod(page_id - 1, shape.slots as int);
    lemma_bottom_in_tree(shape, g);
    lemma_page_shape(shape.page_size);
    lemma_trees_ok_at(shape, pages, a0);
    lemma_set_keeps_consistent(pages[pn], nl, st.slot as nat, st.value);
    lemma_same_global_slot(shape, g, page_id);
    if b != a0 {
        lemma_page_number_injective(shape, b, a0);
    }
}

/// After an update of heap page `page_id`, the map records its category
/// for that page and the same as before for every other page.
pub proof fn lemma_update_records_category(
    shape: FsmShape,
    pages: Map<int, Seq<u8>>,
    page_id: int,
    free_space: nat,
    g: nat,
)
    requires
        shape.wf(),
        1 <= page_id <= i32::MAX,
        in_tree(shape, shape.heap_addr(page_id).0),
        map_consistent(shape, pages),
        g < capacity(shape),
    ensures
        recorded(shape, run_update(update_start(shape, page_id, free_space), pages, shape.depth), g)
            == if g == page_id - 1 {
            shape.page_space_category(free_space)
        } else {
            recorded(shape, pages, g)
        },
{
    let st = update_start(shape, page_id, free_space);
    let pn = shape.page_number(st.addr);
    let r = update_step(st, pages[pn]);
    let m = pages.insert(pn, r.1);
    lemma_div_mod(page_id - 1, shape.slots as int);
    lemma_first_update_step(shape, pages, page_id, free_space, g);
    assert(run_update(st, pages, shape.depth) == run_update(r.0, m, (shape.depth - 1) as nat));
    lemma_parent_in_tree(shape, st.addr);
    lemma_bottom_in_tree(shape, g);
    lemma_run_update_keeps_lower(r.0, m, (shape.depth - 1) as nat, bottom(shape, g));
}

/// Updating a heap page below `next_id` keeps every non-zero record on
/// heap pages below `next_id`.
pub proof fn lemma_update_keeps_recorded_below(
    shape: FsmShape,
    pages: Map<int, Seq<u8>>,
    page_id: int,
    free_space: nat,
    next_id: int,
)
    requires
        shape.wf(),
        1 <= page_id <= i32::MAX,
        page_id < next_id,
        in_tree(shape, shape.heap_addr(page_id).0),
        map_consistent(shape, pages),
        recorded_below(shape, pages, next_id),
    ensures
        recorded_below(
            shape,
            run_update(update_start(shape, page_id, free_space), pages, shape.depth),
            next_id,
        ),
{
    let m = run_update(update_start(shape, page_id, free_space), pages, shape.depth);
    assert forall|g: nat| g < capacity(shape) && #[trigger] recorded(shape, m, g) > 0 implies g + 1
        < next_id by {
        lemma_update_records_category(shape, pages, page_id, free_space, g);
    }
}

// ---------------------------------------------------------------------------
// Searching the map
// ---------------------------------------------------------------------------

/// The state a search for a heap page of category `category` starts in: at
/// the root tree.
pub open spec fn search_start(shape: FsmShape, category: u8) -> SearchState {
    SearchState { shape, addr: shape.root(), category, descended: false }
}

/// What a search from `st` answers once it has read at most `steps` trees
/// of the map, each from the page it asked for; a search that still wants
/// a page asks for the page of its current tree.
pub open spec fn run_search(st: SearchState, pages: Map<int, Seq<u8>>, steps: nat) -> FsmSearchStep
    decreases steps,
{
    if steps == 0 {
        FsmSearchStep::ReadFsmPage(st.shape.page_number(st.addr) as i32)
    } else {
        let r = search_step(st, pages[st.shape.page_number(st.addr)]);
        match r.1 {
            FsmSearchStep::ReadFsmPage(_) => run_search(r.0, pages, (steps - 1) as nat),
            _ => r.1,
        }
    }
}

/// The number of heap pages under the tree at `a`.
pub open spec fn slot_span(shape: FsmShape, a: FsmAddress) -> nat {
    power(shape.slots, (a.level + 1) as nat)
}

/// The global slot of the first heap page under the tree at `a`.
pub open spec fn first_slot(shape: FsmShape, a: FsmAddress) -> nat {
    (a.node_number * slot_span(shape, a)) as nat
}

/// A tree of the map has one leaf per slot.
proof fn lemma_leaves(shape: FsmShape)
    requires
        shape.wf(),
    ensures
        spec_nodes(shape.page_size) == spec_non_leaf_nodes(shape.page_size) + shape.slots,
        tree_shape(spec_nodes(shape.page_size), spec_non_leaf_nodes(shape.page_size)),
        shape.slots >= 2,
{
    lemma_page_shape(shape.page_size);
    assert(shape.page_size % 2 == 0);
    lemma_capacity(shape);
}

/// The global slots under a tree above the bottom level are those under its
/// children, in slot order.
proof fn lemma_child_slots(shape: FsmShape, a: FsmAddress, t: usize)
    requires
        shape.wf(),
        in_tree(shape, a),
        a.level >= 1,
        t < shape.slots,
    ensures
        slot_span(shape, shape.child(a, t)) == power(shape.slots, a.level as nat),
        slot_span(shape, a) == shape.slots * power(shape.slots, a.level as nat),
        first_slot(shape, shape.child(a, t)) == first_slot(shape, a) + t * power(
            shape.slots,
            a.level as nat,
        ),
        in_tree(shape, shape.child(a, t)),
{
    lemma_child_in_tree(shape, a, t);
    let s = shape.slots;
    let p = power(s, a.level as nat);
    let c = shape.child(a, t);
    assert(c.level + 1 == a.level);
    assert(power(s, (a.level + 1) as nat) == s * p);
    assert(c.node_number == a.node_number * s + t);
    let n = a.node_number as nat;
    assert((n * s + t) * p == n * (s * p) + t * p) by (nonlinear_arith);
}

/// A global slot under a tree above the bottom level lies under one of its
/// children.
proof fn lemma_split_slot(shape: FsmShape, a: FsmAddress, g: nat) -> (t: usize)
    requires
        shape.wf(),
        in_tree(shape, a),
        a.level >= 1,
        first_slot(shape, a) <= g < first_slot(shape, a) + slot_span(shape, a),
    ensures
        t < shape.slots,
        first_slot(shape, shape.child(a, t)) <= g,
        g < first_slot(shape, shape.child(a, t)) + slot_span(shape, shape.child(a, t)),
{
    let s = shape.slots;
    let p = power(s, a.level as nat);
    lemma_capacity(shape);
    lemma_power_positive(s, a.level as nat);
    assert(power(s, (a.level + 1) as nat) == s * p);
    let d = (g - first_slot(shape, a)) as nat;
    lemma_div_mod(d as int, p as int);
    let t = d / p;
    assert(t < s) by (nonlinear_arith)
        requires
            t * p <= d,
            d < s * p,
            p >= 1,
    ;
    lemma_child_slots(shape, a, t as usize);
    t as usize
}

/// On the bottom level, a global slot under a tree is one of its slots.
proof fn lemma_bottom_of_slot(shape: FsmShape, a: FsmAddress, g: nat)
    requires
        shape.wf(),
        a.level == 0,
        first_slot(shape, a) <= g < first_slot(shape, a) + slot_span(shape, a),
    ensures
        bottom(shape, g) == a,
        g % shape.slots == g - first_slot(shape, a),
        g - first_slot(shape, a) < shape.slots,
{
    let s = shape.slots;
    lemma_capacity(shape);
    assert(power(s, 0) == 1);
    assert(power(s, 1) == s * power(s, 0));
    assert(slot_span(shape, a) == s);
    vstd::arithmetic::div_mod::lemma_fundamental_div_mod_converse(
        g as int,
        s as int,
        a.node_number as int,
        g - a.node_number * s,
    );
}

/// In a consistent map the root of a tree holds at least the category
/// recorded for every heap page under it.
proof fn lemma_root_bounds_recorded(shape: FsmShape, pages: Map<int, Seq<u8>>, a: FsmAddress, g: nat)
    requires
        shape.wf(),
        map_consistent(shape, pages),
        in_tree(shape, a),
        first_slot(shape, a) <= g < first_slot(shape, a) + slot_span(shape, a),
    ensures
        recorded(shape, pages, g) <= pages[shape.page_number(a)][0],
    decreases a.level,
{
    let nl = spec_non_leaf_nodes(shape.page_size);
    lemma_leaves(shape);
    lemma_trees_ok_at(shape, pages, a);
    if a.level == 0 {
        lemma_bottom_of_slot(shape, a, g);
        lemma_root_covers_leaf(pages[shape.page_number(a)], nl, (nl + g % shape.slots) as int);
    } else {
        let t = lemma_split_slot(shape, a, g);
        lemma_child_slots(shape, a, t);
        lemma_root_bounds_recorded(shape, pages, shape.child(a, t), g);
        assert(slot_matches_child(shape, pages, a, t));
        lemma_root_covers_leaf(pages[shape.page_number(a)], nl, (nl + t) as int);
    }
}

/// A search from a tree whose root reaches its category, on a consistent
/// map whose non-zero records all belong to heap pages below `next_id`,
/// answers the first heap page under that tree whose recorded category
/// reaches the category; the page is returned by its global slot.
proof fn lemma_search_from(st: SearchState, pages: Map<int, Seq<u8>>, steps: nat, next_id: int) -> (g: nat)
    requires
        st.shape.wf(),
        map_consistent(st.shape, pages),
        recorded_below(st.shape, pages, next_id),
        next_id <= i32::MAX,
        in_tree(st.shape, st.addr),
        st.category >= 1,
        pages[st.shape.page_number(st.addr)][0] >= st.category,
        steps >= st.addr.level + 1,
    ensures
        first_slot(st.shape, st.addr) <= g,
        g < first_slot(st.shape, st.addr) + slot_span(st.shape, st.addr),
        recorded(st.shape, pages, g) >= st.category,
        forall|h: nat|
            first_slot(st.shape, st.addr) <= h < g ==> #[trigger] recorded(st.shape, pages, h)
                < st.category,
        g + 1 < next_id,
        run_search(st, pages, steps) == FsmSearchStep::UseHeapPage((g + 1) as i32),
    decreases st.addr.level,
{
    let shape = st.shape;
    let a = st.addr;
    let c = st.category;
    let s = shape.slots;
    let nl = spec_non_leaf_nodes(shape.page_size);
    let bytes = pages[shape.page_number(a)];
    lemma_leaves(shape);
    lemma_trees_ok_at(shape, pages, a);
    lemma_find_leftmost(bytes, nl, c);
    let slot = spec_find(bytes, nl, c).unwrap().0;
    assert(slot < s);
    let r = search_step(st, bytes);
    if a.level == 0 {
        let g = (a.node_number * s + slot) as nat;
        assert(power(s, 0) == 1);
        assert(power(s, 1) == s * power(s, 0));
        assert(first_slot(shape, a) == a.node_number * s);
        lemma_bottom_of_slot(shape, a, g);
        assert(recorded(shape, pages, g) == bytes[(nl + slot) as int]);
        assert(a.node_number < power(s, shape.root_level()));
        assert(power(s, shape.depth) == s * power(s, shape.root_level()));
        assert(g < power(s, shape.depth)) by (nonlinear_arith)
            requires
                g == a.node_number * s + slot,
                slot < s,
                a.node_number < power(s, shape.root_level()),
                power(s, shape.depth) == s * power(s, shape.root_level()),
        ;
        assert(g + 1 < next_id);
        assert(shape.global_slot(a, slot as usize) == g);
        assert(r.1 == FsmSearchStep::UseHeapPage((g + 1) as i32));
        assert forall|h: nat| first_slot(shape, a) <= h < g implies #[trigger] recorded(shape, pages, h)
            < c by {
            lemma_bottom_of_slot(shape, a, h);
        }
        g
    } else {
        let t = slot as usize;
        let ch = shape.child(a, t);
        let p = power(s, a.level as nat);
        lemma_child_slots(shape, a, t);
        assert(slot_matches_child(shape, pages, a, t));
        let nst = SearchState { addr: ch, descended: true, ..st };
        assert(r.0 == nst);
        assert(r.1 is ReadFsmPage);
        assert(run_search(st, pages, steps) == run_search(nst, pages, (steps - 1) as nat));
        let g = lemma_search_from(nst, pages, (steps - 1) as nat, next_id);
        lemma_power_positive(s, a.level as nat);
        assert(first_slot(shape, a) + slot_span(shape, a) >= first_slot(shape, ch) + slot_span(shape, ch)) by (nonlinear_arith)
            requires
                first_slot(shape, ch) == first_slot(shape, a) + slot * p,
                slot_span(shape, ch) == p,
                slot_span(shape, a) == s * p,
                slot < s,
        ;
        assert forall|h: nat| first_slot(shape, a) <= h < g implies #[trigger] recorded(shape, pages, h)
            < c by {
            if h < first_slot(shape, ch) {
                let u = lemma_split_slot(shape, a, h);
                lemma_child_slots(shape, a, u);
                assert(u < slot) by (nonlinear_arith)
                    requires
                        first_slot(shape, shape.child(a, u)) <= h,
                        h < first_slot(shape, ch),
                        first_slot(shape, shape.child(a, u)) == first_slot(shape, a) + u * p,
                        first_slot(shape, ch) == first_slot(shape, a) + slot * p,
                ;
                lemma_root_bounds_recorded(shape, pages, shape.child(a, u), h);
                assert(slot_matches_child(shape, pages, a, u));
            }
        }
        g
    }
}

/// A search for `category` (at least 1) on a map in which every slot above
/// the bottom level holds the root of the tree behind it, and every
/// non-zero record belongs to a heap page below `next_id`, answers the heap
/// page with the smallest id whose recorded category reaches `category`,
/// and asks for a new heap page exactly when no heap page's does.
pub proof fn lemma_search_finds_first_fit(
    shape: FsmShape,
    pages: Map<int, Seq<u8>>,
    category: u8,
    next_id: i32,
)
    requires
        shape.wf(),
        map_consistent(shape, pages),
        recorded_below(shape, pages, next_id as int),
        category >= 1,
    ensures
        (exists|g: nat| g < capacity(shape) && #[trigger] recorded(shape, pages, g) >= category) ==> (
        run_search(search_start(shape, category), pages, shape.depth) matches FsmSearchStep::UseHeapPage(
            h,
        ) && 1 <= h < next_id && h <= capacity(shape) && recorded(shape, pages, (h - 1) as nat)
            >= category && forall|g: nat|
            g + 1 < h ==> #[trigger] recorded(shape, pages, g) < category),
        !(exists|g: nat| g < capacity(shape) && #[trigger] recorded(shape, pages, g) >= category)
            ==> run_search(search_start(shape, category), pages, shape.depth)
            == FsmSearchStep::AllocateHeapPage,
{
    let st = search_start(shape, category);
    let root = shape.root();
    let nl = spec_non_leaf_nodes(shape.page_size);
    let bytes = pages[shape.page_number(root)];
    lemma_leaves(shape);
    lemma_power_positive(shape.slots, 0);
    assert(in_tree(shape, root));
    assert(first_slot(shape, root) == 0);
    assert((root.level + 1) as nat == shape.depth);
    assert(slot_span(shape, root) == capacity(shape));
    if bytes[0] >= category {
        let g = lemma_search_from(st, pages, shape.depth, next_id as int);
        assert(recorded(shape, pages, g) >= category);
    } else {
        assert forall|g: nat| g < capacity(shape) implies #[trigger] recorded(shape, pages, g) < category by {
            lemma_root_bounds_recorded(shape, pages, root, g);
        }
        lemma_trees_ok_at(shape, pages, root);
        lemma_find_leftmost(bytes, nl, category);
        assert(search_step(st, bytes).1 == FsmSearchStep::AllocateHeapPage);
    }
}

// ---------------------------------------------------------------------------
// Maps built by updates
// ---------------------------------------------------------------------------

/// A tree of zeros, as on a freshly allocated page of the map.
pub open spec fn zero_tree(shape: FsmShape) -> Seq<u8> {
    Seq::new(spec_nodes(shape.page_size), |i: int| 0u8)
}

/// Every tree of the map is a tree of zeros.
pub open spec fn map_empty(shape: FsmShape, pages: Map<int, Seq<u8>>) -> bool {
    forall|a: FsmAddress|
        #[trigger] in_tree(shape, a) ==> pages.contains_key(shape.page_number(a))
            && pages[shape.page_number(a)] == zero_tree(shape)
}

/// The map after the updates `ups` in order; an update names a heap page id
/// and the free bytes that page now has.
pub open spec fn apply_updates(shape: FsmShape, pages: Map<int, Seq<u8>>, ups: Seq<(int, nat)>) -> Map<
    int,
    Seq<u8>,
>
    decreases ups.len(),
{
    if ups.len() == 0 {
        pages
    } else {
        run_update(
            update_start(shape, ups.last().0, ups.last().1),
            apply_updates(shape, pages, ups.drop_last()),
            shape.depth,
        )
    }
}

/// The category that the last update of heap page `page_id` among `ups`
/// records for it; 0 where no update names it.
pub open spec fn last_category(shape: FsmShape, ups: Seq<(int, nat)>, page_id: int) -> u8
    decreases ups.len(),
{
    if ups.len() == 0 {
        0
    } else if ups.last().0 == page_id {
        shape.page_space_category(ups.last().1)
    } else {
        last_category(shape, ups.drop_last(), page_id)
    }
}

/// Every update names a heap page from 1 below `next_id` that the map
/// covers.
pub open spec fn updates_valid(shape: FsmShape, ups: Seq<(int, nat)>, next_id: int) -> bool {
    forall|i: int|
        0 <= i < ups.len() ==> 1 <= #[trigger] ups[i].0 < next_id && ups[i].0 <= capacity(shape)
}

/// An empty map is consistent and records nothing.
pub proof fn lemma_empty_map(shape: FsmShape, pages: Map<int, Seq<u8>>)
    requires
        shape.wf(),
        map_empty(shape, pages),
    ensures
        map_consistent(shape, pages),
        forall|g: nat| g < capacity(shape) ==> #[trigger] recorded(shape, pages, g) == 0,
{
    let nl = spec_non_leaf_nodes(shape.page_size);
    let z = zero_tree(shape);
    lemma_leaves(shape);
    assert(consistent(z, nl)) by {
        assert forall|i: int| 0 <= i < nl implies #[trigger] z[i] == crate::fsm::binary_tree::max_u8(
            crate::fsm::binary_tree::val(z, 2 * i + 1),
            crate::fsm::binary_tree::val(z, 2 * i + 2),
        ) by {}
    }
    assert forall|a: FsmAddress, t: usize|
        in_tree(shape, a) && a.level >= 1 && t < shape.slots implies #[trigger] slot_matches_child(
        shape,
        pages,
        a,
        t,
    ) by {
        lemma_child_in_tree(shape, a, t);
    }
    assert forall|g: nat| g < capacity(shape) implies #[trigger] recorded(shape, pages, g) == 0 by {
        lemma_bottom_in_tree(shape, g);
    }
}

/// A heap page that the map covers has its bottom-level tree in the map.
proof fn lemma_heap_page_in_tree(shape: FsmShape, page_id: int)
    requires
        shape.wf(),
        1 <= page_id <= capacity(shape),
    ensures
        in_tree(shape, shape.heap_addr(page_id).0),
{
    lemma_bottom_in_tree(shape, (page_id - 1) as nat);
}

/// A heap page with a non-zero last category is named by an update.
proof fn lemma_last_category_named(shape: FsmShape, ups: Seq<(int, nat)>, next_id: int, page_id: int)
    requires
        updates_valid(shape, ups, next_id),
        last_category(shape, ups, page_id) != 0,
    ensures
        1 <= page_id < next_id,
        page_id <= capacity(shape),
    decreases ups.len(),
{
    assert(ups.len() > 0);
    if ups.last().0 != page_id {
        let prev = ups.drop_last();
        assert forall|i: int| 0 <= i < prev.len() implies 1 <= #[trigger] prev[i].0 < next_id
            && prev[i].0 <= capacity(shape) by {
            assert(prev[i] == ups[i]);
        }
        lemma_last_category_named(shape, prev, next_id, page_id);
    } else {
        assert(ups[ups.len() - 1] == ups.last());
    }
}

/// Updates of heap pages below `next_id`, applied in order to an empty
/// map, leave a consistent map that records for each heap page the
/// category of its last update, and nothing for a page never updated.
pub proof fn lemma_updates_from_empty(
    shape: FsmShape,
    pages: Map<int, Seq<u8>>,
    ups: Seq<(int, nat)>,
    next_id: i32,
)
    requires
        shape.wf(),
        map_empty(shape, pages),
        updates_valid(shape, ups, next_id as int),
    ensures
        map_consistent(shape, apply_updates(shape, pages, ups)),
        recorded_below(shape, apply_updates(shape, pages, ups), next_id as int),
        forall|g: nat|
            g < capacity(shape) ==> #[trigger] recorded(shape, apply_updates(shape, pages, ups), g)
                == last_category(shape, ups, g + 1int),
    decreases ups.len(),
{
    if ups.len() == 0 {
        lemma_empty_map(shape, pages);
    } else {
        let prev = ups.drop_last();
        assert forall|i: int| 0 <= i < prev.len() implies 1 <= #[trigger] prev[i].0 < next_id
            && prev[i].0 <= capacity(shape) by {
            assert(prev[i] == ups[i]);
        }
        lemma_updates_from_empty(shape, pages, prev, next_id);
        let m = apply_updates(shape, pages, prev);
        let pid = ups.last().0;
        let free = ups.last().1;
        assert(ups[ups.len() - 1] == ups.last());
        lemma_heap_page_in_tree(shape, pid);
        lemma_update_keeps_map_consistent(shape, m, pid, free);
        lemma_update_keeps_recorded_below(shape, m, pid, free, next_id as int);
        assert forall|g: nat| g < capacity(shape) implies #[trigger] recorded(
            shape,
            apply_updates(shape, pages, ups),
            g,
        ) == last_category(shape, ups, g + 1int) by {
            lemma_update_records_category(shape, m, pid, free, g);
        }
    }
}

/// On a map that starts empty and then takes the updates `ups` of heap
/// pages below `next_id`, a search for `category` (at least 1) answers the
/// heap page with the smallest id whose last update recorded a category
/// that reaches `category`, and asks for a new heap page exactly when no
/// update left such a category.
pub proof fn lemma_search_after_updates(
    shape: FsmShape,
    pages: Map<int, Seq<u8>>,
    ups: Seq<(int, nat)>,
    next_id: i32,
    category: u8,
)
    requires
        shape.wf(),
        map_empty(shape, pages),
        updates_valid(shape, ups, next_id as int),
        category >= 1,
    ensures
        (exists|p: int| 1 <= p < next_id && #[trigger] last_category(shape, ups, p) >= category) ==> (
        run_search(search_start(shape, category), apply_updates(shape, pages, ups), shape.depth) matches FsmSearchStep::UseHeapPage(
            h,
        ) && 1 <= h < next_id && last_category(shape, ups, h as int) >= category && forall|p: int|
            1 <= p < h ==> #[trigger] last_category(shape, ups, p) < category),
        !(exists|p: int| 1 <= p < next_id && #[trigger] last_category(shape, ups, p) >= category)
            ==> run_search(search_start(shape, category), apply_updates(shape, pages, ups), shape.depth)
            == FsmSearchStep::AllocateHeapPage,
{
    let m = apply_updates(shape, pages, ups);
    lemma_updates_from_empty(shape, pages, ups, next_id);
    lemma_search_finds_first_fit(shape, m, category, next_id);
    if exists|p: int| 1 <= p < next_id && #[trigger] last_category(shape, ups, p) >= category {
        let p = choose|p: int| 1 <= p < next_id && #[trigger] last_category(shape, ups, p) >= category;
        lemma_last_category_named(shape, ups, next_id as int, p);
        assert(recorded(shape, m, (p - 1) as nat) >= category);
        let r = run_search(search_start(shape, category), m, shape.depth);
        let h = r->UseHeapPage_0;
        assert(recorded(shape, m, (h - 1) as nat) == last_category(shape, ups, h as int));
        assert forall|q: int| 1 <= q < h implies #[trigger] last_category(shape, ups, q) < category by {
            assert(recorded(shape, m, (q - 1) as nat) < category);
        }
    } else {
        assert forall|g: nat| g < capacity(shape) implies #[trigger] recorded(shape, m, g) < category by {
            if recorded(shape, m, g) >= category {
                lemma_last_category_named(shape, ups, next_id as int, g + 1int);
            }
        }
    }
}

// ---------------------------------------------------------------------------
// Pages of the map file
// ---------------------------------------------------------------------------

/// Every tree of the map on a page past the first `n` is a tree of zeros:
/// the map file holds `n` pages, and a page past its end is read as a
/// freshly allocated one.
pub open spec fn blank_past(shape: FsmShape, pages: Map<int, Seq<u8>>, n: int) -> bool {
    forall|a: FsmAddress|
        #[trigger] in_tree(shape, a) && shape.page_number(a) > n ==> pages[shape.page_number(a)]
            == zero_tree(shape)
}

/// Every page that a search from `st` reads, within `steps` reads, is one
/// of the first `n` pages.
pub open spec fn search_reads_upto(st: SearchState, pages: Map<int, Seq<u8>>, steps: nat, n: int) -> bool
    decreases steps,
{
    steps > 0 ==> {
        let r = search_step(st, pages[st.shape.page_number(st.addr)]);
        &&& st.shape.page_number(st.addr) <= n
        &&& r.1 is ReadFsmPage ==> search_reads_upto(r.0, pages, (steps - 1) as nat, n)
    }
}

/// The tree of a parent is on an earlier page than the tree of its child.
proof fn lemma_parent_page_before(shape: FsmShape, a: FsmAddress)
    requires
        shape.wf(),
        in_tree(shape, a),
        a.level < shape.root_level(),
    ensures
        in_tree(shape, shape.parent(a).0),
        shape.page_number(shape.parent(a).0) < shape.page_number(a),
{
    let p = shape.parent(a).0;
    let t = shape.parent(a).1;
    lemma_parent_in_tree(shape, a);
    lemma_child_of_parent(shape, a);
    lemma_div_mod(a.node_number as int, shape.slots as int);
    lemma_capacity(shape);
    lemma_child_in_tree(shape, p, t);
    lemma_child_in_tree(shape, p, 0);
    crate::fsm::fsm::lemma_first_child_page(shape, p);
    if t > 0 {
        crate::fsm::fsm::lemma_pages_ordered_in_level(shape, shape.child(p, 0), shape.child(p, t));
    }
}

proof fn lemma_search_reads_from(st: SearchState, pages: Map<int, Seq<u8>>, steps: nat, n: int)
    requires
        st.shape.wf(),
        map_consistent(st.shape, pages),
        blank_past(st.shape, pages, n),
        in_tree(st.shape, st.addr),
        st.shape.page_number(st.addr) <= n,
        st.category >= 1,
    ensures
        search_reads_upto(st, pages, steps, n),
    decreases steps,
{
    if steps > 0 {
        let shape = st.shape;
        let a = st.addr;
        let nl = spec_non_leaf_nodes(shape.page_size);
        let bytes = pages[shape.page_number(a)];
        let r = search_step(st, bytes);
        if r.1 is ReadFsmPage {
            lemma_leaves(shape);
            lemma_trees_ok_at(shape, pages, a);
            lemma_find_leftmost(bytes, nl, st.category);
            let slot = spec_find(bytes, nl, st.category).unwrap().0;
            let c = shape.child(a, slot as usize);
            lemma_child_in_tree(shape, a, slot as usize);
            assert(slot_matches_child(shape, pages, a, slot as usize));
            assert(pages[shape.page_number(c)][0] >= 1);
            if shape.page_number(c) > n {
                assert(pages[shape.page_number(c)] == zero_tree(shape));
                lemma_trees_ok_at(shape, pages, c);
                assert(zero_tree(shape)[0] == 0);
            }
            assert(r.0 == SearchState { addr: c, descended: true, ..st });
            lemma_search_reads_from(r.0, pages, (steps - 1) as nat, n);
        }
    }
}

/// A search on a consistent map whose file holds at least its root page,
/// and whose trees past the file's `n` pages are trees of zeros, reads
/// only pages the file holds: it descends only into trees whose root is
/// not zero.
pub proof fn lemma_search_reads_existing_pages(
    shape: FsmShape,
    pages: Map<int, Seq<u8>>,
    category: u8,
    n: int,
)
    requires
        shape.wf(),
        map_consistent(shape, pages),
        blank_past(shape, pages, n),
        n >= 1,
        category >= 1,
    ensures
        search_reads_upto(search_start(shape, category), pages, shape.depth, n),
{
    lemma_power_positive(shape.slots, 0);
    assert(in_tree(shape, shape.root()));
    crate::fsm::fsm::lemma_root_page(shape);
    lemma_search_reads_from(search_start(shape, category), pages, shape.depth, n);
}

proof fn lemma_run_update_blank_past(st: UpdateState, pages: Map<int, Seq<u8>>, steps: nat, n: int)
    requires
        st.shape.wf(),
        in_tree(st.shape, st.addr),
        st.shape.page_number(st.addr) <= n,
        blank_past(st.shape, pages, n),
    ensures
        blank_past(st.shape, run_update(st, pages, steps), n),
    decreases steps,
{
    if !st.done && steps > 0 {
        let shape = st.shape;
        let pn = shape.page_number(st.addr);
        let r = update_step(st, pages[pn]);
        let m = pages.insert(pn, r.1);
        assert forall|a: FsmAddress| #[trigger] in_tree(shape, a) && shape.page_number(a) > n implies m[shape.page_number(a)]
            == zero_tree(shape) by {
            assert(shape.page_number(a) != pn);
        }
        if st.addr.level < shape.root_level() {
            lemma_parent_page_before(shape, st.addr);
        }
        lemma_run_update_blank_past(r.0, m, (steps - 1) as nat, n);
    }
}

/// An update whose first page, the bottom-level tree of its heap page and
/// the page with the largest number it writes, is one of the `n` pages of
/// the map file writes only pages the file holds: the trees past them stay
/// trees of zeros.
pub proof fn lemma_update_writes_existing_pages(
    shape: FsmShape,
    pages: Map<int, Seq<u8>>,
    page_id: int,
    free_space: nat,
    n: int,
)
    requires
        shape.wf(),
        in_tree(shape, shape.heap_addr(page_id).0),
        shape.page_number(shape.heap_addr(page_id).0) <= n,
        blank_past(shape, pages, n),
    ensures
        blank_past(shape, run_update(update_start(shape, page_id, free_space), pages, shape.depth), n),
{
    lemma_run_update_blank_past(update_start(shape, page_id, free_space), pages, shape.depth, n);
}

} // verus!
