use fiddlers_db::store::PageStorage;
use fiddlers_db::fsm::binary_tree::BinaryTree;
use fiddlers_db::fsm::fsm::{missing_pages, Fsm, FsmAddress, FsmSearchStep};
use fiddlers_db::layout::PageDataLayout;

#[test]
fn should_walk_the_tree_downwards() {
    let layout = PageDataLayout::new(256).unwrap();
    let fsm = Fsm::new(&layout);

    let parent_addr = FsmAddress { node_number: 0, level: 3 };

    let addr = fsm.child(&parent_addr, 1);
    assert_eq!(addr.level, 2);
    assert_eq!(addr.node_number, 1);

    // 108 * 1 + 77 = 185
    let addr = fsm.child(&addr, 77);
    assert_eq!(addr.level, 1);
    assert_eq!(addr.node_number, 185);

    // 108 * 185 + 20 = 20,000
    let addr = fsm.child(&addr, 20);
    assert_eq!(addr.level, 0);
    assert_eq!(addr.node_number, 20_000);
}

#[test]
fn should_walk_the_tree_upwards() {
    let layout = PageDataLayout::new(256).unwrap();
    let fsm = Fsm::new(&layout);

    let child_addr = FsmAddress { node_number: 20_000, level: 0 };

    let (addr, slot) = fsm.parent(&child_addr);
    assert_eq!(addr.level, 1);
    assert_eq!(addr.node_number, 185);
    assert_eq!(slot, 20);

    let (addr, slot) = fsm.parent(&addr);
    assert_eq!(addr.level, 2);
    assert_eq!(addr.node_number, 1);
    assert_eq!(slot, 77);

    let (addr, slot) = fsm.parent(&addr);
    assert_eq!(addr.level, 3);
    assert_eq!(addr.node_number, 0);
    assert_eq!(slot, 1);
}

#[test]
fn should_convert_to_physical_page_id() {
    let layout = PageDataLayout::new(256).unwrap();
    let fsm = Fsm::new(&layout);

    let addr = FsmAddress { node_number: 9, level: 2 };
    let page_id = fsm.logical_addr_to_fms_page_id(&addr);
    assert_eq!(page_id, 105959);

    let addr = FsmAddress { node_number: 5000, level: 1 };
    let page_id = fsm.logical_addr_to_fms_page_id(&addr);
    assert_eq!(page_id, 545_049);
}

#[test]
fn should_calc_addr_correctly() {
    let layout = PageDataLayout::new(256).unwrap();
    let fsm = Fsm::new(&layout);

    let addr = FsmAddress { node_number: 5000, level: 0 };
    let heap_page_id = fsm.addr_slot_to_heap_page_id(&addr, 56);
    assert_eq!(heap_page_id, 540_057);
}

#[test]
fn should_calc_categories_correctly() {
    let layout = PageDataLayout::new(512).unwrap();
    let fsm = Fsm::new(&layout);

    // Recorded space is rounded down
    let cat = fsm.page_space_to_category(0);
    assert_eq!(cat, 0);
    // Space needed is rounded up
    let cat = fsm.space_needed_to_category(0);
    assert_eq!(cat, 1);

    // Step is 2, so 300 bytes go into 150
    let cat = fsm.page_space_to_category(300);
    assert_eq!(cat, 150);
    // Rounded up, so when 301 bytes are needed, it goes into 151:
    let cat = fsm.space_needed_to_category(301);
    assert_eq!(cat, 151);

    // A new page goes always into 255 (512 - 21 (header + slot) = 491)
    let cat = fsm.page_space_to_category(491);
    assert_eq!(cat, 255);

    // 490 goes into a much lower category: 245
    let cat = fsm.page_space_to_category(490);
    assert_eq!(cat, 245);
}

/// Pages kept in memory: the trees of the map, and the free bytes of each
/// heap page.
struct MemPages {
    layout: PageDataLayout,
    fsm_pages: Vec<Vec<u8>>,
    heap_free: Vec<usize>,
}

impl MemPages {
    fn new(layout: PageDataLayout) -> Self {
        MemPages { layout, fsm_pages: Vec::new(), heap_free: Vec::new() }
    }

    fn allocate_fsm_page(&mut self) {
        self.fsm_pages.push(BinaryTree::new(&self.layout).serialize());
    }

    fn update(&mut self, fsm: &Fsm, page_id: i32) {
        let free = self.heap_free[(page_id - 1) as usize];
        let mut update = fsm.update(page_id, free);
        let next_id = self.fsm_pages.len() as i32 + 1;
        for _ in 0..missing_pages(next_id, update.current_page()) {
            self.allocate_fsm_page();
        }
        while !update.is_done() {
            let idx = (update.current_page() - 1) as usize;
            let bytes = update.apply(&self.fsm_pages[idx]);
            self.fsm_pages[idx] = bytes;
        }
    }

    fn find_available_page(&mut self, fsm: &Fsm, bytes: usize) -> i32 {
        let (mut search, missing) = fsm.find_available_page(bytes, self.fsm_pages.len());
        for _ in 0..missing {
            self.allocate_fsm_page();
        }
        let mut page = search.current_page();
        loop {
            let tree = self.fsm_pages[(page - 1) as usize].clone();
            match search.next(&tree) {
                FsmSearchStep::ReadFsmPage(p) => page = p,
                FsmSearchStep::UseHeapPage(h) => return h,
                FsmSearchStep::AllocateHeapPage => {
                    self.heap_free.push(self.layout.max_tupel_size());
                    return self.heap_free.len() as i32;
                }
                FsmSearchStep::Corrupted => panic!("FSM corrupted"),
            }
        }
    }

    fn insert(&mut self, page_id: i32, bytes: usize) {
        let free = &mut self.heap_free[(page_id - 1) as usize];
        *free = free.saturating_sub(bytes + 4);
    }
}

#[test]
fn should_update_tree() {
    let layout = PageDataLayout::new(512).unwrap();
    let fsm = Fsm::new(&layout);
    let mut pages = MemPages::new(layout);

    let full_page = pages.find_available_page(&fsm, 491);
    pages.insert(full_page, 491);
    pages.update(&fsm, full_page);

    let almost_empty_page = pages.find_available_page(&fsm, 1);
    pages.insert(almost_empty_page, 1);
    pages.update(&fsm, almost_empty_page);

    let needed_100_byte_page = pages.find_available_page(&fsm, 100);

    assert_eq!(full_page, 1);
    assert_eq!(almost_empty_page, 2);
    assert_eq!(needed_100_byte_page, 2);
}

#[test]
fn should_init_tree_once_if_first_request() {
    let layout = PageDataLayout::new(512).unwrap();
    let fsm = Fsm::new(&layout);
    let mut pages = MemPages::new(layout);

    let page = pages.find_available_page(&fsm, 0);
    assert_eq!(page, 1);
    assert_eq!(fsm.depth(), 4);
    assert_eq!(fsm.slots(), 236);
    assert_eq!(pages.fsm_pages.len() + 1, 5);

    pages.update(&fsm, page);

    let page = pages.find_available_page(&fsm, 200);
    assert_eq!(page, 1);
    assert_eq!(pages.fsm_pages.len() + 1, 5);
}

#[test]
fn update_walks_from_bottom_to_root() {
    let layout = PageDataLayout::new(512).unwrap();
    let fsm = Fsm::new(&layout);
    let empty = BinaryTree::new(&layout).serialize();
    let nl = 255usize;

    let mut update = fsm.update(237, 100);
    let mut written = Vec::new();
    while !update.is_done() {
        written.push(update.current_page());
        let bytes = update.apply(&empty);
        written_roots_check(&bytes, nl);
        assert_eq!(bytes[0], 50);
    }
    // bottom tree of heap page 237 (node 1) is page 5, then its parents
    assert_eq!(written, vec![5, 3, 2, 1]);

    let mut update = fsm.update(1, 491);
    assert_eq!(update.current_page(), 4);
    let bytes = update.apply(&empty);
    assert_eq!(bytes[nl], 255);
    assert!(!update.is_done());
    assert_eq!(update.current_page(), 3);
}

fn written_roots_check(bytes: &[u8], nl: usize) {
    let leaf_max = bytes[nl..].iter().copied().max().unwrap();
    assert_eq!(bytes[0], leaf_max);
}

#[test]
fn update_sets_parent_slot_to_child_root() {
    let layout = PageDataLayout::new(512).unwrap();
    let fsm = Fsm::new(&layout);
    let nl = 255usize;
    // a bottom tree that already records 200 for another heap page
    let mut bottom = BinaryTree::new(&layout);
    bottom.set_available_space(5, 200);
    let bottom = bottom.serialize();
    let empty = BinaryTree::new(&layout).serialize();

    let mut update = fsm.update(1, 10);
    let new_bottom = update.apply(&bottom);
    assert_eq!(new_bottom[nl], 5);
    assert_eq!(new_bottom[0], 200);
    // the parent slot gets the root of the new bottom tree, not 5
    let parent = update.apply(&empty);
    assert_eq!(parent[nl], 200);
    assert_eq!(parent[0], 200);
}

#[test]
fn page_ids_follow_pre_order() {
    let layout = PageDataLayout::new(512).unwrap();
    let fsm = Fsm::new(&layout);
    let root = fsm.root();
    assert_eq!(root, FsmAddress { node_number: 0, level: 3 });
    assert_eq!(fsm.logical_addr_to_fms_page_id(&root), 1);
    let c = fsm.child(&root, 0);
    assert_eq!(fsm.logical_addr_to_fms_page_id(&c), 2);
    let c = fsm.child(&c, 0);
    assert_eq!(fsm.logical_addr_to_fms_page_id(&c), 3);
    let c = fsm.child(&c, 0);
    assert_eq!(fsm.logical_addr_to_fms_page_id(&c), 4);
}

#[test]
fn heap_page_maps_to_slot_and_back() {
    let layout = PageDataLayout::new(512).unwrap();
    let fsm = Fsm::new(&layout);
    for id in [1, 2, 236, 237, 1000, 55_697, 2_000_000] {
        let (addr, slot) = fsm.heap_page_id_to_addr(id);
        assert_eq!(addr.level, 0);
        assert!(slot < 236);
        assert_eq!(fsm.addr_slot_to_heap_page_id(&addr, slot), id);
    }
    let (addr, slot) = fsm.heap_page_id_to_addr(237);
    assert_eq!((addr.node_number, slot), (1, 0));
}

#[test]
fn categories_cap_and_round() {
    let layout = PageDataLayout::new(8192).unwrap();
    let fsm = Fsm::new(&layout);
    assert_eq!(fsm.depth(), 3);
    // step 32: 31 bytes count as no space
    assert_eq!(fsm.page_space_to_category(31), 0);
    assert_eq!(fsm.page_space_to_category(32), 1);
    assert_eq!(fsm.page_space_to_category(8171), 255);
    assert_eq!(fsm.page_space_to_category(8169), 254);
    assert_eq!(fsm.space_needed_to_category(1), 1);
    assert_eq!(fsm.space_needed_to_category(33), 2);
    assert_eq!(fsm.space_needed_to_category(64), 2);
    assert_eq!(fsm.space_needed_to_category(8171), 255);
    assert_eq!(fsm.space_needed_to_category(usize::MAX), 255);
}

#[test]
fn missing_pages_counts_up_to_needed_page() {
    assert_eq!(missing_pages(1, 4), 4);
    assert_eq!(missing_pages(5, 4), 0);
    assert_eq!(missing_pages(4, 4), 1);
}

#[test]
fn search_reports_corruption_below_root() {
    let layout = PageDataLayout::new(512).unwrap();
    let fsm = Fsm::new(&layout);
    let (mut search, missing) = fsm.find_available_page(10, 0);
    assert_eq!(missing, 4);
    assert_eq!(search.current_page(), 1);
    // the root claims room in slot 0, the child tree has none
    let mut root = BinaryTree::new(&layout);
    root.set_available_space(0, 200);
    assert_eq!(search.next(&root.serialize()), FsmSearchStep::ReadFsmPage(2));
    let empty = BinaryTree::new(&layout).serialize();
    assert_eq!(search.next(&empty), FsmSearchStep::Corrupted);
}

#[test]
fn search_allocates_when_root_has_no_room() {
    let layout = PageDataLayout::new(512).unwrap();
    let fsm = Fsm::new(&layout);
    let (mut search, missing) = fsm.find_available_page(10, 7);
    assert_eq!(missing, 0);
    let empty = BinaryTree::new(&layout).serialize();
    assert_eq!(search.next(&empty), FsmSearchStep::AllocateHeapPage);
}

#[test]
fn fsm_file_is_named_after_table() {
    assert_eq!(Fsm::access(1).file_path(), "fsm_1.dat");
    assert_eq!(Fsm::access(4096).file_path(), "fsm_4096.dat");
    assert_eq!(Fsm::access(-7).file_path(), "fsm_-7.dat");
    assert_eq!(Fsm::access(i32::MIN).file_path(), "fsm_-2147483648.dat");
    assert_eq!(Fsm::access(23).table_id(), 23);
}

#[test]
fn recorded_category_never_promises_more_than_available() {
    let layout = PageDataLayout::new(512).unwrap();
    let fsm = Fsm::new(&layout);
    let max = layout.max_tupel_size();
    for available in 0..600usize {
        for needed in 0..=max {
            if fsm.page_space_to_category(available) >= fsm.space_needed_to_category(needed) {
                assert!(available >= needed, "available {} needed {}", available, needed);
            }
        }
    }
}

#[test]
fn distinct_addresses_get_distinct_pages() {
    let layout = PageDataLayout::new(256).unwrap();
    let fsm = Fsm::new(&layout);
    let mut seen = std::collections::HashSet::new();
    for level in 0..4usize {
        for node_number in 0..300usize {
            let limit = 108usize.pow((3 - level) as u32);
            if node_number >= limit {
                continue;
            }
            let id = fsm.logical_addr_to_fms_page_id(&FsmAddress { node_number, level });
            assert!(seen.insert(id), "page {} used twice", id);
        }
    }
}

#[test]
fn updates_keep_parent_leaves_equal_to_child_roots() {
    let layout = PageDataLayout::new(256).unwrap();
    let fsm = Fsm::new(&layout);
    let mut pages = MemPages::new(layout);
    for size in [200usize, 5, 100, 230, 1, 50, 120, 7] {
        let p = pages.find_available_page(&fsm, size);
        pages.insert(p, size);
        pages.update(&fsm, p);
    }
    // one bottom tree (page 4) under pages 1, 2, 3: each parent leaf 0
    // holds the root of the tree below it
    let nl = 127usize;
    for (parent, child) in [(1usize, 2usize), (2, 3), (3, 4)] {
        let leaf = pages.fsm_pages[parent - 1][nl];
        let root = pages.fsm_pages[child - 1][0];
        assert_eq!(leaf, root);
    }
}

#[test]
fn first_request_after_updates_reuses_pages_with_room() {
    let layout = PageDataLayout::new(512).unwrap();
    let fsm = Fsm::new(&layout);
    let mut pages = MemPages::new(layout);
    let p1 = pages.find_available_page(&fsm, 400);
    pages.insert(p1, 400);
    pages.update(&fsm, p1);
    let p2 = pages.find_available_page(&fsm, 400);
    assert_eq!(p2, 2);
    pages.insert(p2, 400);
    pages.update(&fsm, p2);
    let p3 = pages.find_available_page(&fsm, 50);
    assert_eq!(p3, 1);
}

#[test]
fn page_with_room_is_found_after_a_fuller_page_was_updated() {
    let layout = PageDataLayout::new(512).unwrap();
    let fsm = Fsm::new(&layout);
    let mut pages = MemPages::new(layout);
    // page 1 keeps 87 free bytes
    let p1 = pages.find_available_page(&fsm, 400);
    assert_eq!(p1, 1);
    pages.insert(p1, 400);
    pages.update(&fsm, p1);
    assert_eq!(pages.heap_free[0], 87);
    // a 100-byte request needs a new page 2, which then fills up to 3 free bytes
    let p2 = pages.find_available_page(&fsm, 100);
    assert_eq!(p2, 2);
    pages.insert(p2, 100);
    pages.update(&fsm, p2);
    pages.insert(p2, 380);
    pages.update(&fsm, p2);
    assert_eq!(pages.heap_free[1], 3);
    // page 1 still has room for 50 bytes
    let p3 = pages.find_available_page(&fsm, 50);
    assert_eq!(p3, 1);
    assert_eq!(pages.heap_free.len(), 2);
}

#[test]
fn search_returns_smallest_page_with_room() {
    let layout = PageDataLayout::new(256).unwrap();
    let fsm = Fsm::new(&layout);
    let mut pages = MemPages::new(layout);
    // five full pages, then free space on pages 4 and 2 (in that order)
    for _ in 0..5 {
        let p = pages.find_available_page(&fsm, 235);
        pages.insert(p, 231);
        pages.update(&fsm, p);
    }
    assert_eq!(pages.heap_free.len(), 5);
    pages.heap_free[3] = 100;
    pages.update(&fsm, 4);
    pages.heap_free[1] = 100;
    pages.update(&fsm, 2);
    assert_eq!(pages.find_available_page(&fsm, 60), 2);
    // a request no page fits allocates page 6
    assert_eq!(pages.find_available_page(&fsm, 200), 6);
}

#[test]
fn update_writes_only_pages_up_to_its_bottom_tree() {
    let layout = PageDataLayout::new(256).unwrap();
    let fsm = Fsm::new(&layout);
    let mut pages = MemPages::new(layout);
    pages.heap_free = vec![0; 109];
    pages.heap_free[108] = 120;
    // heap page 109 is slot 0 of the second bottom tree, on page 5
    pages.update(&fsm, 109);
    assert_eq!(pages.fsm_pages.len(), 5);
    let empty = BinaryTree::new(&layout).serialize();
    assert_eq!(pages.fsm_pages[3], empty);
    assert_eq!(pages.fsm_pages[4][127], 120);
    assert_eq!(pages.fsm_pages[2][128], 120);
    // the search goes down to page 5 and finds heap page 109
    assert_eq!(pages.find_available_page(&fsm, 100), 109);
    assert_eq!(pages.fsm_pages.len(), 5);
}

#[test]
fn largest_page_size_keeps_map_page_ids_in_i32() {
    let layout = PageDataLayout::new(65536).unwrap();
    let fsm = Fsm::new(&layout);
    assert_eq!(fsm.depth(), 3);
    assert_eq!(fsm.slots(), 32748);
    let last = FsmAddress { node_number: 32748 * 32748 - 1, level: 0 };
    assert_eq!(fsm.logical_addr_to_fms_page_id(&last), 1_072_464_253);
}
