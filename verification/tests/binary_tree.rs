use fiddlers_db::fsm::binary_tree::{left_child, parent, right_child, BinaryTree};
use fiddlers_db::layout::PageDataLayout;

#[test]
fn should_find_middle_leaf() {
    let layout = PageDataLayout::new(512).unwrap();
    // results in 236 leaf nodes
    let mut tree = BinaryTree::new(&layout);
    tree.set_available_space(0, 20);
    tree.set_available_space(10, 100);
    tree.set_available_space(30, 200);
    tree.set_available_space(150, 5);
    tree.set_available_space(200, 5);
    tree.set_available_space(235, 20);

    let slot = tree.find_available(200);
    assert!(slot.is_some());
    assert_eq!(slot.unwrap().slot_index(), 30);
}

#[test]
fn should_find_right_most_leaf() {
    let layout = PageDataLayout::new(512).unwrap();
    let mut tree = BinaryTree::new(&layout);
    tree.set_available_space(0, 20);
    tree.set_available_space(10, 100);
    tree.set_available_space(40, 10);
    tree.set_available_space(200, 5);
    tree.set_available_space(235, 200);

    let slot = tree.find_available(200);
    assert!(slot.is_some());
    assert_eq!(slot.unwrap().slot_index(), 235);
}

#[test]
fn should_find_left_most_leaf() {
    let layout = PageDataLayout::new(512).unwrap();
    let mut tree = BinaryTree::new(&layout);
    tree.set_available_space(100, 100);
    tree.set_available_space(40, 10);
    tree.set_available_space(5, 5);
    tree.set_available_space(230, 20);
    tree.set_available_space(2, 20);
    tree.set_available_space(1, 20);
    tree.set_available_space(0, 200);

    let slot = tree.find_available(200);
    assert!(slot.is_some());
    assert_eq!(slot.unwrap().slot_index(), 0);
}

#[test]
fn should_find_always_left_most_that_fits() {
    let layout = PageDataLayout::new(512).unwrap();
    let mut tree = BinaryTree::new(&layout);
    tree.set_available_space(0, 2);
    tree.set_available_space(1, 20);
    tree.set_available_space(5, 5);
    tree.set_available_space(40, 10);
    tree.set_available_space(100, 100);
    tree.set_available_space(230, 20);

    let slot = tree.find_available(5);
    assert!(slot.is_some());
    assert_eq!(slot.unwrap().slot_index(), 1);
    tree.set_available_space(1, 6);

    // Slot 1 has no longer enough space for the next request
    let slot = tree.find_available(10);
    assert!(slot.is_some());
    assert_eq!(slot.unwrap().slot_index(), 40);
}

#[test]
fn should_traverse_tree() {
    assert_eq!(right_child(0), 2);
    assert_eq!(left_child(0), 1);
    assert_eq!(right_child(1), 4);
    assert_eq!(left_child(1), 3);
    assert_eq!(right_child(4), 10);
    assert_eq!(left_child(4), 9);

    assert_eq!(parent(9), 4);
    assert_eq!(parent(4), 1);
    assert_eq!(parent(1), 0);
}

#[test]
fn should_read_binary_tree_from_page() {
    let layout = PageDataLayout::new(512).unwrap();
    let mut tree = BinaryTree::new(&layout);
    tree.set_available_space(199, 20);
    tree.set_available_space(200, 200);
    tree.set_available_space(201, 240);

    let tree_bytes = tree.serialize();
    let tree = BinaryTree::deserialize(&tree_bytes, &layout);

    let slot = tree.find_available(18);
    assert!(slot.is_some());
    assert_eq!(slot.unwrap().slot_index(), 199);

    let slot = tree.find_available(202);
    assert!(slot.is_some());
    assert_eq!(slot.unwrap().slot_index(), 201);
}

#[test]
fn node_structure_of_512_byte_pages() {
    let layout = PageDataLayout::new(512).unwrap();
    let s = BinaryTree::node_structure(&layout);
    assert_eq!(s.nodes, 491);
    assert_eq!(s.non_leaf_nodes, 255);
    assert_eq!(s.leaf_nodes, 236);
    let layout = PageDataLayout::new(64).unwrap();
    let s = BinaryTree::node_structure(&layout);
    assert_eq!(s.nodes, 43);
    assert_eq!(s.non_leaf_nodes, 31);
    assert_eq!(s.leaf_nodes, 12);
}

#[test]
fn empty_tree_finds_nothing_but_zero() {
    let layout = PageDataLayout::new(256).unwrap();
    let tree = BinaryTree::new(&layout);
    assert!(tree.find_available(1).is_none());
    // every slot holds 0 >= 0: the leftmost slot is found
    let slot = tree.find_available(0).unwrap();
    assert_eq!(slot.slot_index(), 0);
    assert_eq!(slot.available_space(), 0);
    assert_eq!(tree.serialize(), vec![0u8; 235]);
}

#[test]
fn set_updates_root_to_maximum_and_back() {
    let layout = PageDataLayout::new(512).unwrap();
    let mut tree = BinaryTree::new(&layout);
    tree.set_available_space(17, 90);
    tree.set_available_space(80, 120);
    let bytes = BinaryTree::deserialize(&clone_bytes(tree), &layout).serialize();
    assert_eq!(bytes[0], 120);
    assert_eq!(bytes[255 + 17], 90);
    assert_eq!(bytes[255 + 80], 120);

    let mut tree = BinaryTree::deserialize(&bytes, &layout);
    tree.set_available_space(80, 3);
    let bytes = tree.serialize();
    assert_eq!(bytes[0], 90);
    assert_eq!(bytes[255 + 80], 3);
}

fn clone_bytes(tree: BinaryTree) -> Vec<u8> {
    tree.serialize()
}

#[test]
fn found_slot_reports_its_leaf_value() {
    let layout = PageDataLayout::new(512).unwrap();
    let mut tree = BinaryTree::new(&layout);
    tree.set_available_space(3, 50);
    let bytes = tree.serialize();
    let tree = BinaryTree::deserialize(&bytes, &layout);
    let slot = tree.find_available(40).unwrap();
    assert_eq!(slot.slot_index(), 3);
    assert_eq!(slot.available_space(), 50);
    assert_eq!(slot.available_space(), bytes[255 + 3]);

    let mut tree = BinaryTree::new(&layout);
    tree.set_available_space(0, 20);
    tree.set_available_space(10, 100);
    tree.set_available_space(30, 200);
    tree.set_available_space(150, 5);
    tree.set_available_space(200, 5);
    tree.set_available_space(235, 20);
    let slot = tree.find_available(200).unwrap();
    assert_eq!(slot.slot_index(), 30);
    assert_eq!(slot.available_space(), 200);
    let slot = tree.find_available(50).unwrap();
    assert_eq!(slot.slot_index(), 10);
    assert_eq!(slot.available_space(), 100);
}

#[test]
fn can_search_detects_dead_branch() {
    let layout = PageDataLayout::new(512).unwrap();
    let tree = BinaryTree::new(&layout);
    assert!(tree.can_search(5));
    assert!(tree.can_search(0));
    // node 245 has no children inside the array (491 nodes)
    let mut bytes = BinaryTree::new(&layout).serialize();
    for i in [0usize, 2, 6, 14, 29, 60, 122, 245] {
        bytes[i] = 9;
    }
    let tree = BinaryTree::deserialize(&bytes, &layout);
    assert!(!tree.can_search(9));
    assert!(tree.can_search(10));
}
