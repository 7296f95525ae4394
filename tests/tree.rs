use bintree::def::{InitError, SearchError, MAX_NODES, MAX_PAGES, MAX_SIZE, MIN_SIZE};
use bintree::tree::BinTree;

const PGSZ: usize = MIN_SIZE;

fn fresh(root: usize, size: usize) -> BinTree {
    let mut tree = BinTree::new();
    tree.init(root, size).unwrap();
    tree
}

#[test]
fn get_level_test() {
    let mut tree1 = BinTree::new();
    let mut tree2 = BinTree::new();
    let mut tree3 = BinTree::new();
    let _ = tree1.init(0x10000, PGSZ);
    let _ = tree2.init(0x10000, PGSZ * 2);
    let _ = tree3.init(0x10000, PGSZ * 3);

    for i in 0..tree1.level {
        assert_eq!(i + 1, tree1.get_level(PGSZ * (1 >> i)));
    }

    for i in 0..tree2.level {
        assert_eq!(i + 1, tree2.get_level(PGSZ * (2 >> i)));
    }

    for i in 0..tree3.level {
        assert_eq!(i + 1, tree3.get_level(PGSZ * (2 >> i)));
    }
}

#[test]
fn get_index_test() {
    let mut tree1 = BinTree::new();
    let mut tree2 = BinTree::new();
    let mut tree3 = BinTree::new();
    let _ = tree1.init(0x10000, PGSZ);
    let _ = tree2.init(0x10000, PGSZ * 2);
    let _ = tree3.init(0x10000, PGSZ * 3);

    for i in 0..tree1.level {
        assert_eq!((2usize.pow(i as u32)) - 1, tree1.get_index(i + 1));
    }

    for i in 0..tree2.level {
        assert_eq!((2usize.pow(i as u32)) - 1, tree2.get_index(i + 1));
    }

    for i in 0..tree3.level {
        assert_eq!((2usize.pow(i as u32)) - 1, tree3.get_index(i + 1));
    }
}

#[test]
fn find_test() {
    let mut tree = BinTree::new();
    let _ = tree.init(0x10000, PGSZ << 1);

    assert!(tree.find(PGSZ << 1, false).is_ok());
    assert_eq!(0, tree.find(PGSZ << 1, false).unwrap());
    assert!(tree.find(PGSZ, false).is_ok());
    assert_eq!(1, tree.find(PGSZ, false).unwrap());
    tree.bitmap.set_bit(1);
    assert!(tree.find(PGSZ, false).is_ok());
    assert_eq!(2, tree.find(PGSZ, false).unwrap());
    assert!(tree.find(PGSZ, true).is_ok());
    assert_eq!(1, tree.find(PGSZ, true).unwrap());
}

#[test]
fn init_test() {
    let mut tree = BinTree::new();
    let mut bad_tree = BinTree::new();

    let gen_success = tree.init(0x10000, PGSZ * 10);
    let gen_error = bad_tree.init(0x10000, PGSZ / 2);

    assert_eq!(Ok(8), gen_success);
    assert!(gen_error.is_err());
}

#[test]
fn init_leaf_count_is_floor_power_of_two() {
    for (pages, expected) in [(1, 1), (2, 2), (3, 2), (5, 4), (7, 4), (8, 8), (31, 16), (33, 32)] {
        let mut tree = BinTree::new();
        let p = tree.init(0x8000, pages * MIN_SIZE + 17).unwrap();
        assert_eq!(expected, p);
        assert!(p.is_power_of_two());
        assert!(p * MIN_SIZE <= pages * MIN_SIZE + 17);
        assert_eq!(1usize << (tree.level - 1), p);
    }
}

#[test]
fn init_too_small() {
    let mut tree = BinTree::new();
    assert_eq!(Err(InitError::TooSmall), tree.init(0x10000, 0));
    assert_eq!(Err(InitError::TooSmall), tree.init(0x10000, MIN_SIZE - 1));
    assert_eq!(0, tree.level);
}

#[test]
fn init_over_capacity() {
    let mut tree = BinTree::new();
    assert_eq!(Err(InitError::OverCapacity), tree.init(0, 2 * MAX_PAGES * MIN_SIZE));
    assert_eq!(Ok(MAX_PAGES), tree.init(0, (2 * MAX_PAGES - 1) * MIN_SIZE));
    assert_eq!(16, tree.level);
    assert_eq!(MAX_NODES - 1, tree.max_node());
}

#[test]
fn init_truncates_ten_pages_to_eight() {
    let mut tree = BinTree::new();
    assert_eq!(Ok(8), tree.init(0x100000, 10 * MIN_SIZE));
    assert_eq!(4, tree.level);
    assert_eq!(14, tree.max_node());
    // the last leaf covers the eighth page, the rest is not managed
    assert_eq!(0x100000 + 7 * MIN_SIZE, tree.get_value(14));
}

#[test]
fn init_addresses_and_bits() {
    let tree = fresh(0x10000, 4 * MIN_SIZE);
    assert_eq!(3, tree.level);
    assert_eq!(0x10000, tree.get_value(0));
    assert_eq!(0x10000, tree.get_value(1));
    assert_eq!(0x10000 + 2 * MIN_SIZE, tree.get_value(2));
    for j in 0..4 {
        assert_eq!(0x10000 + j * MIN_SIZE, tree.get_value(3 + j));
    }
    assert!(tree.can_use(0, 7));
    assert!(tree.can_free(7, MAX_NODES - 7));
}

#[test]
fn init_again_resets_height() {
    let mut tree = fresh(0, 8 * MIN_SIZE);
    tree.use_mem(0);
    assert_eq!(Ok(2), tree.init(0, 2 * MIN_SIZE));
    assert_eq!(2, tree.level);
    assert!(tree.can_use(0, 3));
    assert!(tree.can_free(3, MAX_NODES - 3));
}

#[test]
fn level_index_steps_double() {
    let tree = fresh(0, 16 * MIN_SIZE);
    for l in 1..=tree.level {
        assert_eq!(1usize << (l - 1), tree.get_index(l + 1) - tree.get_index(l));
    }
    assert_eq!(15, tree.get_index(5));
    assert_eq!(31, tree.get_index(6));
}

#[test]
fn get_level_of_each_block_size() {
    let tree = fresh(0, 16 * MIN_SIZE);
    assert_eq!(5, tree.get_level(MIN_SIZE));
    assert_eq!(4, tree.get_level(2 * MIN_SIZE));
    assert_eq!(3, tree.get_level(4 * MIN_SIZE));
    assert_eq!(2, tree.get_level(8 * MIN_SIZE));
    assert_eq!(1, tree.get_level(16 * MIN_SIZE));
}

#[test]
fn child_and_parent_arithmetic() {
    let tree = BinTree::new();
    assert_eq!(1, tree.find_left_child(0));
    assert_eq!(2, tree.find_right_child(0));
    assert_eq!(7, tree.find_left_child(3));
    assert_eq!(8, tree.find_right_child(3));
    assert_eq!(3, tree.find_parent(7));
    assert_eq!(3, tree.find_parent(8));
    assert_eq!(0, tree.find_parent(1));
    assert_eq!(0, tree.find_parent(2));
}

#[test]
fn two_leaf_scenario() {
    let mut tree = fresh(0x10000, 2 * MIN_SIZE);
    assert_eq!(Ok(0), tree.find(2 * MIN_SIZE, false));
    assert_eq!(Ok(1), tree.find(MIN_SIZE, false));
    tree.use_page(1);
    assert_eq!(Ok(2), tree.find(MIN_SIZE, false));
    assert_eq!(Ok(1), tree.find(MIN_SIZE, true));
}

#[test]
fn find_too_large_whatever_the_bits() {
    let mut tree = fresh(0, 4 * MIN_SIZE);
    assert_eq!(Err(SearchError::TooLarge), tree.find(MAX_SIZE + 1, false));
    assert_eq!(Err(SearchError::TooLarge), tree.find(MAX_SIZE + 1, true));
    tree.use_mem(0);
    assert_eq!(Err(SearchError::TooLarge), tree.find(MAX_SIZE + 1, false));
    assert_eq!(Err(SearchError::TooLarge), tree.find(usize::MAX, true));
    assert_eq!(Err(SearchError::TooLarge), tree.find_match(MAX_SIZE + 1, 0, true));
}

#[test]
fn find_checks_the_leaf_run() {
    let mut tree = fresh(0, 4 * MIN_SIZE);
    // node 1 itself stays free, but one of its leaves is used
    tree.use_page(4);
    assert_eq!(Ok(2), tree.find(2 * MIN_SIZE, false));
    assert_eq!(Err(SearchError::NotFound), tree.find(4 * MIN_SIZE, false));
    assert_eq!(Ok(4), tree.find(MIN_SIZE, true));
    assert_eq!(Err(SearchError::NotFound), tree.find(2 * MIN_SIZE, true));
}

#[test]
fn find_examines_the_last_node_of_a_level() {
    let mut tree = fresh(0, 4 * MIN_SIZE);
    tree.use_page(3);
    tree.use_page(4);
    tree.use_page(5);
    assert_eq!(Ok(6), tree.find(MIN_SIZE, false));
    tree.use_page(6);
    assert_eq!(Err(SearchError::NotFound), tree.find(MIN_SIZE, false));
}

#[test]
fn find_match_by_address() {
    let mut tree = fresh(0x10000, 4 * MIN_SIZE);
    assert_eq!(Ok(5), tree.find_match(MIN_SIZE, 0x10000 + 2 * MIN_SIZE, false));
    assert_eq!(Ok(2), tree.find_match(2 * MIN_SIZE, 0x10000 + 2 * MIN_SIZE, false));
    assert_eq!(Err(SearchError::NotFound), tree.find_match(MIN_SIZE, 0x10001, false));
    // the scan starts at the first fitting node
    tree.use_page(3);
    tree.use_page(4);
    assert_eq!(Err(SearchError::NotFound), tree.find_match(MIN_SIZE, 0x10000, false));
    assert_eq!(Ok(4), tree.find_match(MIN_SIZE, 0x10000 + MIN_SIZE, true));
    // nothing is used at the root level
    assert_eq!(Err(SearchError::NotFound), tree.find_match(4 * MIN_SIZE, 0x10000, true));
}

#[test]
fn use_mem_marks_the_whole_subtree() {
    let mut tree = fresh(0, 8 * MIN_SIZE);
    tree.use_mem(2);
    for i in [2, 5, 6, 11, 12, 13, 14] {
        assert!(tree.can_free(i, 1), "node {} should be used", i);
    }
    for i in [0, 1, 3, 4, 7, 8, 9, 10] {
        assert!(tree.can_use(i, 1), "node {} should be free", i);
    }
    tree.unuse_mem(2);
    assert!(tree.can_use(0, 15));
    assert!(tree.can_free(15, MAX_NODES - 15));
}

#[test]
fn unuse_mem_frees_only_the_subtree() {
    let mut tree = fresh(0, 4 * MIN_SIZE);
    tree.use_mem(0);
    tree.unuse_mem(1);
    for i in [1, 3, 4] {
        assert!(tree.can_use(i, 1));
    }
    for i in [0, 2, 5, 6] {
        assert!(tree.can_free(i, 1));
    }
}

#[test]
fn use_then_free_round_trip() {
    let mut tree = fresh(0x40000, 4 * MIN_SIZE);
    let idx = tree.find(2 * MIN_SIZE, false).unwrap();
    assert_eq!(1, idx);
    tree.use_mem(idx);
    assert_eq!(Ok(2), tree.find(2 * MIN_SIZE, false));
    assert!(tree.can_use(2, 1));
    assert!(tree.can_use(0, 1));
    tree.unuse_mem(idx);
    assert!(tree.can_use(idx, 1));
    assert!(tree.can_use(0, 7));
    assert_eq!(Ok(1), tree.find(2 * MIN_SIZE, false));
}

#[test]
fn single_page_marks() {
    let mut tree = fresh(0, 2 * MIN_SIZE);
    tree.use_page(0);
    assert!(tree.can_free(0, 1));
    assert!(tree.can_use(1, 2));
    tree.unuse_page(0);
    assert!(tree.can_use(0, 3));
}

#[test]
fn batch_queries_stop_on_mismatch() {
    let mut tree = fresh(0, 4 * MIN_SIZE);
    assert!(tree.can_use(3, 4));
    assert!(!tree.can_free(3, 4));
    tree.use_page(5);
    assert!(!tree.can_use(3, 4));
    assert!(tree.can_use(3, 2));
    assert!(tree.can_free(5, 1));
    assert!(tree.can_use(3, 0));
    assert!(tree.can_free(3, 0));
}
