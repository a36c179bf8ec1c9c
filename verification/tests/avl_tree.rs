use moneymaker::avl::{AVLNode, AVLTree};
use moneymaker::draw::Mark;

fn build(keys: &[u32]) -> AVLTree {
    let mut t = AVLTree::new();
    for &k in keys {
        t.insert(k);
    }
    t
}

fn rows(t: &AVLTree) -> Vec<(u32, i32, Vec<bool>)> {
    t.rows()
        .into_iter()
        .map(|r| match r.mark {
            Mark::Balance(b) => (r.key, b, r.path),
            Mark::Color(_) => panic!("an AVL row carries a balance factor"),
        })
        .collect()
}

const F: bool = false;
const T: bool = true;

#[test]
fn avl_insert_search_delete() {
    let mut t = AVLTree::new();
    assert!(t.is_empty());
    for v in [10u32, 20, 30, 15, 25, 5, 1, 7] {
        t.insert(v);
    }
    assert!(!t.is_empty());
    assert!(t.search(15));
    assert!(!t.search(100));
    assert_eq!(t.height(), 4);
    assert!(t.delete(20));
    assert!(!t.delete(20));
    assert!(!t.search(20));
}

#[test]
fn avl_node_new_is_a_leaf() {
    let n = AVLNode::new(42);
    assert_eq!(n.key, 42);
    assert_eq!(n.height, 1);
    assert!(n.left.is_none());
    assert!(n.right.is_none());
}

#[test]
fn avl_empty_tree() {
    let t = AVLTree::default();
    assert!(t.is_empty());
    assert_eq!(t.height(), 0);
    assert_eq!(t.count_leaves(), 0);
    assert!(t.inorder().is_empty());
    assert!(t.rows().is_empty());
    assert!(!t.search(0));
}

#[test]
fn avl_delete_from_empty_tree() {
    let mut t = AVLTree::new();
    assert!(!t.delete(3));
    assert!(t.is_empty());
}

#[test]
fn avl_four_rotation_cases_give_the_same_tree() {
    // LL, RR, LR and RL insertion orders all end balanced around 2.
    let expected = vec![(3, 0, vec![F, F]), (2, 0, vec![F]), (1, 0, vec![F, T])];
    for order in [[3u32, 2, 1], [1, 2, 3], [3, 1, 2], [1, 3, 2]] {
        let t = build(&order);
        assert_eq!(rows(&t), expected, "order {:?}", order);
        assert_eq!(t.height(), 2);
        assert_eq!(t.count_leaves(), 2);
    }
}

#[test]
fn avl_rows_after_mixed_inserts() {
    let t = build(&[10, 20, 30, 15, 25, 5, 1, 7]);
    assert_eq!(
        rows(&t),
        vec![
            (30, 1, vec![F, F]),
            (25, 0, vec![F, F, T]),
            (20, 1, vec![F]),
            (15, 0, vec![F, T, F]),
            (10, 1, vec![F, T]),
            (7, 0, vec![F, T, T, F]),
            (5, 0, vec![F, T, T]),
            (1, 0, vec![F, T, T, T]),
        ]
    );
    assert_eq!(t.count_leaves(), 4);
    assert_eq!(t.inorder(), vec![1, 5, 7, 10, 15, 20, 25, 30]);
}

#[test]
fn avl_delete_root_rebalances() {
    let mut t = build(&[10, 20, 30, 15, 25, 5, 1, 7]);
    assert!(t.delete(20));
    assert_eq!(t.height(), 3);
    assert_eq!(t.count_leaves(), 4);
    assert_eq!(
        rows(&t),
        vec![
            (30, 0, vec![F, F, F]),
            (25, 0, vec![F, F]),
            (15, 0, vec![F, F, T]),
            (10, 0, vec![F]),
            (7, 0, vec![F, T, F]),
            (5, 0, vec![F, T]),
            (1, 0, vec![F, T, T]),
        ]
    );
}

#[test]
fn avl_delete_two_children_takes_successor() {
    let mut t = build(&[50, 30, 70, 20, 40, 60, 80]);
    assert!(t.delete(50));
    assert_eq!(
        rows(&t),
        vec![
            (80, 0, vec![F, F, F]),
            (70, -1, vec![F, F]),
            (60, 0, vec![F]),
            (40, 0, vec![F, T, F]),
            (30, 0, vec![F, T]),
            (20, 0, vec![F, T, T]),
        ]
    );
    assert_eq!(t.count_leaves(), 3);
}

#[test]
fn avl_duplicate_insert_is_ignored() {
    let mut t = build(&[4, 2, 6]);
    t.insert(4);
    t.insert(2);
    assert_eq!(t.inorder(), vec![2, 4, 6]);
    assert_eq!(t.height(), 2);
}

#[test]
fn avl_delete_last_key_empties_tree() {
    let mut t = build(&[5]);
    assert!(t.delete(5));
    assert!(t.is_empty());
    assert_eq!(t.height(), 0);
}

#[test]
fn avl_extreme_keys() {
    let mut t = build(&[u32::MAX, 0, u32::MAX / 2]);
    assert_eq!(t.inorder(), vec![0, u32::MAX / 2, u32::MAX]);
    assert!(t.search(u32::MAX));
    assert!(t.delete(0));
    assert!(!t.search(0));
}

#[test]
fn avl_full_tree_of_fifteen() {
    let keys: Vec<u32> = (1..=15).collect();
    let t = build(&keys);
    assert_eq!(t.height(), 4);
    assert_eq!(t.count_leaves(), 8);
    assert!(rows(&t).iter().all(|r| r.1 == 0));
}

#[test]
fn avl_height_stays_logarithmic() {
    let keys: Vec<u32> = (1..=1000).collect();
    let t = build(&keys);
    assert_eq!(t.height(), 10);
    assert_eq!(t.count_leaves(), 500);
}

#[test]
fn avl_balance_factors_within_one() {
    let mut t = AVLTree::new();
    let mut x: u32 = 17;
    for _ in 0..300 {
        x = x.wrapping_mul(1103515245).wrapping_add(12345) % 1000;
        t.insert(x);
    }
    for k in (0..1000).step_by(3) {
        t.delete(k);
    }
    assert!(rows(&t).iter().all(|r| -1 <= r.1 && r.1 <= 1));
}

#[test]
fn avl_inorder_is_sorted() {
    let t = build(&[9, 3, 14, 1, 7, 12, 20, 5, 8, 2]);
    let v = t.inorder();
    assert_eq!(v, vec![1, 2, 3, 5, 7, 8, 9, 12, 14, 20]);
    assert!(v.windows(2).all(|w| w[0] < w[1]));
}

#[test]
fn avl_insert_then_search_finds_key() {
    let mut t = build(&[8, 4, 12]);
    assert!(!t.search(6));
    t.insert(6);
    assert!(t.search(6));
}

#[test]
fn avl_delete_undoes_insert_of_new_key() {
    let mut t = build(&[8, 4, 12, 2, 6, 10, 14]);
    let before = t.inorder();
    t.insert(11);
    assert!(t.delete(11));
    assert_eq!(t.inorder(), before);
}
