use moneymaker::draw::Mark;
use moneymaker::rbt::{Color, Node, RedBlackTree};

fn build(keys: &[u32]) -> RedBlackTree {
    let mut t = RedBlackTree::new();
    for &k in keys {
        t.insert(k);
    }
    t
}

fn rows(t: &RedBlackTree) -> Vec<(u32, &'static str, Vec<bool>)> {
    t.rows()
        .into_iter()
        .map(|r| match r.mark {
            Mark::Color(c) => (r.key, c.tag(), r.path),
            Mark::Balance(_) => panic!("a red-black row carries a colour"),
        })
        .collect()
}

const F: bool = false;
const T: bool = true;

#[test]
fn rbt_insert_search_delete() {
    let mut t = RedBlackTree::new();
    assert!(t.is_empty());
    for v in [10u32, 20, 30, 15, 25, 5, 1] {
        t.insert(v);
    }
    assert!(t.search(15));
    assert!(!t.search(100));
    assert!(t.delete(15));
    assert!(t.delete(20));
    assert!(!t.search(20));
}

#[test]
fn rbt_color_tags() {
    assert_eq!(Color::Red.tag(), "R");
    assert_eq!(Color::Black.tag(), "B");
}

#[test]
fn rbt_node_new_is_red_leaf() {
    let n = Node::new(7);
    assert_eq!(n.key, 7);
    assert_eq!(n.color, Color::Red);
    assert!(n.left.is_none());
    assert!(n.right.is_none());
}

#[test]
fn rbt_empty_tree() {
    let mut t = RedBlackTree::default();
    assert!(t.is_empty());
    assert_eq!(t.height(), 0);
    assert_eq!(t.count_leaves(), 0);
    assert!(t.inorder().is_empty());
    assert!(t.rows().is_empty());
    assert!(!t.delete(1));
}

#[test]
fn rbt_single_key_root_is_black() {
    let t = build(&[5]);
    assert_eq!(rows(&t), vec![(5, "B", vec![F])]);
}

#[test]
fn rbt_three_in_a_row_rotates() {
    let expected = vec![(3, "R", vec![F, F]), (2, "B", vec![F]), (1, "R", vec![F, T])];
    assert_eq!(rows(&build(&[1, 2, 3])), expected);
    assert_eq!(rows(&build(&[3, 2, 1])), expected);
}

#[test]
fn rbt_rows_after_mixed_inserts() {
    let t = build(&[10, 20, 30, 15, 25, 5, 1]);
    assert_eq!(
        rows(&t),
        vec![
            (30, "B", vec![F, F]),
            (25, "R", vec![F, F, T]),
            (20, "B", vec![F]),
            (15, "B", vec![F, T, F]),
            (10, "R", vec![F, T]),
            (5, "B", vec![F, T, T]),
            (1, "R", vec![F, T, T, T]),
        ]
    );
    assert_eq!(t.height(), 4);
    assert_eq!(t.count_leaves(), 3);
}

#[test]
fn rbt_rows_after_deletes() {
    let mut t = build(&[10, 20, 30, 15, 25, 5, 1]);
    assert!(t.delete(15));
    assert!(t.delete(20));
    assert_eq!(
        rows(&t),
        vec![
            (30, "B", vec![F, F]),
            (25, "B", vec![F]),
            (10, "B", vec![F, T, F]),
            (5, "R", vec![F, T]),
            (1, "B", vec![F, T, T]),
        ]
    );
    assert_eq!(t.height(), 3);
    assert_eq!(t.inorder(), vec![1, 5, 10, 25, 30]);
}

#[test]
fn rbt_ascending_inserts() {
    let keys: Vec<u32> = (1..=10).collect();
    let t = build(&keys);
    assert_eq!(
        rows(&t),
        vec![
            (10, "R", vec![F, F, F, F, F]),
            (9, "B", vec![F, F, F, F]),
            (8, "R", vec![F, F, F]),
            (7, "B", vec![F, F, F, T]),
            (6, "B", vec![F, F]),
            (5, "B", vec![F, F, T]),
            (4, "B", vec![F]),
            (3, "B", vec![F, T, F]),
            (2, "B", vec![F, T]),
            (1, "B", vec![F, T, T]),
        ]
    );
    assert_eq!(t.height(), 5);
    assert_eq!(t.count_leaves(), 5);
}

#[test]
fn rbt_deletes_with_fixup() {
    let keys: Vec<u32> = (1..=10).collect();
    let mut t = build(&keys);
    assert!(t.delete(4));
    assert!(t.delete(1));
    assert!(t.delete(8));
    assert_eq!(
        rows(&t),
        vec![
            (10, "B", vec![F, F, F]),
            (9, "R", vec![F, F]),
            (7, "R", vec![F, F, T, F]),
            (6, "B", vec![F, F, T]),
            (5, "B", vec![F]),
            (3, "R", vec![F, T, F]),
            (2, "B", vec![F, T]),
        ]
    );
    assert_eq!(t.height(), 4);
    assert_eq!(t.count_leaves(), 3);
}

#[test]
fn rbt_delete_everything() {
    let mut t = build(&[41, 38, 31, 12, 19, 8]);
    for k in [8, 12, 19, 31, 38, 41] {
        assert!(t.delete(k));
    }
    assert!(t.is_empty());
    assert_eq!(t.height(), 0);
}

#[test]
fn rbt_duplicate_insert_is_ignored() {
    let mut t = build(&[2, 1, 3]);
    t.insert(2);
    assert_eq!(t.inorder(), vec![1, 2, 3]);
    assert_eq!(rows(&t).len(), 3);
}

#[test]
fn rbt_height_stays_logarithmic() {
    let keys: Vec<u32> = (1..=1000).collect();
    let t = build(&keys);
    assert_eq!(t.height(), 17);
    assert_eq!(t.count_leaves(), 500);
}

fn black_height(rows: &[(u32, &'static str, Vec<bool>)]) -> bool {
    // Every row's colour tag is R or B, and no red row's parent is red.
    rows.iter().all(|(_, c, path)| {
        if *c != "R" {
            return true;
        }
        let parent = &path[..path.len() - 1];
        rows.iter().all(|(_, pc, pp)| pp.as_slice() != parent || *pc == "B" || parent.is_empty())
    })
}

#[test]
fn rbt_no_red_parent_of_red_child() {
    let mut t = RedBlackTree::new();
    let mut x: u32 = 3;
    for _ in 0..200 {
        x = x.wrapping_mul(1103515245).wrapping_add(12345) % 500;
        t.insert(x);
    }
    for k in (0..500).step_by(4) {
        t.delete(k);
    }
    let r = rows(&t);
    assert_eq!(r.iter().find(|row| row.2.len() == 1).unwrap().1, "B");
    assert!(black_height(&r));
    let v = t.inorder();
    assert!(v.windows(2).all(|w| w[0] < w[1]));
}

#[test]
fn rbt_insert_then_search_finds_key() {
    let mut t = build(&[8, 4, 12]);
    assert!(!t.search(6));
    t.insert(6);
    assert!(t.search(6));
}

#[test]
fn rbt_delete_undoes_insert_of_new_key() {
    let mut t = build(&[8, 4, 12, 2, 6, 10, 14]);
    let before = t.inorder();
    t.insert(11);
    assert!(t.delete(11));
    assert!(!t.search(11));
    assert_eq!(t.inorder(), before);
}

/// Depth (in nodes) of the shallowest node missing a child, from the drawing rows.
fn shortest_path(rows: &[(u32, &'static str, Vec<bool>)]) -> usize {
    let has = |p: &Vec<bool>| rows.iter().any(|r| &r.2 == p);
    rows.iter()
        .filter(|r| {
            let mut l = r.2.clone();
            l.push(true);
            let mut rr = r.2.clone();
            rr.push(false);
            !has(&l) || !has(&rr)
        })
        .map(|r| r.2.len())
        .min()
        .unwrap_or(0)
}

#[test]
fn rbt_longest_path_at_most_twice_shortest() {
    let keys: Vec<u32> = (1..=1000).collect();
    let t = build(&keys);
    let r = rows(&t);
    let shortest = shortest_path(&r);
    assert_eq!(shortest, 9);
    assert!(t.height() <= 2 * shortest);

    let mut u = RedBlackTree::new();
    let mut x: u32 = 11;
    for _ in 0..500 {
        x = x.wrapping_mul(1103515245).wrapping_add(12345) % 700;
        u.insert(x);
        x = x.wrapping_mul(1103515245).wrapping_add(12345) % 700;
        u.delete(x);
    }
    assert!(u.height() <= 2 * shortest_path(&rows(&u)));
}
