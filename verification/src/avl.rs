//! AVL tree: a binary search tree in which the heights of the two subtrees of
//! every node differ by at most one.

use crate::draw::{copy_path, extend_path, row_view, DrawRow, Mark};
use vstd::prelude::*;

verus! {

/// A link to a child subtree; `None` is the empty tree.
pub type AVLLink = Option<Box<AVLNode>>;

/// One node of an AVL tree. `height` caches the height of the subtree rooted here
/// (a leaf has height 1).
pub struct AVLNode {
    pub key: u32,
    pub height: i32,
    pub left: AVLLink,
    pub right: AVLLink,
}

/// The set of keys stored in a subtree.
pub open spec fn keys(l: AVLLink) -> Set<u32>
    decreases l,
{
    match l {
        None => Set::empty(),
        Some(n) => keys(n.left).union(keys(n.right)).insert(n.key),
    }
}

/// The height of a subtree: the number of nodes on its longest root-to-leaf path.
pub open spec fn height_of(l: AVLLink) -> nat
    decreases l,
{
    match l {
        None => 0,
        Some(n) => {
            let hl = height_of(n.left);
            let hr = height_of(n.right);
            1 + if hl >= hr { hl } else { hr }
        },
    }
}


/// The number of nodes of a subtree.
pub open spec fn size_of(l: AVLLink) -> nat
    decreases l,
{
    match l {
        None => 0,
        Some(n) => size_of(n.left) + size_of(n.right) + 1,
    }
}

/// The number of leaves (nodes without children) of a subtree.
pub open spec fn leaves_of(l: AVLLink) -> nat
    decreases l,
{
    match l {
        None => 0,
        Some(n) => if n.left is None && n.right is None {
            1
        } else {
            leaves_of(n.left) + leaves_of(n.right)
        },
    }
}

/// The keys of a subtree read in order: left subtree, node, right subtree.
pub open spec fn inorder_of(l: AVLLink) -> Seq<u32>
    decreases l,
{
    match l {
        None => Seq::empty(),
        Some(n) => inorder_of(n.left).push(n.key) + inorder_of(n.right),
    }
}

/// Binary-search-tree order: every key of a left subtree is smaller than the
/// node's key, every key of a right subtree is larger.
pub open spec fn bst(l: AVLLink) -> bool
    decreases l,
{
    match l {
        None => true,
        Some(n) => {
            &&& bst(n.left)
            &&& bst(n.right)
            &&& forall|k: u32| #[trigger] keys(n.left).contains(k) ==> k < n.key
            &&& forall|k: u32| #[trigger] keys(n.right).contains(k) ==> n.key < k
        },
    }
}

/// Every node caches its true height.
pub open spec fn heights_ok(l: AVLLink) -> bool
    decreases l,
{
    match l {
        None => true,
        Some(n) => {
            &&& heights_ok(n.left)
            &&& heights_ok(n.right)
            &&& n.height as int == height_of(l) as int
        },
    }
}

/// The subtree heights of every node differ by at most one.
pub open spec fn balanced(l: AVLLink) -> bool
    decreases l,
{
    match l {
        None => true,
        Some(n) => {
            &&& balanced(n.left)
            &&& balanced(n.right)
            &&& -1 <= height_of(n.left) as int - height_of(n.right) as int <= 1
        },
    }
}

/// The AVL invariant: search order, cached heights, balance.
pub open spec fn avl_wf(l: AVLLink) -> bool {
    bst(l) && heights_ok(l) && balanced(l)
}

/// The least number of nodes of a balanced tree of height `h`.
pub open spec fn avl_min_size(h: nat) -> nat
    decreases h,
{
    if h == 0 {
        0
    } else if h == 1 {
        1
    } else {
        avl_min_size((h - 1) as nat) + avl_min_size((h - 2) as nat) + 1
    }
}

proof fn lemma_avl_min_size_mono(a: nat, b: nat)
    requires
        a <= b,
    ensures
        avl_min_size(a) <= avl_min_size(b),
    decreases b,
{
    if a < b {
        lemma_avl_min_size_mono(a, (b - 1) as nat);
    }
}

proof fn lemma_avl_min_size_pow2(h: nat)
    ensures
        avl_min_size(h) + 1 >= vstd::arithmetic::power2::pow2(h / 2),
    decreases h,
{
    vstd::arithmetic::power2::lemma2_to64();
    if h >= 2 {
        lemma_avl_min_size_pow2((h - 2) as nat);
        lemma_avl_min_size_mono((h - 2) as nat, (h - 1) as nat);
        assert((h - 2) as nat / 2 + 1 == h / 2);
        vstd::arithmetic::power2::lemma_pow2_unfold(h / 2);
    }
}

/// A balanced tree has at least `avl_min_size(height)` nodes.
proof fn lemma_balanced_size(l: AVLLink)
    requires
        balanced(l),
    ensures
        size_of(l) >= avl_min_size(height_of(l)),
    decreases l,
{
    if let Some(n) = l {
        lemma_balanced_size(n.left);
        lemma_balanced_size(n.right);
        let hl = height_of(n.left);
        let hr = height_of(n.right);
        if hl >= hr && hl >= 1 {
            lemma_avl_min_size_mono((hl - 1) as nat, hr);
        } else if hr > hl {
            lemma_avl_min_size_mono((hr - 1) as nat, hl);
        }
    }
}

/// A search tree whose keys lie in `[lo, hi]` has at most `hi - lo + 1` nodes.
pub proof fn lemma_bst_size(l: AVLLink, lo: int, hi: int)
    requires
        bst(l),
        lo <= hi + 1,
        forall|k: u32| #[trigger] keys(l).contains(k) ==> lo <= k <= hi,
    ensures
        size_of(l) <= hi - lo + 1,
    decreases l,
{
    if let Some(n) = l {
        assert forall|k: u32| #[trigger] keys(n.left).contains(k) implies lo <= k <= n.key - 1 by {
            assert(keys(l).contains(k));
        }
        assert forall|k: u32| #[trigger] keys(n.right).contains(k) implies n.key + 1 <= k <= hi by {
            assert(keys(l).contains(k));
        }
        assert(keys(l).contains(n.key));
        lemma_bst_size(n.left, lo, n.key - 1);
        lemma_bst_size(n.right, n.key + 1, hi);
    }
}

/// A search tree over `u32` keys has at most 2^32 nodes.
pub proof fn lemma_bst_size_u32(l: AVLLink)
    requires
        bst(l),
    ensures
        size_of(l) <= 0x1_0000_0000,
{
    lemma_bst_size(l, 0, u32::MAX as int);
}

/// A binary tree has at most `(size + 1) / 2` leaves.
pub proof fn lemma_leaves_size(l: AVLLink)
    ensures
        2 * leaves_of(l) <= size_of(l) + 1,
    decreases l,
{
    if let Some(n) = l {
        lemma_leaves_size(n.left);
        lemma_leaves_size(n.right);
    }
}

/// An AVL tree over `u32` keys is at most 65 levels high.
pub proof fn lemma_avl_height_bound(l: AVLLink)
    requires
        bst(l),
        balanced(l),
    ensures
        height_of(l) <= 65,
{
    lemma_bst_size_u32(l);
    lemma_balanced_size(l);
    let h = height_of(l);
    if h > 65 {
        lemma_avl_min_size_pow2(h);
        vstd::arithmetic::power2::lemma2_to64();
        vstd::arithmetic::power2::lemma_pow2_unfold(33);
        if h / 2 > 33 {
            vstd::arithmetic::power2::lemma_pow2_strictly_increases(33, h / 2);
        }
        assert(false);
    }
}


impl AVLNode {
    /// A fresh leaf holding `key`.
    pub fn new(key: u32) -> (n: Box<AVLNode>)
        ensures
            n.key == key,
            n.height == 1,
            n.left is None,
            n.right is None,
            avl_wf(Some(n)),
            keys(Some(n)) == set![key],
    {
        let n = Box::new(AVLNode { key, height: 1, left: None, right: None });
        assert(n.left is None);
        assert(keys(n.left) == Set::<u32>::empty());
        assert(keys(Some(n)) == keys(n.left).union(keys(n.right)).insert(key));
        assert(keys(Some(n)) =~= set![key]);
        assert(height_of(n.left) == 0 && height_of(n.right) == 0);
        assert(height_of(Some(n)) == 1);
        assert(bst(n.left) && heights_ok(n.left) && balanced(n.left));
        assert(bst(n.right) && heights_ok(n.right) && balanced(n.right));
        assert(bst(Some(n)));
        assert(heights_ok(Some(n)));
        assert(balanced(Some(n)));
        n
    }
}

/// The cached height of a subtree (0 for the empty tree).
fn node_height(link: &AVLLink) -> (h: i32)
    requires
        heights_ok(*link),
    ensures
        h as int == height_of(*link) as int,
{
    match link {
        None => 0,
        Some(n) => n.height,
    }
}

/// Recomputes the cached height of `node` from its children.
fn update_height(node: &mut AVLNode)
    requires
        heights_ok(old(node).left),
        heights_ok(old(node).right),
        height_of(old(node).left) < 1000,
        height_of(old(node).right) < 1000,
    ensures
        final(node).key == old(node).key,
        final(node).left == old(node).left,
        final(node).right == old(node).right,
        heights_ok(Some(Box::new(*final(node)))),
{
    let lh = node_height(&node.left);
    let rh = node_height(&node.right);
    node.height = 1 + if lh >= rh { lh } else { rh };
}

/// Height of the left subtree minus height of the right subtree.
fn balance_factor(node: &AVLNode) -> (bf: i32)
    requires
        heights_ok(node.left),
        heights_ok(node.right),
        height_of(node.left) < 1000,
        height_of(node.right) < 1000,
    ensures
        bf as int == height_of(node.left) as int - height_of(node.right) as int,
{
    let lh = node_height(&node.left);
    let rh = node_height(&node.right);
    lh - rh
}

/// Builds a node from a key and two subtrees, with its height computed.
fn make_node(key: u32, left: AVLLink, right: AVLLink) -> (n: Box<AVLNode>)
    requires
        heights_ok(left),
        heights_ok(right),
        height_of(left) < 1000,
        height_of(right) < 1000,
    ensures
        n.key == key,
        n.left == left,
        n.right == right,
        heights_ok(Some(n)),
        n == mk(key, left, right),
{
    let mut node = AVLNode { key, height: 0, left, right };
    update_height(&mut node);
    Box::new(node)
}

/// Right rotation around `y`: its left child `x` becomes the subtree root and
/// `y` becomes the right child of `x`. In-order sequence is unchanged.
fn rotate_right(y: Box<AVLNode>) -> (r: Box<AVLNode>)
    requires
        y.left is Some,
        heights_ok(y.left.unwrap().left),
        heights_ok(y.left.unwrap().right),
        heights_ok(y.right),
        height_of(Some(y)) <= 100,
    ensures
        r.key == y.left.unwrap().key,
        r.left == y.left.unwrap().left,
        r.right is Some,
        r.right.unwrap().key == y.key,
        r.right.unwrap().left == y.left.unwrap().right,
        r.right.unwrap().right == y.right,
        heights_ok(Some(r)),
        keys(Some(r)) == keys(Some(y)),
        inorder_of(Some(r)) == inorder_of(Some(y)),
        bst(Some(y)) ==> bst(Some(r)),
        r == rotated_right(y),
{
    let ghost gy = y;
    let AVLNode { key: yk, height: _, left: yl, right: yr } = *y;
    let x = yl.unwrap();
    let ghost gx = x;
    let AVLNode { key: xk, height: _, left: xl, right: xr } = *x;
    assert(height_of(Some(gx)) < 100);
    assert(height_of(xl) < 99 && height_of(xr) < 99 && height_of(yr) < 100);
    let new_y = make_node(yk, xr, yr);
    assert(height_of(Some(new_y)) <= 100);
    let r = make_node(xk, xl, Some(new_y));
    proof {
        assert(keys(Some(new_y)) == keys(xr).union(keys(yr)).insert(yk));
        assert(keys(Some(gx)) == keys(xl).union(keys(xr)).insert(xk));
        assert(keys(Some(r)) =~= keys(Some(gy)));
        assert(inorder_of(Some(new_y)) == inorder_of(xr).push(yk) + inorder_of(yr));
        assert(inorder_of(Some(gx)) == inorder_of(xl).push(xk) + inorder_of(xr));
        assert(inorder_of(Some(r)) =~= inorder_of(Some(gy)));
        if bst(Some(gy)) {
            assert(bst(Some(gx)));
            assert(keys(Some(gx)).contains(xk));
            assert(keys(gy.left).contains(xk));
            assert forall|k: u32| #[trigger] keys(new_y.left).contains(k) implies k < yk by {
                assert(keys(Some(gx)).contains(k));
            }
            assert(bst(Some(new_y)));
            assert(xk < yk);
            assert forall|k: u32| #[trigger] keys(r.right).contains(k) implies xk < k by {
                assert(keys(r.right) == keys(Some(new_y)));
                if keys(xr).contains(k) {
                    assert(xk < k);
                } else if k != yk {
                    assert(keys(yr).contains(k));
                    assert(yk < k);
                }
            }
            assert(bst(Some(r)));
        }
    }
    r
}

/// Left rotation around `x`: its right child `y` becomes the subtree root and
/// `x` becomes the left child of `y`. In-order sequence is unchanged.
fn rotate_left(x: Box<AVLNode>) -> (r: Box<AVLNode>)
    requires
        x.right is Some,
        heights_ok(x.right.unwrap().left),
        heights_ok(x.right.unwrap().right),
        heights_ok(x.left),
        height_of(Some(x)) <= 100,
    ensures
        r.key == x.right.unwrap().key,
        r.right == x.right.unwrap().right,
        r.left is Some,
        r.left.unwrap().key == x.key,
        r.left.unwrap().right == x.right.unwrap().left,
        r.left.unwrap().left == x.left,
        heights_ok(Some(r)),
        keys(Some(r)) == keys(Some(x)),
        inorder_of(Some(r)) == inorder_of(Some(x)),
        bst(Some(x)) ==> bst(Some(r)),
        r == rotated_left(x),
{
    let ghost gx = x;
    let AVLNode { key: xk, height: _, left: xl, right: xr } = *x;
    let y = xr.unwrap();
    let ghost gy = y;
    let AVLNode { key: yk, height: _, left: yl, right: yr } = *y;
    assert(height_of(Some(gy)) < 100);
    assert(height_of(yl) < 99 && height_of(yr) < 99 && height_of(xl) < 100);
    let new_x = make_node(xk, xl, yl);
    assert(height_of(Some(new_x)) <= 100);
    let r = make_node(yk, Some(new_x), yr);
    proof {
        assert(keys(Some(new_x)) == keys(xl).union(keys(yl)).insert(xk));
        assert(keys(Some(gy)) == keys(yl).union(keys(yr)).insert(yk));
        assert(keys(Some(r)) =~= keys(Some(gx)));
        assert(inorder_of(Some(new_x)) == inorder_of(xl).push(xk) + inorder_of(yl));
        assert(inorder_of(Some(gy)) == inorder_of(yl).push(yk) + inorder_of(yr));
        assert(inorder_of(Some(r)) =~= inorder_of(Some(gx)));
        if bst(Some(gx)) {
            assert(bst(Some(gy)));
            assert(keys(Some(gy)).contains(yk));
            assert(keys(gx.right).contains(yk));
            assert forall|k: u32| #[trigger] keys(new_x.right).contains(k) implies xk < k by {
                assert(keys(Some(gy)).contains(k));
            }
            assert(bst(Some(new_x)));
            assert(xk < yk);
            assert forall|k: u32| #[trigger] keys(r.left).contains(k) implies k < yk by {
                assert(keys(r.left) == keys(Some(new_x)));
                if keys(yl).contains(k) {
                    assert(k < yk);
                } else if k != xk {
                    assert(keys(xl).contains(k));
                    assert(k < xk);
                }
            }
            assert(bst(Some(r)));
        }
    }
    r
}


/// The larger of two naturals.
pub open spec fn max_nat(a: nat, b: nat) -> nat {
    if a >= b { a } else { b }
}

/// A node holding `key` over two subtrees, with its height computed from theirs.
pub open spec fn mk(key: u32, left: AVLLink, right: AVLLink) -> Box<AVLNode> {
    Box::new(
        AVLNode {
            key,
            height: (1 + max_nat(height_of(left), height_of(right))) as i32,
            left,
            right,
        },
    )
}

/// The right rotation of a node with a left child.
pub open spec fn rotated_right(y: Box<AVLNode>) -> Box<AVLNode> {
    let x = y.left.unwrap();
    mk(x.key, x.left, Some(mk(y.key, x.right, y.right)))
}

/// The left rotation of a node with a right child.
pub open spec fn rotated_left(x: Box<AVLNode>) -> Box<AVLNode> {
    let y = x.right.unwrap();
    mk(y.key, Some(mk(x.key, x.left, y.left)), y.right)
}

/// Height of the left subtree minus height of the right subtree.
pub open spec fn balance_of(n: Box<AVLNode>) -> int {
    height_of(n.left) as int - height_of(n.right) as int
}

/// The node holding `key` over `left` and `right`, rebalanced: a left-heavy
/// node is rotated right (its left child first rotated left when that child
/// leans right), and symmetrically for a right-heavy node.
pub open spec fn rebalanced(key: u32, left: AVLLink, right: AVLLink) -> Box<AVLNode> {
    let n = mk(key, left, right);
    if balance_of(n) > 1 {
        let l = left.unwrap();
        let l2 = if balance_of(l) < 0 { rotated_left(l) } else { l };
        rotated_right(mk(key, Some(l2), right))
    } else if balance_of(n) < -1 {
        let r = right.unwrap();
        let r2 = if balance_of(r) > 0 { rotated_right(r) } else { r };
        rotated_left(mk(key, left, Some(r2)))
    } else {
        n
    }
}

/// The tree after inserting `key` into `l`: descend by key, add a leaf, and
/// rebalance every node on the way back up; a present key changes nothing.
pub open spec fn avl_insert(l: AVLLink, key: u32) -> AVLLink
    decreases l,
{
    match l {
        None => Some(mk(key, None, None)),
        Some(n) => if key < n.key {
            Some(rebalanced(n.key, avl_insert(n.left, key), n.right))
        } else if key > n.key {
            Some(rebalanced(n.key, n.left, avl_insert(n.right, key)))
        } else {
            l
        },
    }
}

/// The key of the leftmost node of a subtree.
pub open spec fn leftmost_key(n: Box<AVLNode>) -> u32
    decreases n,
{
    match n.left {
        None => n.key,
        Some(l) => leftmost_key(l),
    }
}

/// The tree after deleting `key` from `l`: a node with at most one child is
/// replaced by that child; a node with two takes the key of its in-order
/// successor, which is then deleted from the right subtree; every node on the
/// way back up is rebalanced.
pub open spec fn avl_delete(l: AVLLink, key: u32) -> AVLLink
    decreases l,
{
    match l {
        None => None,
        Some(n) => if key < n.key {
            Some(rebalanced(n.key, avl_delete(n.left, key), n.right))
        } else if key > n.key {
            Some(rebalanced(n.key, n.left, avl_delete(n.right, key)))
        } else {
            match n.right {
                None => n.left,
                Some(r) => match n.left {
                    None => n.right,
                    Some(_) => Some(
                        rebalanced(leftmost_key(r), n.left, avl_delete(n.right, leftmost_key(r))),
                    ),
                },
            }
        },
    }
}

/// Restores balance at `node` after one of its subtrees grew or shrank by one
/// level: recomputes its height and applies the single or double rotation that
/// the balance factor calls for.
fn rebalance(node: Box<AVLNode>) -> (r: Box<AVLNode>)
    requires
        bst(Some(node)),
        avl_wf(node.left),
        avl_wf(node.right),
        -2 <= height_of(node.left) as int - height_of(node.right) as int <= 2,
    ensures
        avl_wf(Some(r)),
        keys(Some(r)) == keys(Some(node)),
        inorder_of(Some(r)) == inorder_of(Some(node)),
        max_nat(height_of(node.left), height_of(node.right)) <= height_of(Some(r))
            <= max_nat(height_of(node.left), height_of(node.right)) + 1,
        -1 <= height_of(node.left) as int - height_of(node.right) as int <= 1 ==> {
            &&& r.key == node.key
            &&& r.left == node.left
            &&& r.right == node.right
        },
        r == rebalanced(node.key, node.left, node.right),
{
    let ghost g = node;
    proof {
        lemma_avl_height_bound(node.left);
        lemma_avl_height_bound(node.right);
    }
    let mut node = node;
    update_height(&mut node);
    let bf = balance_factor(&node);

    if bf > 1 {
        let left = node.left.take().unwrap();
        let ghost gl = left;
        assert(avl_wf(Some(gl)));
        assert(bst(gl.left) && heights_ok(gl.left) && balanced(gl.left));
        assert(bst(gl.right) && heights_ok(gl.right) && balanced(gl.right));
        if balance_factor(&left) < 0 {
            let ghost gb = gl.right.unwrap();
            assert(bst(gb.left) && heights_ok(gb.left) && balanced(gb.left));
            assert(bst(gb.right) && heights_ok(gb.right) && balanced(gb.right));
            let new_left = rotate_left(left);
            let ghost nx = new_left.left.unwrap();
            assert(height_of(Some(nx)) == height_of(gl.left) + 1);
            assert(balanced(Some(nx)));
            node.left = Some(new_left);
        } else {
            node.left = Some(left);
        }
        let ghost pre = node;
        assert(keys(pre.left) == keys(g.left));
        assert(bst(Some(pre)));
        let r = rotate_right(node);
        proof {
            let ny = r.right.unwrap();
            assert(balanced(Some(ny)));
            assert(balanced(Some(r)));
            assert(keys(Some(pre)) =~= keys(Some(g)));
            assert(inorder_of(Some(pre)) =~= inorder_of(Some(g)));
        }
        return r;
    }
    if bf < -1 {
        let right = node.right.take().unwrap();
        let ghost gr = right;
        assert(avl_wf(Some(gr)));
        assert(bst(gr.left) && heights_ok(gr.left) && balanced(gr.left));
        assert(bst(gr.right) && heights_ok(gr.right) && balanced(gr.right));
        if balance_factor(&right) > 0 {
            let ghost gb = gr.left.unwrap();
            assert(bst(gb.left) && heights_ok(gb.left) && balanced(gb.left));
            assert(bst(gb.right) && heights_ok(gb.right) && balanced(gb.right));
            let new_right = rotate_right(right);
            let ghost ny = new_right.right.unwrap();
            assert(height_of(Some(ny)) == height_of(gr.right) + 1);
            assert(balanced(Some(ny)));
            node.right = Some(new_right);
        } else {
            node.right = Some(right);
        }
        let ghost pre = node;
        assert(keys(pre.right) == keys(g.right));
        assert(bst(Some(pre)));
        let r = rotate_left(node);
        proof {
            let nx = r.left.unwrap();
            assert(balanced(Some(nx)));
            assert(balanced(Some(r)));
            assert(keys(Some(pre)) =~= keys(Some(g)));
            assert(inorder_of(Some(pre)) =~= inorder_of(Some(g)));
        }
        return r;
    }
    proof {
        assert(keys(Some(node)) =~= keys(Some(g)));
        assert(inorder_of(Some(node)) =~= inorder_of(Some(g)));
    }
    node
}


/// An AVL tree of distinct `u32` keys.
pub struct AVLTree {
    root: AVLLink,
}

impl View for AVLTree {
    type V = Set<u32>;

    /// The set of keys in the tree.
    open spec fn view(&self) -> Set<u32> {
        keys(self.root_link())
    }
}

impl AVLTree {
    /// The tree's root link.
    pub closed spec fn root_link(&self) -> AVLLink {
        self.root
    }

    /// The tree satisfies the AVL invariant.
    pub open spec fn wf(&self) -> bool {
        avl_wf(self.root_link())
    }

    /// The tree `insert(key)` leaves: its root is `avl_insert` of this root.
    pub closed spec fn with_inserted(self, key: u32) -> AVLTree {
        AVLTree { root: avl_insert(self.root, key) }
    }

    /// The tree `delete(key)` leaves: its root is `avl_delete` of this root.
    pub closed spec fn with_deleted(self, key: u32) -> AVLTree {
        AVLTree { root: avl_delete(self.root, key) }
    }

    /// An empty tree.
    pub fn new() -> (t: Self)
        ensures
            t.wf(),
            t.root_link() is None,
            t@ == Set::<u32>::empty(),
    {
        AVLTree { root: None }
    }

    /// Inserts `key`; a key already present leaves the tree unchanged.
    pub fn insert(&mut self, key: u32)
        requires
            old(self).wf(),
        ensures
            final(self).wf(),
            final(self)@ == old(self)@.insert(key),
            old(self)@.contains(key) ==> final(self).root_link() == old(self).root_link(),
            final(self).root_link() == avl_insert(old(self).root_link(), key),
            *final(self) == old(self).with_inserted(key),
    {
        let root = self.root.take();
        self.root = Self::insert_rec(root, key);
    }

    fn insert_rec(node: AVLLink, key: u32) -> (r: AVLLink)
        requires
            avl_wf(node),
        ensures
            r is Some,
            avl_wf(r),
            keys(r) == keys(node).insert(key),
            height_of(node) <= height_of(r) <= height_of(node) + 1,
            keys(node).contains(key) ==> r == node,
            r == avl_insert(node, key),
        decreases node,
    {
        match node {
            None => Some(AVLNode::new(key)),
            Some(mut n) => {
                let ghost g = n;
                assert(avl_wf(g.left) && avl_wf(g.right));
                let node_key = n.key;
                if key < node_key {
                    let left = n.left.take();
                    n.left = Self::insert_rec(left, key);
                    proof {
                        if keys(Some(g)).contains(key) {
                            if keys(g.right).contains(key) {
                                assert(false);
                            }
                            assert(keys(g.left).contains(key));
                        }
                    }
                } else if key > node_key {
                    let right = n.right.take();
                    n.right = Self::insert_rec(right, key);
                    proof {
                        if keys(Some(g)).contains(key) {
                            if keys(g.left).contains(key) {
                                assert(false);
                            }
                            assert(keys(g.right).contains(key));
                        }
                    }
                } else {
                    assert(keys(Some(g)) =~= keys(Some(g)).insert(key));
                    return Some(n);
                }
                proof {
                    assert(bst(Some(n)));
                }
                let ghost pre = n;
                let r = rebalance(n);
                proof {
                    assert(keys(Some(pre)) =~= keys(Some(g)).insert(key));
                    if keys(Some(g)).contains(key) {
                        assert(pre == g);
                        assert(r.height == g.height);
                        assert(r == g);
                    }
                }
                Some(r)
            },
        }
    }

    /// Removes `key`; returns whether it was present.
    pub fn delete(&mut self, key: u32) -> (deleted: bool)
        requires
            old(self).wf(),
        ensures
            final(self).wf(),
            final(self)@ == old(self)@.remove(key),
            deleted == old(self)@.contains(key),
            !deleted ==> final(self).root_link() == old(self).root_link(),
            final(self).root_link() == avl_delete(old(self).root_link(), key),
            *final(self) == old(self).with_deleted(key),
    {
        let root = self.root.take();
        let (new_root, deleted) = Self::delete_rec(root, key);
        self.root = new_root;
        deleted
    }

    fn delete_rec(node: AVLLink, key: u32) -> (r: (AVLLink, bool))
        requires
            avl_wf(node),
        ensures
            avl_wf(r.0),
            keys(r.0) == keys(node).remove(key),
            r.1 == keys(node).contains(key),
            height_of(node) <= height_of(r.0) + 1,
            height_of(r.0) <= height_of(node),
            r.0 == avl_delete(node, key),
            !r.1 ==> r.0 == node,
        decreases node,
    {
        match node {
            None => {
                assert(keys(node) =~= keys(node).remove(key));
                (None, false)
            },
            Some(mut n) => {
                let ghost g = n;
                assert(avl_wf(g.left) && avl_wf(g.right));
                assert(keys(Some(g)).contains(g.key));
                let node_key = n.key;
                if key < node_key {
                    let left = n.left.take();
                    let (new_left, deleted) = Self::delete_rec(left, key);
                    n.left = new_left;
                    proof {
                        if keys(g.right).contains(key) {
                            assert(false);
                        }
                        assert(bst(Some(n)));
                    }
                    let ghost pre = n;
                    let new_root = rebalance(n);
                    proof {
                        assert(keys(Some(pre)) =~= keys(Some(g)).remove(key));
                    }
                    (Some(new_root), deleted)
                } else if key > node_key {
                    let right = n.right.take();
                    let (new_right, deleted) = Self::delete_rec(right, key);
                    n.right = new_right;
                    proof {
                        if keys(g.left).contains(key) {
                            assert(false);
                        }
                        assert(bst(Some(n)));
                    }
                    let ghost pre = n;
                    let new_root = rebalance(n);
                    proof {
                        assert(keys(Some(pre)) =~= keys(Some(g)).remove(key));
                    }
                    (Some(new_root), deleted)
                } else {
                    proof {
                        assert(!keys(g.left).contains(key));
                        assert(!keys(g.right).contains(key));
                    }
                    let left = n.left.take();
                    let right = n.right.take();
                    match (left, right) {
                        (None, None) => {
                            assert(keys(Some(g)).remove(key) =~= Set::empty());
                            (None, true)
                        },
                        (Some(l), None) => {
                            assert(keys(Some(g)).remove(key) =~= keys(Some(l)));
                            (Some(l), true)
                        },
                        (None, Some(r)) => {
                            assert(keys(Some(g)).remove(key) =~= keys(Some(r)));
                            (Some(r), true)
                        },
                        (Some(l), Some(r)) => {
                            let successor = Self::find_min(&r);
                            let successor_key = successor.key;
                            n.key = successor_key;
                            n.left = Some(l);
                            let (new_right, _) = Self::delete_rec(Some(r), successor_key);
                            n.right = new_right;
                            proof {
                                assert forall|k: u32| #[trigger] keys(n.left).contains(k) implies k
                                    < successor_key by {
                                    assert(k < key);
                                    assert(key < successor_key);
                                }
                                assert forall|k: u32| #[trigger] keys(n.right).contains(k) implies successor_key
                                    < k by {
                                    assert(keys(g.right).contains(k));
                                }
                                assert(bst(Some(n)));
                            }
                            let ghost pre = n;
                            let new_root = rebalance(n);
                            proof {
                                assert(keys(Some(pre)) =~= keys(Some(g)).remove(key));
                            }
                            (Some(new_root), true)
                        },
                    }
                }
            },
        }
    }

    /// The node with the smallest key in a non-empty subtree.
    fn find_min(node: &Box<AVLNode>) -> (m: &Box<AVLNode>)
        requires
            bst(Some(*node)),
        ensures
            keys(Some(*node)).contains(m.key),
            forall|k: u32| #[trigger] keys(Some(*node)).contains(k) ==> m.key <= k,
            m.key == leftmost_key(*node),
        decreases node,
    {
        match &node.left {
            None => {
                assert(keys(node.left) =~= Set::<u32>::empty());
                assert(keys(Some(*node)).contains(node.key));
                assert forall|k: u32| #[trigger] keys(Some(*node)).contains(k) implies node.key <= k by {
                    if k != node.key {
                        assert(keys(node.right).contains(k));
                    }
                }
                node
            },
            Some(l) => {
                let m = Self::find_min(l);
                assert forall|k: u32| #[trigger] keys(Some(*node)).contains(k) implies m.key <= k by {
                    if keys(node.left).contains(k) {
                        assert(keys(Some(*l)).contains(k));
                    } else {
                        assert(keys(Some(*l)).contains(m.key));
                        assert(m.key < node.key);
                        if k != node.key {
                            assert(keys(node.right).contains(k));
                        }
                    }
                }
                m
            },
        }
    }

    /// The number of leaves in the tree.
    pub fn count_leaves(&self) -> (n: usize)
        requires
            self.wf(),
        ensures
            n == leaves_of(self.root_link()),
    {
        Self::count_leaves_rec(&self.root)
    }

    fn count_leaves_rec(node: &AVLLink) -> (n: usize)
        requires
            bst(*node),
        ensures
            n == leaves_of(*node),
        decreases node,
    {
        proof {
            lemma_bst_size_u32(*node);
            lemma_leaves_size(*node);
        }
        match node {
            None => 0,
            Some(n) => {
                if n.left.is_none() && n.right.is_none() {
                    1
                } else {
                    Self::count_leaves_rec(&n.left) + Self::count_leaves_rec(&n.right)
                }
            },
        }
    }

    /// The height of the tree (0 for the empty tree).
    pub fn height(&self) -> (h: usize)
        requires
            self.wf(),
        ensures
            h == height_of(self.root_link()),
    {
        let h = node_height(&self.root);
        if h > 0 {
            h as usize
        } else {
            0
        }
    }

    /// Whether the tree holds no key.
    pub fn is_empty(&self) -> (b: bool)
        ensures
            b == (self.root_link() is None),
            b == (self@ == Set::<u32>::empty()),
    {
        proof {
            if self.root is Some {
                assert(keys(self.root).contains(self.root.unwrap().key));
            }
        }
        self.root.is_none()
    }

    /// Whether `key` is in the tree.
    pub fn search(&self, key: u32) -> (found: bool)
        requires
            self.wf(),
        ensures
            found == self@.contains(key),
    {
        Self::search_rec(&self.root, key)
    }

    fn search_rec(node: &AVLLink, key: u32) -> (found: bool)
        requires
            bst(*node),
        ensures
            found == keys(*node).contains(key),
        decreases node,
    {
        match node {
            None => false,
            Some(n) => {
                let k = n.key;
                if key == k {
                    true
                } else if key < k {
                    proof {
                        if keys(n.right).contains(key) {
                            assert(false);
                        }
                    }
                    Self::search_rec(&n.left, key)
                } else {
                    proof {
                        if keys(n.left).contains(key) {
                            assert(false);
                        }
                    }
                    Self::search_rec(&n.right, key)
                }
            },
        }
    }
}

impl Default for AVLTree {
    fn default() -> (t: Self)
        ensures
            t.wf(),
            t@ == Set::<u32>::empty(),
    {
        Self::new()
    }
}


/// The keys of a search tree are finite and as many as its nodes.
pub proof fn lemma_keys_len(l: AVLLink)
    requires
        bst(l),
    ensures
        keys(l).finite(),
        keys(l).len() == size_of(l),
    decreases l,
{
    if let Some(n) = l {
        lemma_keys_len(n.left);
        lemma_keys_len(n.right);
        assert(keys(n.left).disjoint(keys(n.right))) by {
            assert forall|k: u32| keys(n.left).contains(k) implies !keys(n.right).contains(k) by {
                assert(k < n.key);
            }
        }
        vstd::set_lib::lemma_set_disjoint_lens(keys(n.left), keys(n.right));
        let u = keys(n.left).union(keys(n.right));
        assert(!u.contains(n.key)) by {
            if keys(n.left).contains(n.key) {
                assert(n.key < n.key);
            }
            if keys(n.right).contains(n.key) {
                assert(n.key < n.key);
            }
        }
        assert(u + keys(n.left) =~= u);
    }
}

/// The in-order key sequence of a search tree is strictly increasing and holds
/// exactly the tree's keys.
pub proof fn lemma_inorder_sorted(l: AVLLink)
    requires
        bst(l),
    ensures
        forall|i: int, j: int|
            0 <= i < j < inorder_of(l).len() ==> inorder_of(l)[i] < inorder_of(l)[j],
        forall|k: u32| keys(l).contains(k) <==> inorder_of(l).contains(k),
        inorder_of(l).len() == size_of(l),
    decreases l,
{
    if let Some(n) = l {
        lemma_inorder_sorted(n.left);
        lemma_inorder_sorted(n.right);
        let a = inorder_of(n.left);
        let b = inorder_of(n.right);
        let s = inorder_of(l);
        assert(s == a.push(n.key) + b);
        assert forall|i: int| 0 <= i < a.len() implies a[i] < n.key by {
            assert(a.contains(a[i]));
        }
        assert forall|i: int| 0 <= i < b.len() implies n.key < b[i] by {
            assert(b.contains(b[i]));
        }
        assert forall|i: int, j: int| 0 <= i < j < s.len() implies s[i] < s[j] by {
            if j < a.len() {
            } else if j == a.len() {
                assert(s[i] == a[i]);
            } else if i < a.len() {
                assert(s[i] == a[i] && s[j] == b[j - a.len() - 1]);
                assert(a[i] < n.key && n.key < b[j - a.len() - 1]);
            } else if i == a.len() {
                assert(s[j] == b[j - a.len() - 1]);
            } else {
                assert(s[i] == b[i - a.len() - 1] && s[j] == b[j - a.len() - 1]);
            }
        }
        assert forall|k: u32| keys(l).contains(k) <==> s.contains(k) by {
            if keys(n.left).contains(k) {
                let i = choose|i: int| 0 <= i < a.len() && a[i] == k;
                assert(s[i] == k);
            } else if keys(n.right).contains(k) {
                let i = choose|i: int| 0 <= i < b.len() && b[i] == k;
                assert(s[a.len() + 1 + i] == k);
            } else if k == n.key {
                assert(s[a.len() as int] == k);
            }
            if s.contains(k) {
                let i = choose|i: int| 0 <= i < s.len() && s[i] == k;
                if i < a.len() {
                    assert(a[i] == k);
                    assert(a.contains(k));
                } else if i > a.len() {
                    assert(b[i - a.len() - 1] == k);
                    assert(b.contains(k));
                }
            }
        }
    }
}

/// A balanced search tree of height `h` holds at least 2^(h/2) - 1 keys, so its
/// height is at most about twice the binary logarithm of its size.
pub proof fn lemma_avl_logarithmic_height(l: AVLLink)
    requires
        bst(l),
        balanced(l),
    ensures
        vstd::arithmetic::power2::pow2(height_of(l) / 2) <= keys(l).len() + 1,
{
    lemma_balanced_size(l);
    lemma_avl_min_size_pow2(height_of(l));
    lemma_keys_len(l);
}

fn inorder_rec(node: &AVLLink, out: &mut Vec<u32>)
    ensures
        final(out)@ == old(out)@ + inorder_of(*node),
    decreases node,
{
    match node {
        None => {
            assert(old(out)@ + inorder_of(*node) =~= old(out)@);
        },
        Some(n) => {
            inorder_rec(&n.left, out);
            out.push(n.key);
            inorder_rec(&n.right, out);
            assert(out@ =~= old(out)@ + inorder_of(*node));
        },
    }
}


/// The drawing lines of a subtree whose root sits at `path`, top to bottom: the
/// right subtree, the root, then the left subtree.
pub open spec fn rows_of(l: AVLLink, path: Seq<bool>) -> Seq<(u32, Mark, Seq<bool>)>
    decreases l,
{
    match l {
        None => Seq::empty(),
        Some(n) => rows_of(n.right, path.push(false)).push(
            (n.key, Mark::Balance((height_of(n.left) - height_of(n.right)) as i32), path),
        ) + rows_of(n.left, path.push(true)),
    }
}

fn rows_rec(node: &AVLLink, path: &Vec<bool>, out: &mut Vec<DrawRow>)
    requires
        avl_wf(*node),
    ensures
        final(out)@.map_values(|r: DrawRow| row_view(r)) == old(out)@.map_values(
            |r: DrawRow| row_view(r),
        ) + rows_of(*node, path@),
    decreases node,
{
    match node {
        None => {
            assert(out@.map_values(|r: DrawRow| row_view(r)) =~= old(out)@.map_values(
                |r: DrawRow| row_view(r),
            ) + rows_of(*node, path@));
        },
        Some(n) => {
            proof {
                lemma_avl_height_bound(n.left);
                lemma_avl_height_bound(n.right);
            }
            let right_path = extend_path(path, false);
            rows_rec(&n.right, &right_path, out);
            let ghost mid = out@;
            let row = DrawRow { key: n.key, mark: Mark::Balance(balance_factor(n)), path: copy_path(path) };
            out.push(row);
            assert(out@.map_values(|r: DrawRow| row_view(r)) =~= mid.map_values(
                |r: DrawRow| row_view(r),
            ).push(row_view(row)));
            let left_path = extend_path(path, true);
            rows_rec(&n.left, &left_path, out);
            assert(out@.map_values(|r: DrawRow| row_view(r)) =~= old(out)@.map_values(
                |r: DrawRow| row_view(r),
            ) + rows_of(*node, path@));
        },
    }
}


impl AVLTree {
    /// The keys in increasing order (what the in-order printout shows).
    pub fn inorder(&self) -> (v: Vec<u32>)
        ensures
            v@ == inorder_of(self.root_link()),
    {
        let mut v = Vec::new();
        inorder_rec(&self.root, &mut v);
        assert(v@ =~= inorder_of(self.root_link()));
        v
    }

    /// The lines of the tree drawing, top to bottom: each key with its balance
    /// factor and its path from the root.
    pub fn rows(&self) -> (v: Vec<DrawRow>)
        requires
            self.wf(),
        ensures
            v@.map_values(|r: DrawRow| row_view(r)) == rows_of(self.root_link(), seq![false]),
    {
        let mut v = Vec::new();
        let mut path = Vec::new();
        path.push(false);
        assert(path@ =~= seq![false]);
        rows_rec(&self.root, &path, &mut v);
        assert(v@.map_values(|r: DrawRow| row_view(r)) =~= rows_of(self.root_link(), seq![false]));
        v
    }
}

/// The in-order listing of a tree is strictly increasing and lists exactly its keys.
pub proof fn law_inorder_sorted(t: AVLTree)
    requires
        t.wf(),
    ensures
        forall|i: int, j: int|
            0 <= i < j < inorder_of(t.root_link()).len() ==> inorder_of(t.root_link())[i]
                < inorder_of(t.root_link())[j],
        forall|k: u32| t@.contains(k) <==> inorder_of(t.root_link()).contains(k),
{
    lemma_inorder_sorted(t.root_link());
}

/// An AVL tree of height h holds at least `avl_min_size(h)` keys (the sizes of
/// the sparsest balanced trees, which grow like the Fibonacci numbers), so a tree
/// holding n keys is at most about 2 log2(n + 1) high: 2^(height / 2) <= n + 1.
pub proof fn law_height_logarithmic(t: AVLTree)
    requires
        t.wf(),
    ensures
        avl_min_size(height_of(t.root_link())) <= t@.len(),
        vstd::arithmetic::power2::pow2(height_of(t.root_link()) / 2) <= t@.len() + 1,
{
    lemma_avl_logarithmic_height(t.root_link());
    lemma_balanced_size(t.root_link());
    lemma_keys_len(t.root_link());
}

/// Every node of an AVL tree has a balance factor of -1, 0 or 1.
pub proof fn law_balance_factors(t: AVLTree)
    requires
        t.wf(),
    ensures
        balanced(t.root_link()),
{
}

} // verus!
