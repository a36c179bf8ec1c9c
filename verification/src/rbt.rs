//! Red-black tree: a binary search tree whose nodes are coloured red or black so
//! that no red node has a red child and every path from a node down to an empty
//! subtree passes the same number of black nodes.

use crate::draw::{copy_path, extend_path, row_view, DrawRow, Mark};
use vstd::prelude::*;

verus! {

/// The colour of a red-black tree node.
#[derive(Clone, Copy, Debug, PartialEq, Eq, Structural)]
pub enum Color {
    Red,
    Black,
}

impl Color {
    /// The one-letter tag of the colour: "R" or "B".
    pub fn tag(&self) -> (s: &'static str)
        ensures
            *self == Color::Red ==> s@ == "R"@,
            *self == Color::Black ==> s@ == "B"@,
    {
        match self {
            Color::Red => "R",
            Color::Black => "B",
        }
    }
}

/// A link to a child subtree; `None` is the empty tree, which counts as black.
pub type RBLink = Option<Box<Node>>;

/// One node of a red-black tree.
pub struct Node {
    pub key: u32,
    pub color: Color,
    pub left: RBLink,
    pub right: RBLink,
}

/// The set of keys stored in a subtree.
pub open spec fn keys(l: RBLink) -> Set<u32>
    decreases l,
{
    match l {
        None => Set::empty(),
        Some(n) => keys(n.left).union(keys(n.right)).insert(n.key),
    }
}

/// The height of a subtree: the number of nodes on its longest root-to-leaf path.
pub open spec fn height_of(l: RBLink) -> nat
    decreases l,
{
    match l {
        None => 0,
        Some(n) => {
            let hl = height_of(n.left);
            let hr = height_of(n.right);
            1 + if hl >= hr { hl } else { hr }
        },
    }
}

/// The number of nodes of a subtree.
pub open spec fn size_of(l: RBLink) -> nat
    decreases l,
{
    match l {
        None => 0,
        Some(n) => size_of(n.left) + size_of(n.right) + 1,
    }
}

/// The number of leaves (nodes without children) of a subtree.
pub open spec fn leaves_of(l: RBLink) -> nat
    decreases l,
{
    match l {
        None => 0,
        Some(n) => if n.left is None && n.right is None {
            1
        } else {
            leaves_of(n.left) + leaves_of(n.right)
        },
    }
}

/// The keys of a subtree read in order: left subtree, node, right subtree.
pub open spec fn inorder_of(l: RBLink) -> Seq<u32>
    decreases l,
{
    match l {
        None => Seq::empty(),
        Some(n) => inorder_of(n.left).push(n.key) + inorder_of(n.right),
    }
}

/// Binary-search-tree order.
pub open spec fn bst(l: RBLink) -> bool
    decreases l,
{
    match l {
        None => true,
        Some(n) => {
            &&& bst(n.left)
            &&& bst(n.right)
            &&& forall|k: u32| #[trigger] keys(n.left).contains(k) ==> k < n.key
            &&& forall|k: u32| #[trigger] keys(n.right).contains(k) ==> n.key < k
        },
    }
}

/// The root of a subtree is black; the empty tree counts as black.
pub open spec fn is_black(l: RBLink) -> bool {
    match l {
        None => true,
        Some(n) => n.color == Color::Black,
    }
}

/// No red node has a red child.
pub open spec fn red_ok(l: RBLink) -> bool
    decreases l,
{
    match l {
        None => true,
        Some(n) => {
            &&& red_ok(n.left)
            &&& red_ok(n.right)
            &&& n.color == Color::Red ==> is_black(n.left) && is_black(n.right)
        },
    }
}

/// The number of black nodes on the leftmost path from the root down.
pub open spec fn black_height(l: RBLink) -> nat
    decreases l,
{
    match l {
        None => 0,
        Some(n) => black_height(n.left) + if n.color == Color::Black { 1nat } else { 0nat },
    }
}

/// Every node's two subtrees have the same black height, so every path from a
/// node down to an empty subtree passes the same number of black nodes.
pub open spec fn black_ok(l: RBLink) -> bool
    decreases l,
{
    match l {
        None => true,
        Some(n) => {
            &&& black_ok(n.left)
            &&& black_ok(n.right)
            &&& black_height(n.left) == black_height(n.right)
        },
    }
}

/// The red-black invariant of a subtree (the root may be red).
pub open spec fn rb_wf(l: RBLink) -> bool {
    bst(l) && red_ok(l) && black_ok(l)
}

/// A search tree whose keys lie in `[lo, hi]` has at most `hi - lo + 1` nodes.
pub proof fn lemma_bst_size(l: RBLink, lo: int, hi: int)
    requires
        bst(l),
        lo <= hi + 1,
        forall|k: u32| #[trigger] keys(l).contains(k) ==> lo <= k <= hi,
    ensures
        size_of(l) <= hi - lo + 1,
    decreases l,
{
    if let Some(n) = l {
        assert forall|k: u32| #[trigger] keys(n.left).contains(k) implies lo <= k <= n.key - 1 by {
            assert(keys(l).contains(k));
        }
        assert forall|k: u32| #[trigger] keys(n.right).contains(k) implies n.key + 1 <= k <= hi by {
            assert(keys(l).contains(k));
        }
        assert(keys(l).contains(n.key));
        lemma_bst_size(n.left, lo, n.key - 1);
        lemma_bst_size(n.right, n.key + 1, hi);
    }
}

/// A search tree over `u32` keys has at most 2^32 nodes.
pub proof fn lemma_bst_size_u32(l: RBLink)
    requires
        bst(l),
    ensures
        size_of(l) <= 0x1_0000_0000,
{
    lemma_bst_size(l, 0, u32::MAX as int);
}

/// A binary tree has at most `(size + 1) / 2` leaves.
pub proof fn lemma_leaves_size(l: RBLink)
    ensures
        2 * leaves_of(l) <= size_of(l) + 1,
    decreases l,
{
    if let Some(n) = l {
        lemma_leaves_size(n.left);
        lemma_leaves_size(n.right);
    }
}

/// A subtree with equal black heights everywhere has at least 2^bh - 1 nodes.
proof fn lemma_black_height_size(l: RBLink)
    requires
        black_ok(l),
    ensures
        size_of(l) + 1 >= vstd::arithmetic::power2::pow2(black_height(l)),
    decreases l,
{
    vstd::arithmetic::power2::lemma2_to64();
    if let Some(n) = l {
        lemma_black_height_size(n.left);
        lemma_black_height_size(n.right);
        if n.color == Color::Black {
            vstd::arithmetic::power2::lemma_pow2_unfold(black_height(l));
        }
    }
}

/// In a red-black subtree the longest path is at most twice the black height
/// (plus one for a red root).
proof fn lemma_height_black_height(l: RBLink)
    requires
        red_ok(l),
        black_ok(l),
    ensures
        height_of(l) <= 2 * black_height(l) + if is_black(l) { 0int } else { 1int },
    decreases l,
{
    if let Some(n) = l {
        lemma_height_black_height(n.left);
        lemma_height_black_height(n.right);
    }
}

/// A red-black tree over `u32` keys is at most 65 levels high.
pub proof fn lemma_rb_height_bound(l: RBLink)
    requires
        rb_wf(l),
    ensures
        height_of(l) <= 65,
        black_height(l) <= 32,
{
    lemma_bst_size_u32(l);
    lemma_black_height_size(l);
    lemma_height_black_height(l);
    let b = black_height(l);
    if b > 32 {
        vstd::arithmetic::power2::lemma2_to64();
        vstd::arithmetic::power2::lemma_pow2_unfold(33);
        if b > 33 {
            vstd::arithmetic::power2::lemma_pow2_strictly_increases(33, b);
        }
        assert(false);
    }
}


impl Node {
    /// A fresh red leaf holding `key`.
    pub fn new(key: u32) -> (n: Box<Node>)
        ensures
            n.key == key,
            n.color == Color::Red,
            n.left is None,
            n.right is None,
            rb_wf(Some(n)),
            keys(Some(n)) == set![key],
    {
        let n = Box::new(Node { key, color: Color::Red, left: None, right: None });
        assert(keys(n.left) == Set::<u32>::empty());
        assert(keys(Some(n)) =~= set![key]);
        assert(bst(n.left) && red_ok(n.left) && black_ok(n.left));
        assert(bst(n.right) && red_ok(n.right) && black_ok(n.right));
        assert(bst(Some(n)) && red_ok(Some(n)) && black_ok(Some(n)));
        n
    }
}

/// The colour of a subtree's root; the empty tree is black.
fn color_of(node: &RBLink) -> (c: Color)
    ensures
        (c == Color::Black) == is_black(*node),
{
    match node {
        None => Color::Black,
        Some(n) => n.color,
    }
}

/// Colours the root of a non-empty subtree; does nothing to the empty tree.
fn set_color(node: &mut RBLink, color: Color)
    ensures
        match *old(node) {
            None => *final(node) is None,
            Some(n) => *final(node) == Some(
                Box::new(Node { key: n.key, color, left: n.left, right: n.right }),
            ),
        },
{
    if let Some(n) = node {
        n.color = color;
    }
}

/// Left rotation around `x`: its right child `y` becomes the subtree root and
/// `x` its left child. Colours stay with their nodes; in-order sequence is unchanged.
fn rotate_left(x: Box<Node>) -> (r: Box<Node>)
    requires
        x.right is Some,
    ensures
        ({
            let y = x.right.unwrap();
            &&& r.key == y.key
            &&& r.color == y.color
            &&& r.right == y.right
            &&& r.left == Some(Box::new(Node { key: x.key, color: x.color, left: x.left, right: y.left }))
        }),
        keys(Some(r)) == keys(Some(x)),
        inorder_of(Some(r)) == inorder_of(Some(x)),
        bst(Some(x)) ==> bst(Some(r)),
{
    let ghost gx = x;
    let Node { key: xk, color: xc, left: xl, right: xr } = *x;
    let y = xr.unwrap();
    let ghost gy = y;
    let Node { key: yk, color: yc, left: yl, right: yr } = *y;
    let new_x = Box::new(Node { key: xk, color: xc, left: xl, right: yl });
    let r = Box::new(Node { key: yk, color: yc, left: Some(new_x), right: yr });
    proof {
        assert(keys(Some(new_x)) == keys(xl).union(keys(yl)).insert(xk));
        assert(keys(Some(gy)) == keys(yl).union(keys(yr)).insert(yk));
        assert(keys(Some(r)) =~= keys(Some(gx)));
        assert(inorder_of(Some(new_x)) == inorder_of(xl).push(xk) + inorder_of(yl));
        assert(inorder_of(Some(gy)) == inorder_of(yl).push(yk) + inorder_of(yr));
        assert(inorder_of(Some(r)) =~= inorder_of(Some(gx)));
        if bst(Some(gx)) {
            assert(bst(Some(gy)));
            assert(keys(Some(gy)).contains(yk));
            assert(keys(gx.right).contains(yk));
            assert forall|k: u32| #[trigger] keys(new_x.right).contains(k) implies xk < k by {
                assert(keys(Some(gy)).contains(k));
            }
            assert(bst(Some(new_x)));
            assert(xk < yk);
            assert forall|k: u32| #[trigger] keys(r.left).contains(k) implies k < yk by {
                assert(keys(r.left) == keys(Some(new_x)));
                if keys(yl).contains(k) {
                    assert(k < yk);
                } else if k != xk {
                    assert(keys(xl).contains(k));
                    assert(k < xk);
                }
            }
            assert(bst(Some(r)));
        }
    }
    r
}

/// Right rotation around `y`: its left child `x` becomes the subtree root and
/// `y` its right child. Colours stay with their nodes; in-order sequence is unchanged.
fn rotate_right(y: Box<Node>) -> (r: Box<Node>)
    requires
        y.left is Some,
    ensures
        ({
            let x = y.left.unwrap();
            &&& r.key == x.key
            &&& r.color == x.color
            &&& r.left == x.left
            &&& r.right == Some(Box::new(Node { key: y.key, color: y.color, left: x.right, right: y.right }))
        }),
        keys(Some(r)) == keys(Some(y)),
        inorder_of(Some(r)) == inorder_of(Some(y)),
        bst(Some(y)) ==> bst(Some(r)),
{
    let ghost gy = y;
    let Node { key: yk, color: yc, left: yl, right: yr } = *y;
    let x = yl.unwrap();
    let ghost gx = x;
    let Node { key: xk, color: xc, left: xl, right: xr } = *x;
    let new_y = Box::new(Node { key: yk, color: yc, left: xr, right: yr });
    let r = Box::new(Node { key: xk, color: xc, left: xl, right: Some(new_y) });
    proof {
        assert(keys(Some(new_y)) == keys(xr).union(keys(yr)).insert(yk));
        assert(keys(Some(gx)) == keys(xl).union(keys(xr)).insert(xk));
        assert(keys(Some(r)) =~= keys(Some(gy)));
        assert(inorder_of(Some(new_y)) == inorder_of(xr).push(yk) + inorder_of(yr));
        assert(inorder_of(Some(gx)) == inorder_of(xl).push(xk) + inorder_of(xr));
        assert(inorder_of(Some(r)) =~= inorder_of(Some(gy)));
        if bst(Some(gy)) {
            assert(bst(Some(gx)));
            assert(keys(Some(gx)).contains(xk));
            assert(keys(gy.left).contains(xk));
            assert forall|k: u32| #[trigger] keys(new_y.left).contains(k) implies k < yk by {
                assert(keys(Some(gx)).contains(k));
            }
            assert(bst(Some(new_y)));
            assert(xk < yk);
            assert forall|k: u32| #[trigger] keys(r.right).contains(k) implies xk < k by {
                assert(keys(r.right) == keys(Some(new_y)));
                if keys(xr).contains(k) {
                    assert(xk < k);
                } else if k != yk {
                    assert(keys(yr).contains(k));
                    assert(yk < k);
                }
            }
            assert(bst(Some(r)));
        }
    }
    r
}


/// Both subtrees of the root satisfy the red rule (the root itself may be a red
/// node with a red child).
pub open spec fn red_ok_below(l: RBLink) -> bool {
    match l {
        None => true,
        Some(n) => red_ok(n.left) && red_ok(n.right),
    }
}

/// A red root with a red child: the one spot where insertion may break the red rule.
pub open spec fn red_red_at_root(l: RBLink) -> bool {
    match l {
        None => false,
        Some(n) => n.color == Color::Red && (!is_black(n.left) || !is_black(n.right)),
    }
}

/// A red root has at least one black child.
pub open spec fn red_root_has_black_child(l: RBLink) -> bool {
    match l {
        None => true,
        Some(n) => n.color == Color::Red ==> is_black(n.left) || is_black(n.right),
    }
}

/// The node `n` with its colour replaced by `c`.
pub open spec fn with_color(n: Box<Node>, c: Color) -> Box<Node> {
    Box::new(Node { key: n.key, color: c, left: n.left, right: n.right })
}

/// Recolouring a node changes neither its keys nor its order, and changes its
/// black height only through its own colour.
proof fn lemma_with_color(n: Box<Node>, c: Color)
    ensures
        keys(Some(with_color(n, c))) == keys(Some(n)),
        inorder_of(Some(with_color(n, c))) == inorder_of(Some(n)),
        bst(Some(with_color(n, c))) == bst(Some(n)),
        black_ok(Some(with_color(n, c))) == black_ok(Some(n)),
        red_ok_below(Some(with_color(n, c))) == red_ok_below(Some(n)),
        c == Color::Black ==> red_ok(Some(with_color(n, c))) == red_ok_below(Some(n)),
        black_height(Some(with_color(n, c))) == black_height(n.left) + if c == Color::Black {
            1nat
        } else {
            0nat
        },
{
}

/// A node built from its parts.
pub open spec fn node(key: u32, color: Color, left: RBLink, right: RBLink) -> Box<Node> {
    Box::new(Node { key, color, left, right })
}

/// The left rotation of a node with a right child; colours stay with their nodes.
pub open spec fn rb_rotated_left(x: Box<Node>) -> Box<Node> {
    let y = x.right.unwrap();
    node(y.key, y.color, Some(node(x.key, x.color, x.left, y.left)), y.right)
}

/// The right rotation of a node with a left child; colours stay with their nodes.
pub open spec fn rb_rotated_right(y: Box<Node>) -> Box<Node> {
    let x = y.left.unwrap();
    node(x.key, x.color, x.left, Some(node(y.key, y.color, x.right, y.right)))
}

/// A subtree with its root coloured black (the empty tree stays empty).
pub open spec fn blacken(l: RBLink) -> RBLink {
    match l {
        None => None,
        Some(n) => Some(with_color(n, Color::Black)),
    }
}

/// Whether the left child of `g` is red with a red child.
pub open spec fn red_pair_left(g: Box<Node>) -> bool {
    !is_black(g.left) && (!is_black(g.left.unwrap().left) || !is_black(g.left.unwrap().right))
}

/// Whether the right child of `g` is red with a red child.
pub open spec fn red_pair_right(g: Box<Node>) -> bool {
    !is_black(g.right) && (!is_black(g.right.unwrap().left) || !is_black(g.right.unwrap().right))
}

/// `g` after repairing a red child with a red child on its left: with a red
/// uncle, parent and uncle turn black and `g` red; otherwise the red pair is
/// lined up on the outside (rotating the parent left if needed), the parent
/// turns black, `g` red, and `g` is rotated right.
pub open spec fn insert_fixed_left(g: Box<Node>) -> Box<Node> {
    if !red_pair_left(g) {
        g
    } else if !is_black(g.right) {
        node(g.key, Color::Red, blacken(g.left), blacken(g.right))
    } else {
        let p = g.left.unwrap();
        let p1 = if is_black(p.left) { rb_rotated_left(p) } else { p };
        rb_rotated_right(node(g.key, Color::Red, Some(with_color(p1, Color::Black)), g.right))
    }
}

/// The mirror image of `insert_fixed_left`.
pub open spec fn insert_fixed_right(g: Box<Node>) -> Box<Node> {
    if !red_pair_right(g) {
        g
    } else if !is_black(g.left) {
        node(g.key, Color::Red, blacken(g.left), blacken(g.right))
    } else {
        let p = g.right.unwrap();
        let p1 = if is_black(p.right) { rb_rotated_right(p) } else { p };
        rb_rotated_left(node(g.key, Color::Red, g.left, Some(with_color(p1, Color::Black))))
    }
}

/// A subtree after inserting `key` as a red leaf and repairing the colour rules
/// at each grandparent on the way back up (the root is not yet recoloured); a
/// present key changes nothing.
pub open spec fn rb_inserted(l: RBLink, key: u32) -> RBLink
    decreases l,
{
    match l {
        None => Some(node(key, Color::Red, None, None)),
        Some(n) => if key < n.key {
            Some(insert_fixed_left(node(n.key, n.color, rb_inserted(n.left, key), n.right)))
        } else if key > n.key {
            Some(insert_fixed_right(node(n.key, n.color, n.left, rb_inserted(n.right, key))))
        } else {
            l
        },
    }
}

/// Repairs a red node with a red child in the left subtree of `g` after an
/// insertion there: recolours when the uncle is red, else rotates (once or twice).
fn insert_fixup_left(g: Box<Node>) -> (r: Box<Node>)
    requires
        bst(Some(g)),
        red_ok(g.right),
        black_ok(g.left),
        black_ok(g.right),
        black_height(g.left) == black_height(g.right),
        red_ok_below(g.left),
        red_root_has_black_child(g.left),
        g.color == Color::Red ==> is_black(g.right),
        red_red_at_root(g.left) ==> g.color == Color::Black,
    ensures
        bst(Some(r)),
        black_ok(Some(r)),
        black_height(Some(r)) == black_height(Some(g)),
        keys(Some(r)) == keys(Some(g)),
        red_ok_below(Some(r)),
        g.color == Color::Black ==> red_ok(Some(r)),
        red_root_has_black_child(Some(r)),
        !red_red_at_root(g.left) ==> r == g,
        r == insert_fixed_left(g),
{
    let ghost g0 = g;
    let mut g = g;
    let parent_red = color_of(&g.left) == Color::Red;
    let child_red = match &g.left {
        Some(p) => color_of(&p.left) == Color::Red || color_of(&p.right) == Color::Red,
        None => false,
    };
    if !(parent_red && child_red) {
        proof {
            if g0.left is Some {
                assert(red_ok(g0.left));
            }
        }
        return g;
    }
    let ghost p0 = g0.left.unwrap();
    if color_of(&g.right) == Color::Red {
        let ghost u0 = g0.right.unwrap();
        set_color(&mut g.left, Color::Black);
        set_color(&mut g.right, Color::Black);
        g.color = Color::Red;
        proof {
            assert(bst(Some(p0)) && bst(Some(u0)));
            lemma_with_color(p0, Color::Black);
            lemma_with_color(u0, Color::Black);
            let p1 = g.left.unwrap();
            let u1 = g.right.unwrap();
            assert(keys(Some(p1)) == keys(Some(p0)));
            assert(keys(Some(u1)) == keys(Some(u0)));
            assert(black_height(Some(p1)) == black_height(Some(p0)) + 1);
            assert(black_height(Some(u1)) == black_height(Some(u0)) + 1);
            assert(black_ok(Some(p1)) && black_ok(Some(u1)));
            assert(red_ok(Some(p1)) && red_ok(Some(u1)));
            assert(bst(Some(p1)) && bst(Some(u1)));
            assert(keys(Some(g)) =~= keys(Some(g0)));
        }
        g
    } else {
        let mut p = g.left.take().unwrap();
        if color_of(&p.left) != Color::Red {
            let ghost z0 = p0.right.unwrap();
            p = rotate_left(p);
            proof {
                assert(black_ok(Some(p0)));
                assert(black_ok(Some(z0)));
                assert(z0.color == Color::Red);
                assert(red_ok(Some(z0)));
                assert(black_height(Some(z0)) == black_height(z0.left));
                let px = p.left.unwrap();
                assert(black_height(Some(px)) == black_height(p0.left));
                assert(black_ok(Some(px)));
                assert(red_ok(Some(px)));
                assert(black_ok(Some(p)));
                assert(black_height(p.right) == black_height(Some(p0)));
            }
        }
        let ghost p1 = p;
        proof {
            assert(bst(Some(p0)));
            assert(bst(Some(p1)));
            lemma_with_color(p1, Color::Black);
        }
        p.color = Color::Black;
        g.left = Some(p);
        g.color = Color::Red;
        let ghost pre = g;
        proof {
            assert(p == with_color(p1, Color::Black));
            assert(keys(Some(p)) == keys(Some(p1)));
            assert(bst(Some(p)));
            assert(keys(Some(pre)) =~= keys(Some(g0)));
            assert(bst(Some(pre)));
        }
        let r = rotate_right(g);
        proof {
            assert(black_ok(Some(p0)));
            assert(black_height(Some(p0)) == black_height(p0.right));
            assert(black_ok(Some(p1)));
            assert(black_height(p1.right) == black_height(Some(p0)));
            assert(black_height(g0.right) == black_height(Some(p0)));
            let ng = r.right.unwrap();
            assert(black_ok(Some(ng)));
            assert(red_ok(Some(ng)));
        }
        r
    }
}

/// Mirror image of `insert_fixup_left` for the right subtree of `g`.
fn insert_fixup_right(g: Box<Node>) -> (r: Box<Node>)
    requires
        bst(Some(g)),
        red_ok(g.left),
        black_ok(g.left),
        black_ok(g.right),
        black_height(g.left) == black_height(g.right),
        red_ok_below(g.right),
        red_root_has_black_child(g.right),
        g.color == Color::Red ==> is_black(g.left),
        red_red_at_root(g.right) ==> g.color == Color::Black,
    ensures
        bst(Some(r)),
        black_ok(Some(r)),
        black_height(Some(r)) == black_height(Some(g)),
        keys(Some(r)) == keys(Some(g)),
        red_ok_below(Some(r)),
        g.color == Color::Black ==> red_ok(Some(r)),
        red_root_has_black_child(Some(r)),
        !red_red_at_root(g.right) ==> r == g,
        r == insert_fixed_right(g),
{
    let ghost g0 = g;
    let mut g = g;
    let parent_red = color_of(&g.right) == Color::Red;
    let child_red = match &g.right {
        Some(p) => color_of(&p.left) == Color::Red || color_of(&p.right) == Color::Red,
        None => false,
    };
    if !(parent_red && child_red) {
        proof {
            if g0.right is Some {
                assert(red_ok(g0.right));
            }
        }
        return g;
    }
    let ghost p0 = g0.right.unwrap();
    if color_of(&g.left) == Color::Red {
        let ghost u0 = g0.left.unwrap();
        set_color(&mut g.right, Color::Black);
        set_color(&mut g.left, Color::Black);
        g.color = Color::Red;
        proof {
            assert(bst(Some(p0)) && bst(Some(u0)));
            lemma_with_color(p0, Color::Black);
            lemma_with_color(u0, Color::Black);
            let p1 = g.right.unwrap();
            let u1 = g.left.unwrap();
            assert(keys(Some(p1)) == keys(Some(p0)));
            assert(keys(Some(u1)) == keys(Some(u0)));
            assert(black_height(Some(p1)) == black_height(Some(p0)) + 1);
            assert(black_height(Some(u1)) == black_height(Some(u0)) + 1);
            assert(black_ok(Some(p1)) && black_ok(Some(u1)));
            assert(red_ok(Some(p1)) && red_ok(Some(u1)));
            assert(bst(Some(p1)) && bst(Some(u1)));
            assert(keys(Some(g)) =~= keys(Some(g0)));
        }
        g
    } else {
        let mut p = g.right.take().unwrap();
        if color_of(&p.right) != Color::Red {
            let ghost z0 = p0.left.unwrap();
            p = rotate_right(p);
            proof {
                assert(black_ok(Some(p0)));
                assert(black_ok(Some(z0)));
                assert(z0.color == Color::Red);
                assert(red_ok(Some(z0)));
                assert(black_height(Some(z0)) == black_height(z0.left));
                let px = p.right.unwrap();
                assert(black_height(Some(px)) == black_height(z0.right));
                assert(black_height(Some(px)) == black_height(p0.right));
                assert(black_ok(Some(px)));
                assert(red_ok(Some(px)));
                assert(black_ok(Some(p)));
                assert(black_height(p.left) == black_height(Some(p0)));
            }
        }
        let ghost p1 = p;
        proof {
            assert(bst(Some(p0)));
            assert(bst(Some(p1)));
            lemma_with_color(p1, Color::Black);
        }
        p.color = Color::Black;
        g.right = Some(p);
        g.color = Color::Red;
        let ghost pre = g;
        proof {
            assert(p == with_color(p1, Color::Black));
            assert(keys(Some(p)) == keys(Some(p1)));
            assert(bst(Some(p)));
            assert(keys(Some(pre)) =~= keys(Some(g0)));
            assert(bst(Some(pre)));
        }
        let r = rotate_left(g);
        proof {
            assert(black_ok(Some(p0)));
            assert(black_height(Some(p0)) == black_height(p0.left));
            assert(black_ok(Some(p1)));
            assert(black_height(p1.left) == black_height(Some(p0)));
            assert(black_height(g0.left) == black_height(Some(p0)));
            let ng = r.left.unwrap();
            assert(black_height(Some(ng)) == black_height(g0.left));
            assert(black_height(Some(r)) == black_height(Some(ng)) + 1);
            assert(black_ok(Some(ng)));
            assert(red_ok(Some(ng)));
        }
        r
    }
}


/// A red-black tree of distinct `u32` keys.
pub struct RedBlackTree {
    root: RBLink,
}

impl View for RedBlackTree {
    type V = Set<u32>;

    /// The set of keys in the tree.
    open spec fn view(&self) -> Set<u32> {
        keys(self.root_link())
    }
}

impl RedBlackTree {
    /// The tree's root link.
    pub closed spec fn root_link(&self) -> RBLink {
        self.root
    }

    /// The red-black invariant with a black root.
    pub open spec fn wf(&self) -> bool {
        rb_wf(self.root_link()) && is_black(self.root_link())
    }

    /// The tree `insert(key)` leaves: the root of `rb_inserted`, coloured black.
    pub closed spec fn with_inserted(self, key: u32) -> RedBlackTree {
        RedBlackTree { root: blacken(rb_inserted(self.root, key)) }
    }

    /// The tree `delete(key)` leaves: unchanged when `key` is absent, else the
    /// subtree of `rb_deleted`.
    pub closed spec fn with_deleted(self, key: u32) -> RedBlackTree {
        if keys(self.root).contains(key) {
            RedBlackTree { root: rb_deleted(self.root, key).0 }
        } else {
            self
        }
    }

    /// An empty tree.
    pub fn new() -> (t: Self)
        ensures
            t.wf(),
            t.root_link() is None,
            t@ == Set::<u32>::empty(),
    {
        RedBlackTree { root: None }
    }

    /// Inserts `key` as a red leaf and restores the colour rules on the way
    /// back up; a key already present leaves the tree unchanged.
    pub fn insert(&mut self, key: u32)
        requires
            old(self).wf(),
        ensures
            final(self).wf(),
            final(self)@ == old(self)@.insert(key),
            old(self)@.contains(key) ==> final(self).root_link() == old(self).root_link(),
            final(self).root_link() == blacken(rb_inserted(old(self).root_link(), key)),
            *final(self) == old(self).with_inserted(key),
    {
        let root = self.root.take();
        let ghost r0 = root;
        let mut new_root = Self::insert_rec(root, key);
        proof {
            if keys(r0).contains(key) {
                assert(new_root == r0);
                lemma_with_color(new_root.unwrap(), Color::Black);
                assert(new_root.unwrap() == with_color(new_root.unwrap(), Color::Black));
            }
            lemma_with_color(new_root.unwrap(), Color::Black);
        }
        set_color(&mut new_root, Color::Black);
        self.root = new_root;
    }

    fn insert_rec(node: RBLink, key: u32) -> (r: RBLink)
        requires
            rb_wf(node),
        ensures
            r is Some,
            bst(r),
            black_ok(r),
            black_height(r) == black_height(node),
            keys(r) == keys(node).insert(key),
            red_ok_below(r),
            is_black(node) ==> red_ok(r),
            red_root_has_black_child(r),
            keys(node).contains(key) ==> r == node,
            r == rb_inserted(node, key),
        decreases node,
    {
        match node {
            None => {
                let n = Node::new(key);
                assert(keys(node).insert(key) =~= set![key]);
                Some(n)
            },
            Some(mut n) => {
                let ghost g = n;
                assert(rb_wf(g.left) && rb_wf(g.right));
                let node_key = n.key;
                if key < node_key {
                    let left = n.left.take();
                    n.left = Self::insert_rec(left, key);
                    let ghost pre = n;
                    proof {
                        if keys(g.right).contains(key) {
                            assert(false);
                        }
                        assert(bst(Some(pre)));
                        if red_red_at_root(pre.left) {
                            assert(!is_black(g.left));
                        }
                    }
                    let r = insert_fixup_left(n);
                    proof {
                        assert(keys(Some(pre)) =~= keys(Some(g)).insert(key));
                        if keys(Some(g)).contains(key) {
                            assert(keys(g.left).contains(key));
                            assert(pre == g);
                            assert(red_ok(g.left));
                        }
                    }
                    Some(r)
                } else if key > node_key {
                    let right = n.right.take();
                    n.right = Self::insert_rec(right, key);
                    let ghost pre = n;
                    proof {
                        if keys(g.left).contains(key) {
                            assert(false);
                        }
                        assert(bst(Some(pre)));
                        if red_red_at_root(pre.right) {
                            assert(!is_black(g.right));
                        }
                    }
                    let r = insert_fixup_right(n);
                    proof {
                        assert(keys(Some(pre)) =~= keys(Some(g)).insert(key));
                        if keys(Some(g)).contains(key) {
                            assert(keys(g.right).contains(key));
                            assert(pre == g);
                            assert(red_ok(g.right));
                        }
                    }
                    Some(r)
                } else {
                    assert(keys(Some(g)) =~= keys(Some(g)).insert(key));
                    Some(n)
                }
            },
        }
    }
}


/// The black height a node would have if its subtrees were equal: that of its
/// right subtree plus one for a black node.
pub open spec fn target_height(right: RBLink, c: Color) -> nat {
    black_height(right) + if c == Color::Black { 1nat } else { 0nat }
}

/// A black non-empty subtree has black height at least one.
proof fn lemma_black_node_height(l: RBLink)
    requires
        l is Some,
        is_black(l),
    ensures
        black_height(l) >= 1,
{
}

/// `p` after a deletion left `p.left` one black node short while its sibling
/// `w = p.right` is black, with a flag saying whether the whole subtree is still
/// one black node short: a sibling with two black children turns red (and a red
/// `p` black, which ends the repair); otherwise the sibling's red child is
/// brought to its far side and the sibling is rotated up over `p`.
pub open spec fn delete_fixed_left_black(p: Box<Node>) -> (Box<Node>, bool) {
    let w = p.right.unwrap();
    if is_black(w.left) && is_black(w.right) {
        let p2 = node(p.key, p.color, p.left, Some(with_color(w, Color::Red)));
        if p.color == Color::Red {
            (with_color(p2, Color::Black), false)
        } else {
            (p2, true)
        }
    } else {
        let w1 = if is_black(w.right) {
            rb_rotated_right(node(w.key, Color::Red, blacken(w.left), w.right))
        } else {
            w
        };
        (
            rb_rotated_left(
                node(p.key, Color::Black, p.left, Some(node(w1.key, p.color, w1.left, blacken(w1.right)))),
            ),
            false,
        )
    }
}

/// The mirror image of `delete_fixed_left_black`.
pub open spec fn delete_fixed_right_black(p: Box<Node>) -> (Box<Node>, bool) {
    let w = p.left.unwrap();
    if is_black(w.right) && is_black(w.left) {
        let p2 = node(p.key, p.color, Some(with_color(w, Color::Red)), p.right);
        if p.color == Color::Red {
            (with_color(p2, Color::Black), false)
        } else {
            (p2, true)
        }
    } else {
        let w1 = if is_black(w.left) {
            rb_rotated_left(node(w.key, Color::Red, w.left, blacken(w.right)))
        } else {
            w
        };
        (
            rb_rotated_right(
                node(p.key, Color::Black, Some(node(w1.key, p.color, blacken(w1.left), w1.right)), p.right),
            ),
            false,
        )
    }
}

/// `p` after a deletion left `p.left` one black node short: a red sibling is
/// first rotated up over `p` (recoloured black, `p` red) and the repair goes on
/// below it, which then always completes.
pub open spec fn delete_fixed_left(p: Box<Node>) -> (Box<Node>, bool) {
    if !is_black(p.right) {
        let top = rb_rotated_left(node(p.key, Color::Red, p.left, blacken(p.right)));
        let fixed = delete_fixed_left_black(top.left.unwrap());
        (node(top.key, top.color, Some(fixed.0), top.right), false)
    } else {
        delete_fixed_left_black(p)
    }
}

/// The mirror image of `delete_fixed_left`.
pub open spec fn delete_fixed_right(p: Box<Node>) -> (Box<Node>, bool) {
    if !is_black(p.left) {
        let top = rb_rotated_right(node(p.key, Color::Red, blacken(p.left), p.right));
        let fixed = delete_fixed_right_black(top.right.unwrap());
        (node(top.key, top.color, top.left, Some(fixed.0)), false)
    } else {
        delete_fixed_right_black(p)
    }
}

/// A subtree spliced out at its root, which has at most one child `x`: a black
/// root passes its blackness to a red `x`, or else leaves the subtree one black
/// node short (the flag).
pub open spec fn spliced(color: Color, x: RBLink) -> (RBLink, bool) {
    if color == Color::Black {
        if !is_black(x) {
            (blacken(x), false)
        } else {
            (x, true)
        }
    } else {
        (x, false)
    }
}

/// A subtree without its smallest key, that key, and whether the subtree came
/// out one black node short; the repair is made at each node on the way up.
pub open spec fn rb_min_deleted(n: Box<Node>) -> (RBLink, u32, bool)
    decreases n,
{
    match n.left {
        None => {
            let s = spliced(n.color, n.right);
            (s.0, n.key, s.1)
        },
        Some(l) => {
            let d = rb_min_deleted(l);
            let q = node(n.key, n.color, d.0, n.right);
            if d.2 {
                let f = delete_fixed_left(q);
                (Some(f.0), d.1, f.1)
            } else {
                (Some(q), d.1, false)
            }
        },
    }
}

/// A subtree after deleting `key` from it, and whether it came out one black
/// node short: a node with at most one child is spliced out; a node with two
/// takes the smallest key of its right subtree, which is deleted there; the
/// repair is made at each node on the way up.
pub open spec fn rb_deleted(l: RBLink, key: u32) -> (RBLink, bool)
    decreases l,
{
    match l {
        None => (None, false),
        Some(n) => if key < n.key {
            let d = rb_deleted(n.left, key);
            let q = node(n.key, n.color, d.0, n.right);
            if d.1 {
                let f = delete_fixed_left(q);
                (Some(f.0), f.1)
            } else {
                (Some(q), false)
            }
        } else if key > n.key {
            let d = rb_deleted(n.right, key);
            let q = node(n.key, n.color, n.left, d.0);
            if d.1 {
                let f = delete_fixed_right(q);
                (Some(f.0), f.1)
            } else {
                (Some(q), false)
            }
        } else {
            match n.left {
                None => spliced(n.color, n.right),
                Some(_) => match n.right {
                    None => spliced(n.color, n.left),
                    Some(r) => {
                        let d = rb_min_deleted(r);
                        let q = node(d.1, n.color, n.left, d.0);
                        if d.2 {
                            let f = delete_fixed_right(q);
                            (Some(f.0), f.1)
                        } else {
                            (Some(q), false)
                        }
                    },
                },
            }
        },
    }
}

/// After a deletion left the subtree `x = p.left` one black node short, with a
/// black sibling `w = p.right`: either recolours `w` red and pushes the shortage up
/// to `p` (returned flag set), or rotates once or twice to absorb it.
fn delete_fixup_left_black(p: Box<Node>) -> (res: (Box<Node>, bool))
    requires
        bst(Some(p)),
        rb_wf(p.left),
        rb_wf(p.right),
        is_black(p.left),
        p.right is Some,
        is_black(p.right),
        black_height(p.left) + 1 == black_height(p.right),
    ensures
        rb_wf(Some(res.0)),
        keys(Some(res.0)) == keys(Some(p)),
        black_height(Some(res.0)) + (if res.1 { 1nat } else { 0nat }) == target_height(p.right, p.color),
        res.1 ==> res.0.color == Color::Black,
        p.color == Color::Black ==> res.0.color == Color::Black,
        p.color == Color::Red ==> !res.1,
        res == delete_fixed_left_black(p),
{
    let ghost p0 = p;
    let mut p = p;
    let mut w = p.right.take().unwrap();
    let ghost w0 = w;
    proof {
        assert(rb_wf(Some(w0)));
        assert(rb_wf(w0.left) && rb_wf(w0.right));
        assert(black_height(w0.left) == black_height(w0.right));
        assert(black_height(Some(w0)) == black_height(w0.left) + 1);
    }
    if color_of(&w.left) == Color::Black && color_of(&w.right) == Color::Black {
        // the sibling and both its children are black: recolour the sibling red
        w.color = Color::Red;
        proof {
            lemma_with_color(w0, Color::Red);
            assert(w == with_color(w0, Color::Red));
            assert(red_ok(Some(w)));
        }
        p.right = Some(w);
        if p.color == Color::Red {
            p.color = Color::Black;
            proof {
                assert(keys(Some(p)) =~= keys(Some(p0)));
                assert(rb_wf(Some(p)));
            }
            (p, false)
        } else {
            proof {
                assert(keys(Some(p)) =~= keys(Some(p0)));
                assert(rb_wf(Some(p)));
            }
            (p, true)
        }
    } else {
        if color_of(&w.right) == Color::Black {
            // the sibling's near child is red: rotate it up to become the new sibling
            let ghost wl0 = w0.left.unwrap();
            proof {
                assert(rb_wf(Some(wl0)));
                assert(is_black(wl0.left) && is_black(wl0.right));
                lemma_with_color(wl0, Color::Black);
            }
            set_color(&mut w.left, Color::Black);
            w.color = Color::Red;
            let ghost w1 = w;
            proof {
                assert(keys(Some(w1)) =~= keys(Some(w0)));
                assert(bst(Some(w1)));
            }
            w = rotate_right(w);
            proof {
                let wr = w.right.unwrap();
                assert(black_height(Some(wr)) == black_height(wl0.right));
                assert(rb_wf(Some(wr)));
                assert(rb_wf(Some(w)));
                assert(black_height(Some(w)) == black_height(Some(w0)));
            }
        }
        // the sibling's far child is red: rotate the sibling up over `p`
        let ghost w2 = w;
        let ghost wr2 = w2.right.unwrap();
        proof {
            assert(rb_wf(Some(w2)));
            assert(rb_wf(w2.left) && rb_wf(w2.right));
            lemma_with_color(wr2, Color::Black);
        }
        w.color = p.color;
        p.color = Color::Black;
        set_color(&mut w.right, Color::Black);
        p.right = Some(w);
        let ghost pre = p;
        proof {
            assert(keys(Some(w)) =~= keys(Some(w2)));
            assert(keys(Some(pre)) =~= keys(Some(p0)));
            assert(bst(Some(w)));
            assert(bst(Some(pre)));
        }
        let r = rotate_left(p);
        proof {
            let nl = r.left.unwrap();
            assert(black_height(Some(nl)) == black_height(p0.left) + 1);
            assert(rb_wf(Some(nl)));
            assert(rb_wf(r.right));
            assert(rb_wf(Some(r)));
        }
        (r, false)
    }
}

/// Mirror image of `delete_fixup_left_black`: `x = p.right` is one black node
/// short and its sibling `p.left` is black.
fn delete_fixup_right_black(p: Box<Node>) -> (res: (Box<Node>, bool))
    requires
        bst(Some(p)),
        rb_wf(p.left),
        rb_wf(p.right),
        is_black(p.right),
        p.left is Some,
        is_black(p.left),
        black_height(p.right) + 1 == black_height(p.left),
    ensures
        rb_wf(Some(res.0)),
        keys(Some(res.0)) == keys(Some(p)),
        black_height(Some(res.0)) + (if res.1 { 1nat } else { 0nat }) == target_height(p.left, p.color),
        res.1 ==> res.0.color == Color::Black,
        p.color == Color::Black ==> res.0.color == Color::Black,
        p.color == Color::Red ==> !res.1,
        res == delete_fixed_right_black(p),
{
    let ghost p0 = p;
    let mut p = p;
    let mut w = p.left.take().unwrap();
    let ghost w0 = w;
    proof {
        assert(rb_wf(Some(w0)));
        assert(rb_wf(w0.left) && rb_wf(w0.right));
        assert(black_height(w0.left) == black_height(w0.right));
        assert(black_height(Some(w0)) == black_height(w0.left) + 1);
    }
    if color_of(&w.right) == Color::Black && color_of(&w.left) == Color::Black {
        w.color = Color::Red;
        proof {
            lemma_with_color(w0, Color::Red);
            assert(w == with_color(w0, Color::Red));
            assert(red_ok(Some(w)));
        }
        p.left = Some(w);
        if p.color == Color::Red {
            p.color = Color::Black;
            proof {
                assert(keys(Some(p)) =~= keys(Some(p0)));
                assert(rb_wf(Some(p)));
            }
            (p, false)
        } else {
            proof {
                assert(keys(Some(p)) =~= keys(Some(p0)));
                assert(rb_wf(Some(p)));
            }
            (p, true)
        }
    } else {
        if color_of(&w.left) == Color::Black {
            let ghost wr0 = w0.right.unwrap();
            proof {
                assert(rb_wf(Some(wr0)));
                assert(is_black(wr0.left) && is_black(wr0.right));
                lemma_with_color(wr0, Color::Black);
            }
            set_color(&mut w.right, Color::Black);
            w.color = Color::Red;
            let ghost w1 = w;
            proof {
                assert(keys(Some(w1)) =~= keys(Some(w0)));
                assert(bst(Some(w1)));
            }
            w = rotate_left(w);
            proof {
                let wl = w.left.unwrap();
                assert(black_height(Some(wl)) == black_height(w0.left));
                assert(rb_wf(Some(wl)));
                assert(rb_wf(Some(w)));
                assert(black_height(Some(w)) == black_height(Some(w0)));
            }
        }
        let ghost w2 = w;
        let ghost wl2 = w2.left.unwrap();
        proof {
            assert(rb_wf(Some(w2)));
            assert(rb_wf(w2.left) && rb_wf(w2.right));
            lemma_with_color(wl2, Color::Black);
        }
        w.color = p.color;
        p.color = Color::Black;
        set_color(&mut w.left, Color::Black);
        p.left = Some(w);
        let ghost pre = p;
        proof {
            assert(keys(Some(w)) =~= keys(Some(w2)));
            assert(keys(Some(pre)) =~= keys(Some(p0)));
            assert(bst(Some(w)));
            assert(bst(Some(pre)));
        }
        let r = rotate_right(p);
        proof {
            let nr = r.right.unwrap();
            assert(black_height(Some(nr)) == black_height(p0.right) + 1);
            assert(rb_wf(Some(nr)));
            assert(rb_wf(r.left));
            assert(rb_wf(Some(r)));
        }
        (r, false)
    }
}


/// Restores the black-height rule after a deletion left `x = p.left` one black
/// node short. A red sibling is first rotated up over `p` so that `x` gets a
/// black sibling; the returned flag says whether the whole subtree is still
/// one black node short.
fn delete_fixup_left(p: Box<Node>) -> (res: (Box<Node>, bool))
    requires
        bst(Some(p)),
        rb_wf(p.left),
        rb_wf(p.right),
        is_black(p.left),
        black_height(p.left) + 1 == black_height(p.right),
        p.color == Color::Red ==> is_black(p.right),
    ensures
        rb_wf(Some(res.0)),
        keys(Some(res.0)) == keys(Some(p)),
        black_height(Some(res.0)) + (if res.1 { 1nat } else { 0nat }) == target_height(p.right, p.color),
        res.1 ==> res.0.color == Color::Black,
        p.color == Color::Black ==> res.0.color == Color::Black,
        p.color == Color::Red ==> !res.1,
        res == delete_fixed_left(p),
{
    if color_of(&p.right) == Color::Red {
        let ghost p0 = p;
        let ghost w0 = p0.right.unwrap();
        proof {
            assert(rb_wf(Some(w0)));
            assert(rb_wf(w0.left) && rb_wf(w0.right));
            assert(is_black(w0.left) && is_black(w0.right));
            lemma_with_color(w0, Color::Black);
        }
        let mut p = p;
        set_color(&mut p.right, Color::Black);
        p.color = Color::Red;
        let ghost pre = p;
        proof {
            assert(keys(Some(pre)) =~= keys(Some(p0)));
            assert(bst(Some(pre)));
        }
        let mut top = rotate_left(p);
        let ghost t0 = top;
        let inner = top.left.take().unwrap();
        let ghost gi = inner;
        proof {
            assert(black_height(w0.left) == black_height(p0.left) + 1);
            lemma_black_node_height(w0.left);
            assert(bst(Some(t0)));
            assert(bst(Some(gi)));
        }
        let (fixed, still_short) = delete_fixup_left_black(inner);
        proof {
            assert(gi.color == Color::Red);
            assert(gi.right == w0.left);
            assert(black_height(Some(fixed)) == black_height(w0.left));
            assert(black_height(w0.left) == black_height(w0.right));
            assert(t0.right == w0.right);
        }
        top.left = Some(fixed);
        proof {
            assert(keys(Some(top)) =~= keys(Some(t0)));
            assert(keys(Some(top)) =~= keys(Some(p0)));
            assert(bst(Some(top)));
            assert(black_ok(Some(top)));
            assert(red_ok(Some(top)));
        }
        (top, false)
    } else {
        proof {
            lemma_black_node_height(p.right);
        }
        delete_fixup_left_black(p)
    }
}

/// Mirror image of `delete_fixup_left` for a shortage in `p.right`.
fn delete_fixup_right(p: Box<Node>) -> (res: (Box<Node>, bool))
    requires
        bst(Some(p)),
        rb_wf(p.left),
        rb_wf(p.right),
        is_black(p.right),
        black_height(p.right) + 1 == black_height(p.left),
        p.color == Color::Red ==> is_black(p.left),
    ensures
        rb_wf(Some(res.0)),
        keys(Some(res.0)) == keys(Some(p)),
        black_height(Some(res.0)) + (if res.1 { 1nat } else { 0nat }) == target_height(p.left, p.color),
        res.1 ==> res.0.color == Color::Black,
        p.color == Color::Black ==> res.0.color == Color::Black,
        p.color == Color::Red ==> !res.1,
        res == delete_fixed_right(p),
{
    if color_of(&p.left) == Color::Red {
        let ghost p0 = p;
        let ghost w0 = p0.left.unwrap();
        proof {
            assert(rb_wf(Some(w0)));
            assert(rb_wf(w0.left) && rb_wf(w0.right));
            assert(is_black(w0.left) && is_black(w0.right));
            lemma_with_color(w0, Color::Black);
        }
        let mut p = p;
        set_color(&mut p.left, Color::Black);
        p.color = Color::Red;
        let ghost pre = p;
        proof {
            assert(keys(Some(pre)) =~= keys(Some(p0)));
            assert(bst(Some(pre)));
        }
        let mut top = rotate_right(p);
        let ghost t0 = top;
        let inner = top.right.take().unwrap();
        let ghost gi = inner;
        proof {
            assert(black_height(w0.right) == black_height(p0.right) + 1);
            lemma_black_node_height(w0.right);
            assert(bst(Some(t0)));
            assert(bst(Some(gi)));
        }
        let (fixed, still_short) = delete_fixup_right_black(inner);
        proof {
            assert(gi.color == Color::Red);
            assert(gi.left == w0.right);
            assert(black_height(Some(fixed)) == black_height(w0.right));
            assert(black_height(w0.right) == black_height(w0.left));
            assert(t0.left == w0.left);
        }
        top.right = Some(fixed);
        proof {
            assert(keys(Some(top)) =~= keys(Some(t0)));
            assert(keys(Some(top)) =~= keys(Some(p0)));
            assert(bst(Some(top)));
            assert(black_ok(Some(top)));
            assert(red_ok(Some(top)));
        }
        (top, false)
    } else {
        proof {
            lemma_black_node_height(p.left);
        }
        delete_fixup_right_black(p)
    }
}


impl RedBlackTree {
    /// Removes `key`; returns whether it was present.
    pub fn delete(&mut self, key: u32) -> (deleted: bool)
        requires
            old(self).wf(),
        ensures
            final(self).wf(),
            final(self)@ == old(self)@.remove(key),
            deleted == old(self)@.contains(key),
            !deleted ==> final(self).root_link() == old(self).root_link(),
            deleted ==> final(self).root_link() == rb_deleted(old(self).root_link(), key).0,
            *final(self) == old(self).with_deleted(key),
    {
        if self.find_node(key).is_none() {
            assert(old(self)@.remove(key) =~= old(self)@);
            return false;
        }
        let root = self.root.take();
        let (new_root, _) = Self::delete_node(root, key);
        self.root = new_root;
        true
    }

    /// The node holding `key`, if any.
    fn find_node(&self, key: u32) -> (found: Option<&Box<Node>>)
        requires
            self.wf(),
        ensures
            found is Some <==> self@.contains(key),
            found is Some ==> found.unwrap().key == key,
    {
        let mut current: &RBLink = &self.root;
        loop
            invariant
                bst(*current),
                self@.contains(key) == keys(*current).contains(key),
            decreases height_of(*current),
        {
            match current {
                None => {
                    return None;
                },
                Some(node) => {
                    let k = node.key;
                    if key == k {
                        return Some(node);
                    } else if key < k {
                        proof {
                            if keys(node.right).contains(key) {
                                assert(false);
                            }
                        }
                        current = &node.left;
                    } else {
                        proof {
                            if keys(node.left).contains(key) {
                                assert(false);
                            }
                        }
                        current = &node.right;
                    }
                },
            }
        }
    }

    /// Removes `key` (which must be present) from a subtree. The flag says whether
    /// the result is one black node short of the subtree's former black height.
    fn delete_node(node: RBLink, key: u32) -> (res: (RBLink, bool))
        requires
            rb_wf(node),
            keys(node).contains(key),
        ensures
            rb_wf(res.0),
            keys(res.0) == keys(node).remove(key),
            black_height(res.0) + (if res.1 { 1nat } else { 0nat }) == black_height(node),
            res.1 ==> is_black(res.0),
            is_black(node) ==> is_black(res.0),
            res == rb_deleted(node, key),
        decreases node,
    {
        let mut n = node.unwrap();
        let ghost g = n;
        proof {
            assert(rb_wf(g.left) && rb_wf(g.right));
            assert(black_height(Some(g)) == target_height(g.right, g.color));
        }
        if key < n.key {
            proof {
                if keys(g.right).contains(key) {
                    assert(false);
                }
            }
            let left = n.left.take();
            let (new_left, short) = Self::delete_node(left, key);
            n.left = new_left;
            let ghost pre = n;
            proof {
                assert(bst(Some(pre)));
                assert(keys(Some(pre)) =~= keys(Some(g)).remove(key));
            }
            if short {
                let (r, short2) = delete_fixup_left(n);
                (Some(r), short2)
            } else {
                (Some(n), false)
            }
        } else if key > n.key {
            proof {
                if keys(g.left).contains(key) {
                    assert(false);
                }
            }
            let right = n.right.take();
            let (new_right, short) = Self::delete_node(right, key);
            n.right = new_right;
            let ghost pre = n;
            proof {
                assert(bst(Some(pre)));
                assert(keys(Some(pre)) =~= keys(Some(g)).remove(key));
            }
            if short {
                let (r, short2) = delete_fixup_right(n);
                (Some(r), short2)
            } else {
                (Some(n), false)
            }
        } else if n.left.is_none() || n.right.is_none() {
            // the node has at most one child, which takes its place
            proof {
                assert(!keys(g.left).contains(key));
                assert(!keys(g.right).contains(key));
                if g.color == Color::Red {
                    if g.left is Some {
                        lemma_black_node_height(g.left);
                    }
                    if g.right is Some {
                        lemma_black_node_height(g.right);
                    }
                }
            }
            let mut x = if n.left.is_some() { n.left.take() } else { n.right.take() };
            proof {
                assert(keys(x) =~= keys(Some(g)).remove(key));
            }
            if n.color == Color::Black {
                if color_of(&x) == Color::Red {
                    proof {
                        lemma_with_color(x.unwrap(), Color::Black);
                    }
                    set_color(&mut x, Color::Black);
                    (x, false)
                } else {
                    (x, true)
                }
            } else {
                (x, false)
            }
        } else {
            // two children: the smallest key of the right subtree replaces this one
            let right = n.right.take().unwrap();
            proof {
                assert(!keys(g.right).contains(key));
            }
            let (new_right, successor_key, short) = Self::delete_min(right);
            n.key = successor_key;
            n.right = new_right;
            let ghost pre = n;
            proof {
                assert forall|k: u32| #[trigger] keys(pre.left).contains(k) implies k
                    < successor_key by {
                    assert(keys(g.right).contains(successor_key));
                }
                assert forall|k: u32| #[trigger] keys(pre.right).contains(k) implies successor_key
                    < k by {
                    assert(keys(g.right).contains(k));
                }
                assert(bst(Some(pre)));
                assert(keys(Some(pre)) == keys(pre.left).union(keys(pre.right)).insert(successor_key));
                assert(keys(Some(g)) == keys(g.left).union(keys(g.right)).insert(key));
                assert(pre.left == g.left);
                assert(keys(g.right).contains(successor_key));
                assert(keys(Some(pre)) =~= keys(Some(g)).remove(key));
            }
            if short {
                let (r, short2) = delete_fixup_right(n);
                (Some(r), short2)
            } else {
                (Some(n), false)
            }
        }
    }

    /// Removes the smallest key of a non-empty subtree; returns the new subtree,
    /// that key, and whether the subtree lost one black node of height.
    fn delete_min(node: Box<Node>) -> (res: (RBLink, u32, bool))
        requires
            rb_wf(Some(node)),
        ensures
            keys(Some(node)).contains(res.1),
            forall|k: u32| #[trigger] keys(Some(node)).contains(k) ==> res.1 <= k,
            rb_wf(res.0),
            keys(res.0) == keys(Some(node)).remove(res.1),
            black_height(res.0) + (if res.2 { 1nat } else { 0nat }) == black_height(Some(node)),
            res.2 ==> is_black(res.0),
            is_black(Some(node)) ==> is_black(res.0),
            res == rb_min_deleted(node),
        decreases node,
    {
        let ghost g = node;
        let mut n = node;
        proof {
            assert(rb_wf(g.left) && rb_wf(g.right));
            assert(black_height(Some(g)) == target_height(g.right, g.color));
            assert(keys(Some(g)).contains(g.key));
        }
        if n.left.is_none() {
            let mut x = n.right.take();
            let k = n.key;
            proof {
                assert(keys(g.left) =~= Set::<u32>::empty());
                assert(!keys(g.right).contains(k));
                assert(keys(x) =~= keys(Some(g)).remove(k));
                assert forall|j: u32| #[trigger] keys(Some(g)).contains(j) implies k <= j by {
                    if j != k {
                        assert(keys(g.right).contains(j));
                    }
                }
                if g.color == Color::Red && g.right is Some {
                    lemma_black_node_height(g.right);
                }
            }
            if n.color == Color::Black {
                if color_of(&x) == Color::Red {
                    proof {
                        lemma_with_color(x.unwrap(), Color::Black);
                    }
                    set_color(&mut x, Color::Black);
                    (x, k, false)
                } else {
                    (x, k, true)
                }
            } else {
                (x, k, false)
            }
        } else {
            let left = n.left.take().unwrap();
            let (new_left, m, short) = Self::delete_min(left);
            n.left = new_left;
            let ghost pre = n;
            proof {
                assert(keys(g.left).contains(m));
                assert(m < g.key);
                if keys(g.right).contains(m) {
                    assert(g.key < m);
                }
                assert(bst(Some(pre)));
                assert(keys(Some(pre)) =~= keys(Some(g)).remove(m));
                assert forall|j: u32| #[trigger] keys(Some(g)).contains(j) implies m <= j by {
                    if keys(g.left).contains(j) {
                    } else if j != g.key {
                        assert(keys(g.right).contains(j));
                    }
                }
            }
            if short {
                let (r, short2) = delete_fixup_left(n);
                (Some(r), m, short2)
            } else {
                (Some(n), m, false)
            }
        }
    }

    /// The number of leaves in the tree.
    pub fn count_leaves(&self) -> (n: usize)
        requires
            self.wf(),
        ensures
            n == leaves_of(self.root_link()),
    {
        Self::count_leaves_rec(&self.root)
    }

    fn count_leaves_rec(node: &RBLink) -> (n: usize)
        requires
            bst(*node),
        ensures
            n == leaves_of(*node),
        decreases node,
    {
        proof {
            lemma_bst_size_u32(*node);
            lemma_leaves_size(*node);
        }
        match node {
            None => 0,
            Some(n) => {
                if n.left.is_none() && n.right.is_none() {
                    1
                } else {
                    Self::count_leaves_rec(&n.left) + Self::count_leaves_rec(&n.right)
                }
            },
        }
    }

    /// The height of the tree (0 for the empty tree).
    pub fn height(&self) -> (h: usize)
        requires
            self.wf(),
        ensures
            h == height_of(self.root_link()),
    {
        Self::height_rec(&self.root)
    }

    fn height_rec(node: &RBLink) -> (h: usize)
        requires
            rb_wf(*node),
        ensures
            h == height_of(*node),
        decreases node,
    {
        proof {
            lemma_rb_height_bound(*node);
        }
        match node {
            None => 0,
            Some(n) => {
                proof {
                    assert(rb_wf(n.left) && rb_wf(n.right));
                }
                let hl = Self::height_rec(&n.left);
                let hr = Self::height_rec(&n.right);
                1 + if hl >= hr { hl } else { hr }
            },
        }
    }

    /// Whether the tree holds no key.
    pub fn is_empty(&self) -> (b: bool)
        ensures
            b == (self.root_link() is None),
            b == (self@ == Set::<u32>::empty()),
    {
        proof {
            if self.root is Some {
                assert(keys(self.root).contains(self.root.unwrap().key));
            }
        }
        self.root.is_none()
    }

    /// Whether `key` is in the tree.
    pub fn search(&self, key: u32) -> (found: bool)
        requires
            self.wf(),
        ensures
            found == self@.contains(key),
    {
        self.find_node(key).is_some()
    }
}

impl Default for RedBlackTree {
    fn default() -> (t: Self)
        ensures
            t.wf(),
            t@ == Set::<u32>::empty(),
    {
        Self::new()
    }
}


/// The keys of a search tree are finite and as many as its nodes.
pub proof fn lemma_keys_len(l: RBLink)
    requires
        bst(l),
    ensures
        keys(l).finite(),
        keys(l).len() == size_of(l),
    decreases l,
{
    if let Some(n) = l {
        lemma_keys_len(n.left);
        lemma_keys_len(n.right);
        assert(keys(n.left).disjoint(keys(n.right))) by {
            assert forall|k: u32| keys(n.left).contains(k) implies !keys(n.right).contains(k) by {
                assert(k < n.key);
            }
        }
        vstd::set_lib::lemma_set_disjoint_lens(keys(n.left), keys(n.right));
        let u = keys(n.left).union(keys(n.right));
        assert(!u.contains(n.key)) by {
            if keys(n.left).contains(n.key) {
                assert(n.key < n.key);
            }
            if keys(n.right).contains(n.key) {
                assert(n.key < n.key);
            }
        }
        assert(u + keys(n.left) =~= u);
    }
}

/// The in-order key sequence of a search tree is strictly increasing and holds
/// exactly the tree's keys.
pub proof fn lemma_inorder_sorted(l: RBLink)
    requires
        bst(l),
    ensures
        forall|i: int, j: int|
            0 <= i < j < inorder_of(l).len() ==> inorder_of(l)[i] < inorder_of(l)[j],
        forall|k: u32| keys(l).contains(k) <==> inorder_of(l).contains(k),
        inorder_of(l).len() == size_of(l),
    decreases l,
{
    if let Some(n) = l {
        lemma_inorder_sorted(n.left);
        lemma_inorder_sorted(n.right);
        let a = inorder_of(n.left);
        let b = inorder_of(n.right);
        let s = inorder_of(l);
        assert(s == a.push(n.key) + b);
        assert forall|i: int| 0 <= i < a.len() implies a[i] < n.key by {
            assert(a.contains(a[i]));
        }
        assert forall|i: int| 0 <= i < b.len() implies n.key < b[i] by {
            assert(b.contains(b[i]));
        }
        assert forall|i: int, j: int| 0 <= i < j < s.len() implies s[i] < s[j] by {
            if j < a.len() {
            } else if j == a.len() {
                assert(s[i] == a[i]);
            } else if i < a.len() {
                assert(s[i] == a[i] && s[j] == b[j - a.len() - 1]);
                assert(a[i] < n.key && n.key < b[j - a.len() - 1]);
            } else if i == a.len() {
                assert(s[j] == b[j - a.len() - 1]);
            } else {
                assert(s[i] == b[i - a.len() - 1] && s[j] == b[j - a.len() - 1]);
            }
        }
        assert forall|k: u32| keys(l).contains(k) <==> s.contains(k) by {
            if keys(n.left).contains(k) {
                let i = choose|i: int| 0 <= i < a.len() && a[i] == k;
                assert(s[i] == k);
            } else if keys(n.right).contains(k) {
                let i = choose|i: int| 0 <= i < b.len() && b[i] == k;
                assert(s[a.len() + 1 + i] == k);
            } else if k == n.key {
                assert(s[a.len() as int] == k);
            }
            if s.contains(k) {
                let i = choose|i: int| 0 <= i < s.len() && s[i] == k;
                if i < a.len() {
                    assert(a[i] == k);
                    assert(a.contains(k));
                } else if i > a.len() {
                    assert(b[i - a.len() - 1] == k);
                    assert(b.contains(k));
                }
            }
        }
    }
}

fn inorder_rec(node: &RBLink, out: &mut Vec<u32>)
    ensures
        final(out)@ == old(out)@ + inorder_of(*node),
    decreases node,
{
    match node {
        None => {
            assert(old(out)@ + inorder_of(*node) =~= old(out)@);
        },
        Some(n) => {
            inorder_rec(&n.left, out);
            out.push(n.key);
            inorder_rec(&n.right, out);
            assert(out@ =~= old(out)@ + inorder_of(*node));
        },
    }
}

/// The drawing lines of a subtree whose root sits at `path`, top to bottom: the
/// right subtree, the root, then the left subtree.
pub open spec fn rows_of(l: RBLink, path: Seq<bool>) -> Seq<(u32, Mark, Seq<bool>)>
    decreases l,
{
    match l {
        None => Seq::empty(),
        Some(n) => rows_of(n.right, path.push(false)).push((n.key, Mark::Color(n.color), path)) + rows_of(
            n.left,
            path.push(true),
        ),
    }
}

fn rows_rec(node: &RBLink, path: &Vec<bool>, out: &mut Vec<DrawRow>)
    ensures
        final(out)@.map_values(|r: DrawRow| row_view(r)) == old(out)@.map_values(
            |r: DrawRow| row_view(r),
        ) + rows_of(*node, path@),
    decreases node,
{
    match node {
        None => {
            assert(out@.map_values(|r: DrawRow| row_view(r)) =~= old(out)@.map_values(
                |r: DrawRow| row_view(r),
            ) + rows_of(*node, path@));
        },
        Some(n) => {
            let right_path = extend_path(path, false);
            rows_rec(&n.right, &right_path, out);
            let ghost mid = out@;
            let row = DrawRow { key: n.key, mark: Mark::Color(n.color), path: copy_path(path) };
            out.push(row);
            assert(out@.map_values(|r: DrawRow| row_view(r)) =~= mid.map_values(
                |r: DrawRow| row_view(r),
            ).push(row_view(row)));
            let left_path = extend_path(path, true);
            rows_rec(&n.left, &left_path, out);
            assert(out@.map_values(|r: DrawRow| row_view(r)) =~= old(out)@.map_values(
                |r: DrawRow| row_view(r),
            ) + rows_of(*node, path@));
        },
    }
}

impl RedBlackTree {
    /// The keys in increasing order (what the in-order printout shows).
    pub fn inorder(&self) -> (v: Vec<u32>)
        ensures
            v@ == inorder_of(self.root_link()),
    {
        let mut v = Vec::new();
        inorder_rec(&self.root, &mut v);
        assert(v@ =~= inorder_of(self.root_link()));
        v
    }

    /// The lines of the tree drawing, top to bottom: each key with its colour
    /// and its path from the root.
    pub fn rows(&self) -> (v: Vec<DrawRow>)
        ensures
            v@.map_values(|r: DrawRow| row_view(r)) == rows_of(self.root_link(), seq![false]),
    {
        let mut v = Vec::new();
        let mut path = Vec::new();
        path.push(false);
        assert(path@ =~= seq![false]);
        rows_rec(&self.root, &path, &mut v);
        assert(v@.map_values(|r: DrawRow| row_view(r)) =~= rows_of(self.root_link(), seq![false]));
        v
    }
}

/// The in-order listing of a tree is strictly increasing and lists exactly its keys.
pub proof fn law_inorder_sorted(t: RedBlackTree)
    requires
        t.wf(),
    ensures
        forall|i: int, j: int|
            0 <= i < j < inorder_of(t.root_link()).len() ==> inorder_of(t.root_link())[i]
                < inorder_of(t.root_link())[j],
        forall|k: u32| t@.contains(k) <==> inorder_of(t.root_link()).contains(k),
{
    lemma_inorder_sorted(t.root_link());
}

/// The colour rules: the root is black, no red node has a red child, and every
/// path from a node down to an empty subtree passes the same number of black nodes.
pub proof fn law_color_rules(t: RedBlackTree)
    requires
        t.wf(),
    ensures
        is_black(t.root_link()),
        red_ok(t.root_link()),
        black_ok(t.root_link()),
{
}

/// The number of nodes on the shortest path from the root of a subtree down to
/// an empty subtree.
pub open spec fn min_depth(l: RBLink) -> nat
    decreases l,
{
    match l {
        None => 0,
        Some(n) => {
            let dl = min_depth(n.left);
            let dr = min_depth(n.right);
            1 + if dl <= dr { dl } else { dr }
        },
    }
}

/// Every path down to an empty subtree passes at least the black height in nodes.
proof fn lemma_black_height_min_depth(l: RBLink)
    requires
        black_ok(l),
    ensures
        black_height(l) <= min_depth(l),
    decreases l,
{
    if let Some(n) = l {
        lemma_black_height_min_depth(n.left);
        lemma_black_height_min_depth(n.right);
    }
}

/// No path from the root down to an empty subtree is more than twice as long as
/// any other: the longest has at most twice the nodes of the shortest.
pub proof fn law_paths_within_twice(t: RedBlackTree)
    requires
        t.wf(),
    ensures
        height_of(t.root_link()) <= 2 * min_depth(t.root_link()),
{
    lemma_height_black_height(t.root_link());
    lemma_black_height_min_depth(t.root_link());
}

/// A red-black tree holding n keys is at most 2 log2(n + 1) high:
/// 2^(height / 2) <= n + 1.
pub proof fn law_height_logarithmic(t: RedBlackTree)
    requires
        t.wf(),
    ensures
        vstd::arithmetic::power2::pow2(height_of(t.root_link()) / 2) <= t@.len() + 1,
{
    let l = t.root_link();
    lemma_black_height_size(l);
    lemma_height_black_height(l);
    lemma_keys_len(l);
    let h2 = height_of(l) / 2;
    let b = black_height(l);
    assert(h2 <= b);
    if h2 < b {
        vstd::arithmetic::power2::lemma_pow2_strictly_increases(h2, b);
    }
}

} // verus!
