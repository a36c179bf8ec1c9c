//! The two trees of this crate as targets of the command language.

use crate::avl::{self, AVLTree};
use crate::draw::{DrawRow, Mark};
use crate::lang::exec::TreeOps;
use crate::rbt::{self, RedBlackTree};
use vstd::prelude::*;

verus! {

impl TreeOps for AVLTree {
    open spec fn inv(&self) -> bool {
        self.wf()
    }

    open spec fn key_set(&self) -> Set<u32> {
        self@
    }

    open spec fn after_insert(&self, v: u32) -> Self {
        self.with_inserted(v)
    }

    open spec fn after_delete(&self, v: u32) -> Self {
        self.with_deleted(v)
    }

    open spec fn leaf_count(&self) -> nat {
        avl::leaves_of(self.root_link())
    }

    open spec fn tree_height(&self) -> nat {
        avl::height_of(self.root_link())
    }

    open spec fn drawing_rows(&self) -> Seq<(u32, Mark, Seq<bool>)> {
        avl::rows_of(self.root_link(), seq![false])
    }

    fn insert(&mut self, v: u32) {
        AVLTree::insert(self, v);
    }

    fn delete(&mut self, v: u32) -> (deleted: bool) {
        AVLTree::delete(self, v)
    }

    fn search(&self, v: u32) -> (found: bool) {
        AVLTree::search(self, v)
    }

    fn count_leaves(&self) -> (n: usize) {
        AVLTree::count_leaves(self)
    }

    fn height(&self) -> (h: usize) {
        AVLTree::height(self)
    }

    fn is_empty(&self) -> (empty: bool) {
        AVLTree::is_empty(self)
    }

    fn inorder(&self) -> (keys: Vec<u32>) {
        let keys = AVLTree::inorder(self);
        proof {
            avl::lemma_inorder_sorted(self.root_link());
            assert(keys@.to_set() =~= self@);
        }
        keys
    }

    fn drawing(&self) -> (rows: Vec<DrawRow>) {
        self.rows()
    }
}

impl TreeOps for RedBlackTree {
    open spec fn inv(&self) -> bool {
        self.wf()
    }

    open spec fn key_set(&self) -> Set<u32> {
        self@
    }

    open spec fn after_insert(&self, v: u32) -> Self {
        self.with_inserted(v)
    }

    open spec fn after_delete(&self, v: u32) -> Self {
        self.with_deleted(v)
    }

    open spec fn leaf_count(&self) -> nat {
        rbt::leaves_of(self.root_link())
    }

    open spec fn tree_height(&self) -> nat {
        rbt::height_of(self.root_link())
    }

    open spec fn drawing_rows(&self) -> Seq<(u32, Mark, Seq<bool>)> {
        rbt::rows_of(self.root_link(), seq![false])
    }

    fn insert(&mut self, v: u32) {
        RedBlackTree::insert(self, v);
    }

    fn delete(&mut self, v: u32) -> (deleted: bool) {
        RedBlackTree::delete(self, v)
    }

    fn search(&self, v: u32) -> (found: bool) {
        RedBlackTree::search(self, v)
    }

    fn count_leaves(&self) -> (n: usize) {
        RedBlackTree::count_leaves(self)
    }

    fn height(&self) -> (h: usize) {
        RedBlackTree::height(self)
    }

    fn is_empty(&self) -> (empty: bool) {
        RedBlackTree::is_empty(self)
    }

    fn inorder(&self) -> (keys: Vec<u32>) {
        let keys = RedBlackTree::inorder(self);
        proof {
            rbt::lemma_inorder_sorted(self.root_link());
            assert(keys@.to_set() =~= self@);
        }
        keys
    }

    fn drawing(&self) -> (rows: Vec<DrawRow>) {
        self.rows()
    }
}

} // verus!
