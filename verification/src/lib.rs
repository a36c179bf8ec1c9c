//! Self-balancing binary search trees (AVL and red-black) over `u32` keys,
//! together with a small command language that drives either tree.

pub mod avl;
pub mod draw;
pub mod rbt;
pub mod lang;
pub mod menu;
