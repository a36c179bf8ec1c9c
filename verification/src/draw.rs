//! Drawing a tree: one row per node, top to bottom, each with the path from
//! the root that places it.

use crate::rbt::Color;
use vstd::prelude::*;

verus! {

/// What a drawing row shows beside a key: an AVL balance factor or a
/// red-black colour.
#[derive(Clone, Copy, Debug, PartialEq, Eq, Structural)]
pub enum Mark {
    Balance(i32),
    Color(Color),
}

/// One row of a tree drawing: a key, its mark, and the path from the root to it,
/// one flag per node on the path telling whether that node is a left child (the
/// root counts as not a left child).
#[derive(Debug, PartialEq, Eq)]
pub struct DrawRow {
    pub key: u32,
    pub mark: Mark,
    pub path: Vec<bool>,
}

/// The plain value of a drawing row.
pub open spec fn row_view(r: DrawRow) -> (u32, Mark, Seq<bool>) {
    (r.key, r.mark, r.path@)
}


/// A copy of `path`.
pub fn copy_path(path: &Vec<bool>) -> (p: Vec<bool>)
    ensures
        p@ == path@,
{
    let mut p: Vec<bool> = Vec::new();
    let mut i: usize = 0;
    while i < path.len()
        invariant
            i <= path.len(),
            p@ == path@.subrange(0, i as int),
        decreases path.len() - i,
    {
        p.push(path[i]);
        i += 1;
        assert(p@ =~= path@.subrange(0, i as int));
    }
    assert(p@ =~= path@);
    p
}

/// A copy of `path` with `last` appended.
pub fn extend_path(path: &Vec<bool>, last: bool) -> (p: Vec<bool>)
    ensures
        p@ == path@.push(last),
{
    let mut p = copy_path(path);
    p.push(last);
    p
}

} // verus!
