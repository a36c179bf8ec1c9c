//! The one-command menu: a line such as `i 42`, `d 7`, `s 3`, `l`, `h`, `e`,
//! `o`, `p` or `b` applied to a tree.

use crate::draw::{row_view, DrawRow, Mark};
use crate::lang::exec::{lemma_sorted_keys, sorted_keys, TreeOps};
use crate::lang::tokens::{chars_of, digits_value, is_digit};
use vstd::prelude::*;

verus! {

/// Whether `c` is white space in the Unicode sense, which is what `str::trim`
/// removes.
pub open spec fn is_white_space(c: char) -> bool {
    ||| '\t' <= c <= '\r'
    ||| c == ' '
    ||| c == '\u{85}'
    ||| c == '\u{A0}'
    ||| c == '\u{1680}'
    ||| '\u{2000}' <= c <= '\u{200A}'
    ||| c == '\u{2028}'
    ||| c == '\u{2029}'
    ||| c == '\u{202F}'
    ||| c == '\u{205F}'
    ||| c == '\u{3000}'
}

/// `s` without its leading white space.
pub open spec fn trim_start(s: Seq<char>) -> Seq<char>
    decreases s.len(),
{
    if s.len() > 0 && is_white_space(s[0]) {
        trim_start(s.drop_first())
    } else {
        s
    }
}

/// `s` without its trailing white space.
pub open spec fn trim_end(s: Seq<char>) -> Seq<char>
    decreases s.len(),
{
    if s.len() > 0 && is_white_space(s.last()) {
        trim_end(s.drop_last())
    } else {
        s
    }
}

/// `s` without leading and trailing white space.
pub open spec fn trimmed(s: Seq<char>) -> Seq<char> {
    trim_end(trim_start(s))
}

/// The digits of an unsigned number: the text after an optional leading `+`.
pub open spec fn unsigned_digits(t: Seq<char>) -> Seq<char> {
    if t.len() > 0 && t[0] == '+' {
        t.drop_first()
    } else {
        t
    }
}

/// The `u32` that `s`, trimmed, spells in decimal (an optional `+`, then one or
/// more ASCII digits, with a value that fits), if it spells one.
pub open spec fn parse_u32_spec(s: Seq<char>) -> Option<u32> {
    let d = unsigned_digits(trimmed(s));
    if d.len() > 0 && (forall|k: int| 0 <= k < d.len() ==> is_digit(#[trigger] d[k]))
        && digits_value(d) <= u32::MAX {
        Some(digits_value(d) as u32)
    } else {
        None
    }
}

/// The position of the first space at or after `i`, or the length.
pub open spec fn space_from(t: Seq<char>, i: int) -> int
    decreases t.len() - i,
{
    if 0 <= i < t.len() && t[i] != ' ' {
        space_from(t, i + 1)
    } else {
        i
    }
}

/// The command word of a trimmed line: the text before its first space.
pub open spec fn command_word(t: Seq<char>) -> Seq<char> {
    t.subrange(0, space_from(t, 0))
}

/// The argument of a trimmed line: the text after its first space, if it has one.
pub open spec fn argument(t: Seq<char>) -> Option<Seq<char>> {
    let p = space_from(t, 0);
    if p < t.len() {
        Some(t.subrange(p + 1, t.len() as int))
    } else {
        None
    }
}

/// What a menu line did.
#[derive(Debug, PartialEq, Eq)]
pub enum MenuOutcome {
    /// `i n`: `n` was inserted.
    Inserted(u32),
    /// `d n`: `n` was deleted.
    Deleted(u32),
    /// `d n`: `n` was not in the tree.
    NotFound(u32),
    /// `s n`: whether `n` is in the tree.
    Found(u32, bool),
    /// `i`, `d` or `s` without a number it could read.
    Usage(char),
    /// `l`: the number of leaves.
    Leaves(usize),
    /// `h`: the height.
    Height(usize),
    /// `e`: whether the tree is empty.
    Empty(bool),
    /// `o`: the keys in increasing order.
    Inorder(Vec<u32>),
    /// `p`: the rows of the tree drawing.
    Print(Vec<DrawRow>),
    /// `b`: back to the main menu.
    Back,
    /// Any other command word.
    Unknown,
}

/// The plain value of a menu outcome.
pub ghost enum MenuView {
    Inserted(u32),
    Deleted(u32),
    NotFound(u32),
    Found(u32, bool),
    Usage(char),
    Leaves(usize),
    Height(usize),
    Empty(bool),
    Inorder(Seq<u32>),
    Print(Seq<(u32, Mark, Seq<bool>)>),
    Back,
    Unknown,
}

impl View for MenuOutcome {
    type V = MenuView;

    open spec fn view(&self) -> MenuView {
        match self {
            MenuOutcome::Inserted(n) => MenuView::Inserted(*n),
            MenuOutcome::Deleted(n) => MenuView::Deleted(*n),
            MenuOutcome::NotFound(n) => MenuView::NotFound(*n),
            MenuOutcome::Found(n, b) => MenuView::Found(*n, *b),
            MenuOutcome::Usage(c) => MenuView::Usage(*c),
            MenuOutcome::Leaves(n) => MenuView::Leaves(*n),
            MenuOutcome::Height(h) => MenuView::Height(*h),
            MenuOutcome::Empty(b) => MenuView::Empty(*b),
            MenuOutcome::Inorder(v) => MenuView::Inorder(v@),
            MenuOutcome::Print(rows) => MenuView::Print(rows@.map_values(|r: DrawRow| row_view(r))),
            MenuOutcome::Back => MenuView::Back,
            MenuOutcome::Unknown => MenuView::Unknown,
        }
    }
}

/// A menu line applied to `tree`: what it reports and the tree it leaves. The
/// line is trimmed, its command word is the text before the first space, and
/// the number of `i`, `d` and `s` is the rest of the line read by
/// `parse_u32_spec`.
pub open spec fn menu_spec<T: TreeOps>(line: Seq<char>, tree: T) -> (MenuView, T) {
    let t = trimmed(line);
    let w = command_word(t);
    let arg = match argument(t) {
        Some(a) => parse_u32_spec(a),
        None => None,
    };
    if w == seq!['i'] {
        match arg {
            Some(n) => (MenuView::Inserted(n), tree.after_insert(n)),
            None => (MenuView::Usage('i'), tree),
        }
    } else if w == seq!['d'] {
        match arg {
            Some(n) => (
                if tree.key_set().contains(n) {
                    MenuView::Deleted(n)
                } else {
                    MenuView::NotFound(n)
                },
                tree.after_delete(n),
            ),
            None => (MenuView::Usage('d'), tree),
        }
    } else if w == seq!['s'] {
        match arg {
            Some(n) => (MenuView::Found(n, tree.key_set().contains(n)), tree),
            None => (MenuView::Usage('s'), tree),
        }
    } else if w == seq!['l'] {
        (MenuView::Leaves(tree.leaf_count() as usize), tree)
    } else if w == seq!['h'] {
        (MenuView::Height(tree.tree_height() as usize), tree)
    } else if w == seq!['e'] {
        (MenuView::Empty(tree.key_set() == Set::<u32>::empty()), tree)
    } else if w == seq!['o'] {
        (MenuView::Inorder(sorted_keys(tree.key_set())), tree)
    } else if w == seq!['p'] {
        (MenuView::Print(tree.drawing_rows()), tree)
    } else if w == seq!['b'] {
        (MenuView::Back, tree)
    } else {
        (MenuView::Unknown, tree)
    }
}

/// Whether `c` is Unicode white space.
fn white_space(c: char) -> (b: bool)
    ensures
        b == is_white_space(c),
{
    ('\t' <= c && c <= '\r') || c == ' ' || c == '\u{85}' || c == '\u{A0}' || c == '\u{1680}'
        || ('\u{2000}' <= c && c <= '\u{200A}') || c == '\u{2028}' || c == '\u{2029}'
        || c == '\u{202F}' || c == '\u{205F}' || c == '\u{3000}'
}

/// The characters of `s` from `lo` up to `hi`.
fn copy_range(s: &Vec<char>, lo: usize, hi: usize) -> (r: Vec<char>)
    requires
        lo <= hi <= s.len(),
    ensures
        r@ == s@.subrange(lo as int, hi as int),
{
    let mut r: Vec<char> = Vec::new();
    let mut k = lo;
    while k < hi
        invariant
            lo <= k <= hi <= s.len(),
            r@ == s@.subrange(lo as int, k as int),
        decreases hi - k,
    {
        r.push(s[k]);
        k += 1;
        assert(r@ =~= s@.subrange(lo as int, k as int));
    }
    r
}

/// `s` without leading and trailing white space.
fn trim_chars(s: &Vec<char>) -> (t: Vec<char>)
    ensures
        t@ == trimmed(s@),
{
    let n = s.len();
    let mut i: usize = 0;
    assert(s@.subrange(0, n as int) =~= s@);
    while i < n && white_space(s[i])
        invariant
            i <= n == s.len(),
            trim_start(s@) == trim_start(s@.subrange(i as int, n as int)),
        decreases n - i,
    {
        assert(s@.subrange(i as int, n as int).drop_first() =~= s@.subrange(i + 1, n as int));
        i += 1;
    }
    let ghost u = s@.subrange(i as int, n as int);
    assert(trim_start(s@) == u);
    let mut j: usize = n;
    while j > i && white_space(s[j - 1])
        invariant
            i <= j <= n == s.len(),
            u == s@.subrange(i as int, n as int),
            trim_end(u) == trim_end(s@.subrange(i as int, j as int)),
        decreases j - i,
    {
        assert(s@.subrange(i as int, j as int).drop_last() =~= s@.subrange(i as int, j - 1));
        j -= 1;
    }
    copy_range(s, i, j)
}

/// The `u32` spelled by `s` after trimming, as `parse_u32_spec` says.
fn parse_u32_chars(s: &Vec<char>) -> (r: Option<u32>)
    ensures
        r == parse_u32_spec(s@),
{
    let t = trim_chars(s);
    let start: usize = if t.len() > 0 && t[0] == '+' { 1 } else { 0 };
    let d = copy_range(&t, start, t.len());
    proof {
        assert(d@ =~= unsigned_digits(t@));
    }
    if d.len() == 0 {
        return None;
    }
    // the value so far, capped at 2^32
    let mut acc: u64 = 0;
    let mut k: usize = 0;
    assert(d@.take(0) =~= Seq::<char>::empty());
    while k < d.len()
        invariant
            0 < d.len(),
            k <= d.len(),
            d@ == unsigned_digits(trimmed(s@)),
            forall|j: int| 0 <= j < k ==> is_digit(#[trigger] d@[j]),
            acc == if digits_value(d@.take(k as int)) < 0x1_0000_0000 {
                digits_value(d@.take(k as int))
            } else {
                0x1_0000_0000
            },
        decreases d.len() - k,
    {
        let c = d[k];
        if !('0' <= c && c <= '9') {
            proof {
                assert(!is_digit(d@[k as int]));
            }
            return None;
        }
        let digit = (c as u32 - '0' as u32) as u64;
        proof {
            assert(d@.take(k + 1).drop_last() =~= d@.take(k as int));
            assert(d@.take(k + 1).last() == c);
            assert(digits_value(d@.take(k + 1)) == 10 * digits_value(d@.take(k as int)) + digit);
        }
        if acc < 0x1_0000_0000 {
            let next = acc * 10 + digit;
            acc = if next < 0x1_0000_0000 { next } else { 0x1_0000_0000 };
        }
        k += 1;
    }
    proof {
        assert(d@.take(d.len() as int) =~= d@);
        assert(t@ == trimmed(s@));
        assert(d@ == unsigned_digits(trimmed(s@)));
    }
    if acc <= 0xFFFF_FFFF {
        Some(acc as u32)
    } else {
        None
    }
}

/// The `u32` a menu argument spells: `s` trimmed, an optional `+`, then one or
/// more ASCII digits with a value that fits; `None` for anything else or no
/// argument.
pub fn parse_u32(s: Option<&str>) -> (r: Option<u32>)
    ensures
        r == match s {
            Some(x) => parse_u32_spec(x@),
            None => None,
        },
{
    match s {
        Some(x) => {
            let v = chars_of(x);
            parse_u32_chars(&v)
        },
        None => None,
    }
}

/// The position of the first space of `t`, or its length.
fn find_space(t: &Vec<char>) -> (p: usize)
    ensures
        p == space_from(t@, 0),
        p <= t.len(),
{
    let mut i: usize = 0;
    while i < t.len() && t[i] != ' '
        invariant
            i <= t.len(),
            space_from(t@, 0) == space_from(t@, i as int),
        decreases t.len() - i,
    {
        i += 1;
    }
    i
}

/// Applies one menu line to `tree` and reports what it did, as `menu_spec` says.
pub fn menu_step<T: TreeOps>(line: &str, tree: &mut T) -> (r: MenuOutcome)
    requires
        old(tree).inv(),
    ensures
        final(tree).inv(),
        (r@, *final(tree)) == menu_spec(line@, *old(tree)),
{
    let chars = chars_of(line);
    let t = trim_chars(&chars);
    let p = find_space(&t);
    let ghost w = t@.subrange(0, p as int);
    let arg: Option<u32> = if p < t.len() {
        let a = copy_range(&t, p + 1, t.len());
        parse_u32_chars(&a)
    } else {
        None
    };
    let single: Option<char> = if p == 1 {
        Some(t[0])
    } else {
        None
    };
    proof {
        assert(w == command_word(t@));
        if p == 1 {
            assert(w =~= seq![t@[0]]);
        }
        assert forall|x: char| (single == Some(x)) <==> (w == seq![x]) by {
            if w == seq![x] {
                assert(w.len() == 1);
                assert(w[0] == t@[0]);
            }
        }
    }
    match single {
        Some('i') => match arg {
            Some(n) => {
                tree.insert(n);
                MenuOutcome::Inserted(n)
            },
            None => MenuOutcome::Usage('i'),
        },
        Some('d') => match arg {
            Some(n) => {
                if tree.delete(n) {
                    MenuOutcome::Deleted(n)
                } else {
                    MenuOutcome::NotFound(n)
                }
            },
            None => MenuOutcome::Usage('d'),
        },
        Some('s') => match arg {
            Some(n) => MenuOutcome::Found(n, tree.search(n)),
            None => MenuOutcome::Usage('s'),
        },
        Some('l') => MenuOutcome::Leaves(tree.count_leaves()),
        Some('h') => MenuOutcome::Height(tree.height()),
        Some('e') => MenuOutcome::Empty(tree.is_empty()),
        Some('o') => {
            let keys = tree.inorder();
            proof {
                lemma_sorted_keys(keys@, tree.key_set());
            }
            MenuOutcome::Inorder(keys)
        },
        Some('p') => MenuOutcome::Print(tree.drawing()),
        Some('b') => MenuOutcome::Back,
        _ => MenuOutcome::Unknown,
    }
}

} // verus!
