//! Running statements against a tree.
//!
//! The meaning of a line is given by specification functions over the tree's
//! key set: `run_stmts_spec` and the functions it calls. Pseudorandom values
//! come from a clock reading per `rand` generator; the specification takes the
//! sequence of readings as an argument.

use crate::draw::{row_view, DrawRow, Mark};
use crate::lang::ast::{
    lemma_stmts_view_index, nesting_within, stmt_view, stmts_view, Expr, GenSpec, GenView, Stmt,
    StmtView,
};
use crate::lang::error::{ErrorView, LangError};
use crate::lang::parser::{parse, Parser};
use crate::lang::tokens::{lex, tokenize};
use std::time::{Duration, SystemTime, SystemTimeError, UNIX_EPOCH};
use vstd::prelude::*;

verus! {

/// A tree the command language can drive.
pub trait TreeOps: Sized {
    /// The tree's internal invariant.
    spec fn inv(&self) -> bool;

    /// The keys in the tree.
    spec fn key_set(&self) -> Set<u32>;

    /// The tree that `insert(v)` leaves.
    spec fn after_insert(&self, v: u32) -> Self;

    /// The tree that `delete(v)` leaves.
    spec fn after_delete(&self, v: u32) -> Self;

    /// The number of leaves (nodes without children).
    spec fn leaf_count(&self) -> nat;

    /// The number of nodes on the longest path from the root down.
    spec fn tree_height(&self) -> nat;

    /// The rows of the tree drawing, top to bottom.
    spec fn drawing_rows(&self) -> Seq<(u32, Mark, Seq<bool>)>;

    fn insert(&mut self, v: u32)
        requires
            old(self).inv(),
        ensures
            final(self).inv(),
            final(self).key_set() == old(self).key_set().insert(v),
            *final(self) == old(self).after_insert(v),
    ;

    fn delete(&mut self, v: u32) -> (deleted: bool)
        requires
            old(self).inv(),
        ensures
            final(self).inv(),
            final(self).key_set() == old(self).key_set().remove(v),
            deleted == old(self).key_set().contains(v),
            *final(self) == old(self).after_delete(v),
    ;

    fn search(&self, v: u32) -> (found: bool)
        requires
            self.inv(),
        ensures
            found == self.key_set().contains(v),
    ;

    fn count_leaves(&self) -> (n: usize)
        requires
            self.inv(),
        ensures
            n == self.leaf_count(),
    ;

    fn height(&self) -> (h: usize)
        requires
            self.inv(),
        ensures
            h == self.tree_height(),
    ;

    fn is_empty(&self) -> (empty: bool)
        requires
            self.inv(),
        ensures
            empty == (self.key_set() == Set::<u32>::empty()),
    ;

    /// The keys in increasing order.
    fn inorder(&self) -> (keys: Vec<u32>)
        requires
            self.inv(),
        ensures
            forall|i: int, j: int| 0 <= i < j < keys.len() ==> keys@[i] < keys@[j],
            keys@.to_set() == self.key_set(),
    ;

    /// The rows of the tree drawing, top to bottom.
    fn drawing(&self) -> (rows: Vec<DrawRow>)
        requires
            self.inv(),
        ensures
            rows@.map_values(|r: DrawRow| row_view(r)) == self.drawing_rows(),
    ;
}

/// What running a line asks of the surrounding session.
#[derive(Clone, Copy, Debug, PartialEq, Eq, Structural)]
pub enum ExecResult {
    /// Keep reading lines.
    Continue,
    /// `b`: go back to the previous menu.
    Back,
    /// `q`: quit.
    Quit,
}

/// One observable step of running a line, in the order the steps happen.
#[derive(Debug, PartialEq, Eq)]
pub enum Event {
    /// A repeat block with a count of zero or less was skipped.
    RepeatSkipped(i64),
    /// A repeat block starts: its count and its nesting level.
    RepeatStart(i64, usize),
    /// An iteration of a repeat block starts: its number (from 1) and the count.
    RepeatIter(i64, i64),
    /// `b` or `q` ended a repeat block early.
    RepeatInterrupted,
    /// A repeat block ran all its iterations.
    RepeatDone,
    /// `i` is about to insert these values.
    InsertBatch(Vec<u32>),
    Inserted(u32),
    /// `d` is about to delete these values.
    DeleteBatch(Vec<u32>),
    Deleted(u32),
    NotFound(u32),
    /// `s` is about to search this many values.
    SearchBatch(usize),
    /// A value searched, and whether it was found.
    SearchResult(u32, bool),
    /// `l`: the number of leaves.
    Leaves(usize),
    /// `h`: the height.
    Height(usize),
    /// `e`: whether the tree is empty.
    Empty(bool),
    /// `o`: the keys in increasing order.
    Inorder(Vec<u32>),
    /// `p`: the tree drawing.
    Print(Vec<DrawRow>),
    /// `b`.
    Back,
    /// `q`.
    Quit,
}

/// The plain value of an event: lists as sequences, drawing rows as plain values.
pub ghost enum EventView {
    RepeatSkipped(i64),
    RepeatStart(i64, usize),
    RepeatIter(i64, i64),
    RepeatInterrupted,
    RepeatDone,
    InsertBatch(Seq<u32>),
    Inserted(u32),
    DeleteBatch(Seq<u32>),
    Deleted(u32),
    NotFound(u32),
    SearchBatch(usize),
    SearchResult(u32, bool),
    Leaves(usize),
    Height(usize),
    Empty(bool),
    Inorder(Seq<u32>),
    Print(Seq<(u32, Mark, Seq<bool>)>),
    Back,
    Quit,
}

pub open spec fn event_view(e: Event) -> EventView {
    match e {
        Event::RepeatSkipped(n) => EventView::RepeatSkipped(n),
        Event::RepeatStart(n, d) => EventView::RepeatStart(n, d),
        Event::RepeatIter(i, n) => EventView::RepeatIter(i, n),
        Event::RepeatInterrupted => EventView::RepeatInterrupted,
        Event::RepeatDone => EventView::RepeatDone,
        Event::InsertBatch(v) => EventView::InsertBatch(v@),
        Event::Inserted(v) => EventView::Inserted(v),
        Event::DeleteBatch(v) => EventView::DeleteBatch(v@),
        Event::Deleted(v) => EventView::Deleted(v),
        Event::NotFound(v) => EventView::NotFound(v),
        Event::SearchBatch(n) => EventView::SearchBatch(n),
        Event::SearchResult(v, b) => EventView::SearchResult(v, b),
        Event::Leaves(n) => EventView::Leaves(n),
        Event::Height(h) => EventView::Height(h),
        Event::Empty(b) => EventView::Empty(b),
        Event::Inorder(v) => EventView::Inorder(v@),
        Event::Print(rows) => EventView::Print(rows@.map_values(|r: DrawRow| row_view(r))),
        Event::Back => EventView::Back,
        Event::Quit => EventView::Quit,
    }
}

/// Whether a sequence of keys is strictly increasing.
pub open spec fn increasing(q: Seq<u32>) -> bool {
    forall|i: int, j: int| 0 <= i < j < q.len() ==> q[i] < q[j]
}

/// The keys of a set listed in increasing order.
pub open spec fn sorted_keys(keys: Set<u32>) -> Seq<u32> {
    choose|q: Seq<u32>| increasing(q) && q.to_set() == keys
}

/// Two increasing listings of the same keys are the same listing.
pub proof fn lemma_increasing_unique(a: Seq<u32>, b: Seq<u32>)
    requires
        increasing(a),
        increasing(b),
        a.to_set() == b.to_set(),
    ensures
        a == b,
    decreases a.len(),
{
    if a.len() == 0 {
        if b.len() > 0 {
            assert(b.to_set().contains(b[0]));
            assert(!a.to_set().contains(b[0]));
        }
        assert(a =~= b);
    } else {
        assert(a.to_set().contains(a[0]));
        assert(b.to_set().contains(a[0]));
        let j = choose|j: int| 0 <= j < b.len() && b[j] == a[0];
        assert(b.to_set().contains(b[0]));
        assert(a.to_set().contains(b[0]));
        let k = choose|k: int| 0 <= k < a.len() && a[k] == b[0];
        assert(b[0] <= b[j]);
        assert(a[0] <= a[k]);
        assert(a[0] == b[0]);
        let a1 = a.drop_first();
        let b1 = b.drop_first();
        assert forall|x: u32| a1.to_set().contains(x) implies b1.to_set().contains(x) by {
            let i = choose|i: int| 0 <= i < a1.len() && a1[i] == x;
            assert(a[i + 1] == x);
            assert(a.to_set().contains(x));
            assert(b.to_set().contains(x));
            let m = choose|m: int| 0 <= m < b.len() && b[m] == x;
            assert(x > a[0]);
            assert(m != 0);
            assert(b1[m - 1] == x);
        }
        assert forall|x: u32| b1.to_set().contains(x) implies a1.to_set().contains(x) by {
            let i = choose|i: int| 0 <= i < b1.len() && b1[i] == x;
            assert(b[i + 1] == x);
            assert(b.to_set().contains(x));
            assert(a.to_set().contains(x));
            let m = choose|m: int| 0 <= m < a.len() && a[m] == x;
            assert(x > b[0]);
            assert(m != 0);
            assert(a1[m - 1] == x);
        }
        assert(a1.to_set() =~= b1.to_set());
        lemma_increasing_unique(a1, b1);
        assert(a.len() == b.len());
        assert forall|i: int| 0 <= i < a.len() implies a[i] == b[i] by {
            if i > 0 {
                assert(a[i] == a1[i - 1]);
                assert(b[i] == b1[i - 1]);
            }
        }
        assert(a =~= b);
    }
}

/// An increasing listing of a set is its sorted listing.
pub proof fn lemma_sorted_keys(q: Seq<u32>, keys: Set<u32>)
    requires
        increasing(q),
        q.to_set() == keys,
    ensures
        sorted_keys(keys) == q,
{
    let c = sorted_keys(keys);
    assert(increasing(c) && c.to_set() == keys);
    lemma_increasing_unique(c, q);
}

/// The plain values of a sequence of events.
pub open spec fn event_views(v: Seq<Event>) -> Seq<EventView> {
    v.map_values(|e: Event| event_view(e))
}

/// An exact value as an `i64`, or `ArithmeticOverflow` when it does not fit.
pub open spec fn in_i64(v: int) -> Result<i64, ErrorView> {
    if i64::MIN <= v <= i64::MAX {
        Ok(v as i64)
    } else {
        Err(ErrorView::ArithmeticOverflow)
    }
}

/// The value of an expression, with `n1`..`n4` read from `idx` while `depth`
/// repeat blocks are running; a result that does not fit in an `i64` is an error.
pub open spec fn eval(e: Expr, depth: nat, idx: Seq<i64>) -> Result<i64, ErrorView>
    decreases e,
{
    match e {
        Expr::Num(n) => Ok(n),
        Expr::Idx(d) => if d == 0 || d > depth {
            Err(ErrorView::IndexTooDeep(d, depth as usize))
        } else {
            Ok(idx[d - 1])
        },
        Expr::Add(a, b) => match eval(*a, depth, idx) {
            Ok(x) => match eval(*b, depth, idx) {
                Ok(y) => in_i64(x + y),
                Err(err) => Err(err),
            },
            Err(err) => Err(err),
        },
        Expr::Sub(a, b) => match eval(*a, depth, idx) {
            Ok(x) => match eval(*b, depth, idx) {
                Ok(y) => in_i64(x - y),
                Err(err) => Err(err),
            },
            Err(err) => Err(err),
        },
        Expr::Mul(a, b) => match eval(*a, depth, idx) {
            Ok(x) => match eval(*b, depth, idx) {
                Ok(y) => in_i64(x * y),
                Err(err) => Err(err),
            },
            Err(err) => Err(err),
        },
    }
}

/// A value as a key, if it is one.
pub open spec fn to_u32_spec(v: i64) -> Result<u32, ErrorView> {
    if v < 0 || v > u32::MAX {
        Err(ErrorView::OutOfRange(v))
    } else {
        Ok(v as u32)
    }
}

/// The keys a literal list stands for, or its first error.
pub open spec fn eval_literals(es: Seq<Expr>, depth: nat, idx: Seq<i64>) -> Result<
    Seq<u32>,
    ErrorView,
>
    decreases es.len(),
{
    if es.len() == 0 {
        Ok(Seq::empty())
    } else {
        match eval_literals(es.drop_last(), depth, idx) {
            Ok(vs) => match eval(es.last(), depth, idx) {
                Ok(v) => match to_u32_spec(v) {
                    Ok(u) => Ok(vs.push(u)),
                    Err(err) => Err(err),
                },
                Err(err) => Err(err),
            },
            Err(err) => Err(err),
        }
    }
}

/// One step of the linear congruential generator.
pub open spec fn lcg_next(state: u64) -> u64 {
    vstd::wrapping::u64_specs::wrapping_add(
        vstd::wrapping::u64_specs::wrapping_mul(state, 6364136223846793005u64),
        1442695040888963407u64,
    )
}

/// The generator state after `k` steps from `seed`.
pub open spec fn lcg_state(seed: u64, k: nat) -> u64
    decreases k,
{
    if k == 0 {
        seed
    } else {
        lcg_next(lcg_state(seed, (k - 1) as nat))
    }
}

/// The value in `[min, max]` drawn from a generator state: its high bits modulo
/// the width of the interval.
pub open spec fn lcg_value(min: u32, max: u32, state: u64) -> u32 {
    (min + ((state >> 33u64) % ((max - min + 1) as u64))) as u32
}

/// `n` pseudorandom values in `[min, max]` from `seed`.
pub open spec fn lcg_values(min: u32, max: u32, n: nat, seed: u64) -> Seq<u32> {
    Seq::new(n, |k: int| lcg_value(min, max, lcg_state(seed, (k + 1) as nat)))
}

/// The bounds and count of a `rand` generator, or the first error evaluating them.
pub open spec fn rand_params(min: Expr, max: Expr, count: Expr, depth: nat, idx: Seq<i64>) -> Result<
    (u32, u32, usize),
    ErrorView,
> {
    match eval(min, depth, idx) {
        Err(err) => Err(err),
        Ok(a) => match to_u32_spec(a) {
            Err(err) => Err(err),
            Ok(lo) => match eval(max, depth, idx) {
                Err(err) => Err(err),
                Ok(b) => match to_u32_spec(b) {
                    Err(err) => Err(err),
                    Ok(hi) => match eval(count, depth, idx) {
                        Err(err) => Err(err),
                        Ok(c) => if lo > hi {
                            Err(ErrorView::RandMinAboveMax(lo, hi))
                        } else if c < 0 {
                            Err(ErrorView::NegativeCount(c))
                        } else {
                            Ok((lo, hi, c as usize))
                        },
                    },
                },
            },
        },
    }
}

/// The start, end and step of a `rang` generator, or the first error.
pub open spec fn rang_params(
    min: Expr,
    max: Expr,
    step: Option<Expr>,
    depth: nat,
    idx: Seq<i64>,
) -> Result<(i64, i64, i64), ErrorView> {
    match eval(min, depth, idx) {
        Err(err) => Err(err),
        Ok(a) => match eval(max, depth, idx) {
            Err(err) => Err(err),
            Ok(b) => match step {
                None => Ok((a, b, 1)),
                Some(s) => match eval(s, depth, idx) {
                    Err(err) => Err(err),
                    Ok(st) => if st == 0 {
                        Err(ErrorView::ZeroStep)
                    } else {
                        Ok((a, b, st))
                    },
                },
            },
        },
    }
}

/// Whether a range continues at `v`: up to `max` for a positive step, down to
/// `max` for a negative one.
pub open spec fn rang_continues(v: i64, max: i64, step: i64) -> bool {
    (step > 0 && v <= max) || (step < 0 && v >= max)
}

/// A bound on the steps a range can still take from `v` before it must stop or fail.
pub open spec fn rang_measure(v: i64, step: i64) -> nat {
    if 0 <= v <= u32::MAX {
        if step > 0 {
            (u32::MAX + 1 - v) as nat
        } else {
            (v + 1) as nat
        }
    } else {
        0
    }
}

/// Each step of a range that produced a key brings it closer to its end.
pub proof fn lemma_rang_step(v: i64, step: i64)
    requires
        0 <= v <= u32::MAX,
        step != 0,
        i64::MIN <= v + step <= i64::MAX,
    ensures
        rang_measure((v + step) as i64, step) < rang_measure(v, step),
{
}

/// The values of a range from `v` on: `v`, `v + step`, ... while the range
/// continues, each checked to be a key; the first value that is not fails. A
/// next value beyond the `i64` range is past the bound, so the range ends there.
pub open spec fn rang_from(v: i64, max: i64, step: i64) -> Result<Seq<u32>, ErrorView>
    decreases rang_measure(v, step),
{
    if rang_continues(v, max, step) {
        match to_u32_spec(v) {
            Err(err) => Err(err),
            Ok(u) => if i64::MIN <= v + step <= i64::MAX {
                proof {
                    lemma_rang_step(v, step);
                }
                match rang_from((v + step) as i64, max, step) {
                    Ok(rest) => Ok(seq![u] + rest),
                    Err(err) => Err(err),
                }
            } else {
                Ok(seq![u])
            },
        }
    } else {
        Ok(Seq::empty())
    }
}

/// The values of a generator, or its first error, together with the clock
/// readings left after it: a `rand` generator that gets as far as drawing
/// values uses the first reading.
pub open spec fn resolve_spec(g: GenView, depth: nat, idx: Seq<i64>, seeds: Seq<u64>) -> (
    Result<Seq<u32>, ErrorView>,
    Seq<u64>,
) {
    match g {
        GenView::Empty => (Ok(Seq::empty()), seeds),
        GenView::Literals(es) => (eval_literals(es, depth, idx), seeds),
        GenView::Rand { min, max, count } => match rand_params(min, max, count, depth, idx) {
            Err(err) => (Err(err), seeds),
            Ok((lo, hi, c)) => (Ok(lcg_values(lo, hi, c as nat, seeds[0])), seeds.drop_first()),
        },
        GenView::Rang { min, max, step } => match rang_params(min, max, step, depth, idx) {
            Err(err) => (Err(err), seeds),
            Ok((a, b, st)) => (rang_from(a, b, st), seeds),
        },
    }
}

/// The tree after inserting `vals` one by one.
pub open spec fn insert_run<T: TreeOps>(tree: T, vals: Seq<u32>) -> T
    decreases vals.len(),
{
    if vals.len() == 0 {
        tree
    } else {
        insert_run(tree, vals.drop_last()).after_insert(vals.last())
    }
}

/// The tree after deleting `vals` one by one, and for each value whether it was
/// there to delete.
pub open spec fn delete_run<T: TreeOps>(tree: T, vals: Seq<u32>) -> (T, Seq<EventView>)
    decreases vals.len(),
{
    if vals.len() == 0 {
        (tree, Seq::empty())
    } else {
        let (t, evs) = delete_run(tree, vals.drop_last());
        let v = vals.last();
        let ev = if t.key_set().contains(v) {
            EventView::Deleted(v)
        } else {
            EventView::NotFound(v)
        };
        (t.after_delete(v), evs.push(ev))
    }
}

/// The outcome of running part of a line: its result, the tree after it, the
/// events it produced, and the clock readings it left unused.
pub ghost struct RunOut<T> {
    pub result: Result<ExecResult, ErrorView>,
    pub tree: T,
    pub events: Seq<EventView>,
    pub seeds: Seq<u64>,
}

/// `o` with `ev` produced before its events.
pub open spec fn after_events<T>(ev: Seq<EventView>, o: RunOut<T>) -> RunOut<T> {
    RunOut { result: o.result, tree: o.tree, events: ev + o.events, seeds: o.seeds }
}

/// Running a command.
pub open spec fn cmd_spec<T: TreeOps>(
    op: char,
    g: GenView,
    depth: nat,
    idx: Seq<i64>,
    tree: T,
    seeds: Seq<u64>,
) -> RunOut<T> {
    if op == 'i' || op == 'd' || op == 's' {
        let (vals, left) = resolve_spec(g, depth, idx, seeds);
        match vals {
            Err(err) => RunOut { result: Err(err), tree, events: Seq::empty(), seeds: left },
            Ok(vs) => if op == 'i' {
                RunOut {
                    result: Ok(ExecResult::Continue),
                    tree: insert_run(tree, vs),
                    events: seq![EventView::InsertBatch(vs)] + vs.map_values(
                        |v: u32| EventView::Inserted(v),
                    ),
                    seeds: left,
                }
            } else if op == 'd' {
                RunOut {
                    result: Ok(ExecResult::Continue),
                    tree: delete_run(tree, vs).0,
                    events: seq![EventView::DeleteBatch(vs)] + delete_run(tree, vs).1,
                    seeds: left,
                }
            } else {
                RunOut {
                    result: Ok(ExecResult::Continue),
                    tree,
                    events: seq![EventView::SearchBatch(vs.len() as usize)] + vs.map_values(
                        |v: u32| EventView::SearchResult(v, tree.key_set().contains(v)),
                    ),
                    seeds: left,
                }
            },
        }
    } else {
        let (result, ev) = if op == 'l' {
            (Ok(ExecResult::Continue), EventView::Leaves(tree.leaf_count() as usize))
        } else if op == 'h' {
            (Ok(ExecResult::Continue), EventView::Height(tree.tree_height() as usize))
        } else if op == 'e' {
            (Ok(ExecResult::Continue), EventView::Empty(tree.key_set() == Set::<u32>::empty()))
        } else if op == 'o' {
            (Ok(ExecResult::Continue), EventView::Inorder(sorted_keys(tree.key_set())))
        } else if op == 'p' {
            (Ok(ExecResult::Continue), EventView::Print(tree.drawing_rows()))
        } else if op == 'b' {
            (Ok(ExecResult::Back), EventView::Back)
        } else if op == 'q' {
            (Ok(ExecResult::Quit), EventView::Quit)
        } else {
            (Err(ErrorView::UnknownCommand(op)), EventView::Quit)
        };
        if result is Err {
            RunOut { result, tree, events: Seq::empty(), seeds }
        } else {
            RunOut { result, tree, events: seq![ev], seeds }
        }
    }
}

/// Running statements in order until one does not return `Continue`.
pub open spec fn run_stmts_spec<T: TreeOps>(
    stmts: Seq<StmtView>,
    depth: nat,
    idx: Seq<i64>,
    tree: T,
    seeds: Seq<u64>,
) -> RunOut<T>
    decreases stmts, 0nat, 0int,
{
    if stmts.len() == 0 {
        RunOut { result: Ok(ExecResult::Continue), tree, events: Seq::empty(), seeds }
    } else {
        let first = run_stmt_spec(stmts[0], depth, idx, tree, seeds);
        if first.result == Ok::<ExecResult, ErrorView>(ExecResult::Continue) {
            after_events(
                first.events,
                run_stmts_spec(stmts.subrange(1, stmts.len() as int), depth, idx, first.tree, first.seeds),
            )
        } else {
            first
        }
    }
}

/// Running one statement.
pub open spec fn run_stmt_spec<T: TreeOps>(
    s: StmtView,
    depth: nat,
    idx: Seq<i64>,
    tree: T,
    seeds: Seq<u64>,
) -> RunOut<T>
    decreases s, 0nat, 0int,
{
    match s {
        StmtView::Repeat { body, times } => match eval(times, depth, idx) {
            Err(err) => RunOut { result: Err(err), tree, events: Seq::empty(), seeds },
            Ok(n) => if n <= 0 {
                RunOut {
                    result: Ok(ExecResult::Continue),
                    tree,
                    events: seq![EventView::RepeatSkipped(n)],
                    seeds,
                }
            } else {
                after_events(
                    seq![EventView::RepeatStart(n, (depth + 1) as usize)],
                    repeat_spec(body, n, 1, depth + 1, idx, tree, seeds),
                )
            },
        },
        StmtView::Cmd { op, spec } => cmd_spec(op, spec, depth, idx, tree, seeds),
    }
}

/// Iterations `i`, `i + 1`, ..., `n` of a repeat block at nesting level `d`;
/// each sets `n<d>` to its number and runs the body.
pub open spec fn repeat_spec<T: TreeOps>(
    body: Seq<StmtView>,
    n: i64,
    i: int,
    d: nat,
    idx: Seq<i64>,
    tree: T,
    seeds: Seq<u64>,
) -> RunOut<T>
    decreases body, 1nat, n + 1 - i,
{
    if i > n || i < 1 || d < 1 {
        RunOut {
            result: Ok(ExecResult::Continue),
            tree,
            events: seq![EventView::RepeatDone],
            seeds,
        }
    } else {
        let inner = run_stmts_spec(body, d, idx.update(d - 1, i as i64), tree, seeds);
        let ev = seq![EventView::RepeatIter(i as i64, n)] + inner.events;
        match inner.result {
            Ok(ExecResult::Continue) => after_events(
                ev,
                repeat_spec(body, n, i + 1, d, idx, inner.tree, inner.seeds),
            ),
            Ok(other) => RunOut {
                result: Ok(other),
                tree: inner.tree,
                events: ev.push(EventView::RepeatInterrupted),
                seeds: inner.seeds,
            },
            Err(err) => RunOut { result: Err(err), tree: inner.tree, events: ev, seeds: inner.seeds },
        }
    }
}


#[verifier::external_type_specification]
#[verifier::external_body]
pub struct ExSystemTime(SystemTime);

#[verifier::external_type_specification]
#[verifier::external_body]
pub struct ExSystemTimeError(SystemTimeError);

/// `SystemTime::now`: the current time of the system clock. Nothing is claimed
/// of the value.
#[verifier::external_body]
fn system_now() -> SystemTime {
    SystemTime::now()
}

/// `SystemTime::duration_since(UNIX_EPOCH)`: the time elapsed since the Unix
/// epoch, or an error when the clock reads earlier than it. Nothing is claimed
/// of the value.
#[verifier::external_body]
fn since_unix_epoch(t: &SystemTime) -> Result<Duration, SystemTimeError> {
    t.duration_since(UNIX_EPOCH)
}

/// `Duration::subsec_nanos`: the fractional part of a duration in nanoseconds,
/// which its documentation says is always less than one billion.
#[verifier::external_body]
fn subsec_nanos(d: &Duration) -> (n: u32)
    ensures
        n < 1_000_000_000,
{
    d.subsec_nanos()
}

/// The generator seed for a clock reading: the nanoseconds within the current
/// second when the clock reads after the Unix epoch (`Some`), or 42 when it reads
/// before it (`None`).
pub fn seed_from_nanos(nanos: Option<u32>) -> (seed: u64)
    ensures
        seed == match nanos {
            Some(n) => n as u64,
            None => 42u64,
        },
{
    match nanos {
        Some(n) => n as u64,
        None => 42,
    }
}

/// A seed for the generator from the system clock: `seed_from_nanos` of the
/// nanoseconds within the current second, or of `None` when the clock reads
/// before the Unix epoch. Which reading the clock gives is not known, so only
/// the bound that holds for every reading is stated.
fn clock_seed() -> (seed: u64)
    ensures
        seed < 1_000_000_000,
{
    let now = system_now();
    let nanos = match since_unix_epoch(&now) {
        Ok(d) => Some(subsec_nanos(&d)),
        Err(_) => None,
    };
    seed_from_nanos(nanos)
}

/// A value as a key, or `OutOfRange` when it is negative or above `u32::MAX`.
pub fn to_u32(v: i64) -> (r: Result<u32, LangError>)
    ensures
        match (r, to_u32_spec(v)) {
            (Ok(a), Ok(b)) => a == b,
            (Err(e), Err(se)) => e@ == se,
            _ => false,
        },
{
    if v < 0 || v > u32::MAX as i64 {
        Err(LangError::OutOfRange(v))
    } else {
        Ok(v as u32)
    }
}

/// `n` pseudorandom values in `[min, max]` from a linear congruential generator
/// started at `seed`.
pub fn lcg_rand(min: u32, max: u32, n: usize, seed: u64) -> (vals: Vec<u32>)
    requires
        min <= max,
    ensures
        vals@ == lcg_values(min, max, n as nat, seed),
{
    let range: u64 = (max - min) as u64 + 1;
    let mut state = seed;
    let mut vals: Vec<u32> = Vec::new();
    let mut k: usize = 0;
    while k < n
        invariant
            min <= max,
            range == (max - min + 1) as u64,
            k <= n,
            state == lcg_state(seed, k as nat),
            vals@ == lcg_values(min, max, k as nat, seed),
        decreases n - k,
    {
        state = state.wrapping_mul(6_364_136_223_846_793_005).wrapping_add(1_442_695_040_888_963_407);
        let offset = (state >> 33) % range;
        assert(offset < range);
        vals.push(min + offset as u32);
        k += 1;
        assert(vals@ =~= lcg_values(min, max, k as nat, seed));
    }
    vals
}


/// The clock readings taken after `before` that `after` adds to it.
pub open spec fn reads_since(before: Seq<u64>, after: Seq<u64>) -> Seq<u64> {
    after.subrange(before.len() as int, after.len() as int)
}

/// `r` is the exec outcome of resolving a generator whose specification is `o`,
/// with `rest` the readings left unused.
pub open spec fn resolve_matches(
    r: Result<Vec<u32>, LangError>,
    o: (Result<Seq<u32>, ErrorView>, Seq<u64>),
    rest: Seq<u64>,
) -> bool {
    &&& match (r, o.0) {
        (Ok(v), Ok(vs)) => v@ == vs,
        (Err(e), Err(se)) => e@ == se,
        _ => false,
    }
    &&& o.1 == rest
}

/// `r`, the tree after, and the events added to `before` to give `after`, are
/// the specified outcome `o`, which leaves the readings `rest` unused.
pub open spec fn outcome_matches<T>(
    r: Result<ExecResult, LangError>,
    tree_after: T,
    before: Seq<Event>,
    after: Seq<Event>,
    o: RunOut<T>,
    rest: Seq<u64>,
) -> bool {
    &&& match (r, o.result) {
        (Ok(a), Ok(b)) => a == b,
        (Err(e), Err(se)) => e@ == se,
        _ => false,
    }
    &&& tree_after == o.tree
    &&& event_views(after) == event_views(before) + o.events
    &&& o.seeds == rest
}

/// An error in a literal list stays the outcome of every longer prefix.
proof fn lemma_eval_literals_err(es: Seq<Expr>, k: int, j: int, depth: nat, idx: Seq<i64>)
    requires
        0 <= k <= j <= es.len(),
        eval_literals(es.take(k), depth, idx) is Err,
    ensures
        eval_literals(es.take(j), depth, idx) == eval_literals(es.take(k), depth, idx),
    decreases j - k,
{
    if j > k {
        lemma_eval_literals_err(es, k, j - 1, depth, idx);
        assert(es.take(j).drop_last() =~= es.take(j - 1));
    }
}

/// Viewing events with one more appended appends that event's view.
proof fn lemma_event_views_push(s: Seq<Event>, e: Event)
    ensures
        event_views(s.push(e)) == event_views(s).push(event_view(e)),
{
    assert(event_views(s.push(e)) =~= event_views(s).push(event_view(e)));
}

/// Running a non-empty tail of statements runs its first statement, then the
/// rest of the tail when the first returns `Continue`.
proof fn lemma_run_stmts_unfold<T: TreeOps>(
    sv: Seq<StmtView>,
    k: int,
    depth: nat,
    idx: Seq<i64>,
    tree: T,
    seeds: Seq<u64>,
)
    requires
        0 <= k < sv.len(),
    ensures
        ({
            let first = run_stmt_spec(sv[k], depth, idx, tree, seeds);
            run_stmts_spec(sv.subrange(k, sv.len() as int), depth, idx, tree, seeds) == if first.result
                == Ok::<ExecResult, ErrorView>(ExecResult::Continue) {
                after_events(
                    first.events,
                    run_stmts_spec(
                        sv.subrange(k + 1, sv.len() as int),
                        depth,
                        idx,
                        first.tree,
                        first.seeds,
                    ),
                )
            } else {
                first
            }
        }),
{
    let t = sv.subrange(k, sv.len() as int);
    assert(t[0] == sv[k]);
    assert(t.subrange(1, t.len() as int) =~= sv.subrange(k + 1, sv.len() as int));
}

/// One more iteration of a repeat block that returned `Continue` extends the
/// composition of the iterations run so far.
proof fn lemma_repeat_continue<T: TreeOps>(
    bv: Seq<StmtView>,
    n: i64,
    i: int,
    d: nat,
    idx0: Seq<i64>,
    tree0: T,
    tree_i: T,
    tree_after: T,
    evs: Seq<EventView>,
    inner_evs: Seq<EventView>,
    pre: Seq<u64>,
    nr: Seq<u64>,
)
    requires
        1 <= i <= n,
        d >= 1,
        forall|rest: Seq<u64>| #[trigger]
            repeat_spec(bv, n, 1, d, idx0, tree0, pre + rest) == after_events(
                evs,
                repeat_spec(bv, n, i, d, idx0, tree_i, rest),
            ),
        forall|rest: Seq<u64>|
            #[trigger] run_stmts_spec(bv, d, idx0.update(d - 1, i as i64), tree_i, nr + rest)
                == (RunOut {
                result: Ok(ExecResult::Continue),
                tree: tree_after,
                events: inner_evs,
                seeds: rest,
            }),
    ensures
        forall|rest: Seq<u64>| #[trigger]
            repeat_spec(bv, n, 1, d, idx0, tree0, (pre + nr) + rest) == after_events(
                evs + (seq![EventView::RepeatIter(i as i64, n)] + inner_evs),
                repeat_spec(bv, n, i + 1, d, idx0, tree_after, rest),
            ),
{
    assert forall|rest: Seq<u64>| #[trigger]
        repeat_spec(bv, n, 1, d, idx0, tree0, (pre + nr) + rest) == after_events(
            evs + (seq![EventView::RepeatIter(i as i64, n)] + inner_evs),
            repeat_spec(bv, n, i + 1, d, idx0, tree_after, rest),
        ) by {
        assert((pre + nr) + rest =~= pre + (nr + rest));
        assert(repeat_spec(bv, n, 1, d, idx0, tree0, pre + (nr + rest)) == after_events(
            evs,
            repeat_spec(bv, n, i, d, idx0, tree_i, nr + rest),
        ));
        assert(run_stmts_spec(bv, d, idx0.update(d - 1, i as i64), tree_i, nr + rest).result
            == Ok::<ExecResult, ErrorView>(ExecResult::Continue));
        let tail = repeat_spec(bv, n, i + 1, d, idx0, tree_after, rest);
        assert(after_events(
            evs,
            after_events(seq![EventView::RepeatIter(i as i64, n)] + inner_evs, tail),
        ).events =~= (evs + (seq![EventView::RepeatIter(i as i64, n)] + inner_evs))
            + tail.events);
    }
}

/// An iteration of a repeat block that did not return `Continue` ends the block
/// with that outcome.
proof fn lemma_repeat_stop<T: TreeOps>(
    bv: Seq<StmtView>,
    n: i64,
    i: int,
    d: nat,
    idx0: Seq<i64>,
    tree0: T,
    tree_i: T,
    evs: Seq<EventView>,
    pre: Seq<u64>,
    nr: Seq<u64>,
    rest: Seq<u64>,
)
    requires
        1 <= i <= n,
        d >= 1,
        repeat_spec(bv, n, 1, d, idx0, tree0, pre + (nr + rest)) == after_events(
            evs,
            repeat_spec(bv, n, i, d, idx0, tree_i, nr + rest),
        ),
        run_stmts_spec(bv, d, idx0.update(d - 1, i as i64), tree_i, nr + rest).result
            != Ok::<ExecResult, ErrorView>(ExecResult::Continue),
    ensures
        ({
            let inner = run_stmts_spec(bv, d, idx0.update(d - 1, i as i64), tree_i, nr + rest);
            let ev = evs + (seq![EventView::RepeatIter(i as i64, n)] + inner.events);
            repeat_spec(bv, n, 1, d, idx0, tree0, (pre + nr) + rest) == if inner.result is Ok {
                RunOut {
                    result: inner.result,
                    tree: inner.tree,
                    events: ev.push(EventView::RepeatInterrupted),
                    seeds: inner.seeds,
                }
            } else {
                RunOut { result: inner.result, tree: inner.tree, events: ev, seeds: inner.seeds }
            }
        }),
{
    assert((pre + nr) + rest =~= pre + (nr + rest));
    let inner = run_stmts_spec(bv, d, idx0.update(d - 1, i as i64), tree_i, nr + rest);
    let ev0 = seq![EventView::RepeatIter(i as i64, n)] + inner.events;
    assert(evs + ev0.push(EventView::RepeatInterrupted) =~= (evs + ev0).push(
        EventView::RepeatInterrupted,
    ));
}

/// The outcome of a repeat block whose iteration `i` did not return `Continue`.
proof fn lemma_repeat_stop_outcome<T: TreeOps>(
    bv: Seq<StmtView>,
    times: Expr,
    n: i64,
    i: int,
    d0: nat,
    idx0: Seq<i64>,
    tree0: T,
    tree_i: T,
    tree_f: T,
    evs: Seq<EventView>,
    pre: Seq<u64>,
    nr: Seq<u64>,
    res: Result<ExecResult, LangError>,
    out0: Seq<Event>,
    out_i2: Seq<Event>,
    out_e: Seq<Event>,
    out_f: Seq<Event>,
)
    requires
        1 <= i <= n,
        eval(times, d0, idx0) == Ok::<i64, ErrorView>(n),
        res != Ok::<ExecResult, LangError>(ExecResult::Continue),
        forall|rest: Seq<u64>| #[trigger]
            repeat_spec(bv, n, 1, d0 + 1, idx0, tree0, pre + rest) == after_events(
                evs,
                repeat_spec(bv, n, i, d0 + 1, idx0, tree_i, rest),
            ),
        forall|rest: Seq<u64>|
            outcome_matches(
                res,
                tree_f,
                out_i2,
                out_e,
                #[trigger] run_stmts_spec(bv, d0 + 1, idx0.update(d0 as int, i as i64), tree_i, nr + rest),
                rest,
            ),
        event_views(out_i2) == event_views(out0) + seq![EventView::RepeatStart(n, (d0 + 1) as usize)]
            + evs + seq![EventView::RepeatIter(i as i64, n)],
        out_f == if res is Ok {
            out_e.push(Event::RepeatInterrupted)
        } else {
            out_e
        },
    ensures
        forall|rest: Seq<u64>|
            outcome_matches(
                res,
                tree_f,
                out0,
                out_f,
                #[trigger] run_stmt_spec(
                    StmtView::Repeat { body: bv, times },
                    d0,
                    idx0,
                    tree0,
                    (pre + nr) + rest,
                ),
                rest,
            ),
{
    assert forall|rest: Seq<u64>|
        outcome_matches(
            res,
            tree_f,
            out0,
            out_f,
            #[trigger] run_stmt_spec(
                StmtView::Repeat { body: bv, times },
                d0,
                idx0,
                tree0,
                (pre + nr) + rest,
            ),
            rest,
        ) by {
        let inner = run_stmts_spec(bv, d0 + 1, idx0.update(d0 as int, i as i64), tree_i, nr + rest);
        assert(outcome_matches(res, tree_f, out_i2, out_e, inner, rest));
        assert(repeat_spec(bv, n, 1, d0 + 1, idx0, tree0, pre + (nr + rest)) == after_events(
            evs,
            repeat_spec(bv, n, i, d0 + 1, idx0, tree_i, nr + rest),
        ));
        assert((d0 + 1 - 1) as int == d0 as int);
        lemma_repeat_stop(bv, n, i, d0 + 1, idx0, tree0, tree_i, evs, pre, nr, rest);
        if res is Ok {
            lemma_event_views_push(out_e, Event::RepeatInterrupted);
            assert(event_views(out_f) =~= event_views(out0) + (seq![
                EventView::RepeatStart(n, (d0 + 1) as usize),
            ] + (evs + (seq![EventView::RepeatIter(i as i64, n)] + inner.events)).push(
                EventView::RepeatInterrupted,
            )));
        } else {
            assert(event_views(out_f) =~= event_views(out0) + (seq![
                EventView::RepeatStart(n, (d0 + 1) as usize),
            ] + (evs + (seq![EventView::RepeatIter(i as i64, n)] + inner.events))));
        }
    }
}

/// Prepending no readings to `rest` leaves `rest`.
proof fn lemma_no_reads()
    ensures
        forall|rest: Seq<u64>| #[trigger] (Seq::<u64>::empty() + rest) == rest,
{
    assert forall|rest: Seq<u64>| #[trigger] (Seq::<u64>::empty() + rest) == rest by {
        assert(Seq::<u64>::empty() + rest =~= rest);
    }
}

/// A copy of a list of keys.
fn copy_keys(v: &Vec<u32>) -> (c: Vec<u32>)
    ensures
        c@ == v@,
{
    let mut c: Vec<u32> = Vec::new();
    let mut k: usize = 0;
    while k < v.len()
        invariant
            k <= v.len(),
            c@ == v@.take(k as int),
        decreases v.len() - k,
    {
        c.push(v[k]);
        k += 1;
        assert(c@ =~= v@.take(k as int));
    }
    assert(c@ =~= v@);
    c
}

/// Runs statements against a tree, keeping the indices of the running repeat
/// blocks (`n1` outermost .. `n4` innermost) and the nesting depth.
struct Executor {
    loop_indices: Vec<i64>,
    depth: usize,
    reads: Ghost<Seq<u64>>,
}

impl Executor {
    /// The indices `n1`..`n4`.
    spec fn idx(&self) -> Seq<i64> {
        self.loop_indices@
    }

    /// The number of repeat blocks running.
    spec fn depth(&self) -> nat {
        self.depth as nat
    }

    /// The clock readings taken so far.
    spec fn reads(&self) -> Seq<u64> {
        self.reads@
    }

    /// Four indices, at most four blocks running, and the indices of the levels
    /// not running are zero.
    spec fn wf(&self) -> bool {
        &&& self.loop_indices.len() == 4
        &&& self.depth <= 4
        &&& forall|j: int| self.depth <= j < 4 ==> #[trigger] self.loop_indices@[j] == 0
        &&& forall|j: int| 0 <= j < self.reads@.len() ==> #[trigger] self.reads@[j] < 1_000_000_000
    }

    /// An executor outside any repeat block.
    fn new() -> (e: Executor)
        ensures
            e.wf(),
            e.depth() == 0,
            e.idx() == seq![0i64, 0i64, 0i64, 0i64],
            e.reads() == Seq::<u64>::empty(),
    {
        let mut loop_indices = Vec::new();
        loop_indices.push(0);
        loop_indices.push(0);
        loop_indices.push(0);
        loop_indices.push(0);
        assert(loop_indices@ =~= seq![0i64, 0i64, 0i64, 0i64]);
        Executor { loop_indices, depth: 0, reads: Ghost(Seq::empty()) }
    }

    /// The value of an expression.
    fn eval(&self, expr: &Expr) -> (r: Result<i64, LangError>)
        requires
            self.wf(),
        ensures
            match (r, eval(*expr, self.depth(), self.idx())) {
                (Ok(a), Ok(b)) => a == b,
                (Err(e), Err(se)) => e@ == se,
                _ => false,
            },
        decreases expr,
    {
        match expr {
            Expr::Num(n) => Ok(*n),
            Expr::Idx(d) => {
                if *d == 0 || *d > self.depth {
                    Err(LangError::IndexTooDeep(*d, self.depth))
                } else {
                    Ok(self.loop_indices[*d - 1])
                }
            },
            Expr::Add(a, b) => {
                let x = match self.eval(a) {
                    Ok(x) => x,
                    Err(e) => return Err(e),
                };
                let y = match self.eval(b) {
                    Ok(y) => y,
                    Err(e) => return Err(e),
                };
                match x.checked_add(y) {
                    Some(z) => Ok(z),
                    None => Err(LangError::ArithmeticOverflow),
                }
            },
            Expr::Sub(a, b) => {
                let x = match self.eval(a) {
                    Ok(x) => x,
                    Err(e) => return Err(e),
                };
                let y = match self.eval(b) {
                    Ok(y) => y,
                    Err(e) => return Err(e),
                };
                match x.checked_sub(y) {
                    Some(z) => Ok(z),
                    None => Err(LangError::ArithmeticOverflow),
                }
            },
            Expr::Mul(a, b) => {
                let x = match self.eval(a) {
                    Ok(x) => x,
                    Err(e) => return Err(e),
                };
                let y = match self.eval(b) {
                    Ok(y) => y,
                    Err(e) => return Err(e),
                };
                match x.checked_mul(y) {
                    Some(z) => Ok(z),
                    None => Err(LangError::ArithmeticOverflow),
                }
            },
        }
    }

    /// The values of a generator; a `rand` generator reads the clock for its seed.
    fn resolve(&mut self, spec: &GenSpec) -> (r: Result<Vec<u32>, LangError>)
        requires
            old(self).wf(),
        ensures
            final(self).wf(),
            final(self).depth() == old(self).depth(),
            final(self).idx() == old(self).idx(),
            old(self).reads().is_prefix_of(final(self).reads()),
            forall|rest: Seq<u64>|
                resolve_matches(
                    r,
                    #[trigger] resolve_spec(
                        spec@,
                        old(self).depth(),
                        old(self).idx(),
                        reads_since(old(self).reads(), final(self).reads()) + rest,
                    ),
                    rest,
                ),
    {
        let ghost d = self.depth();
        let ghost idx = self.idx();
        let ghost r0 = self.reads();
        proof {
            assert(reads_since(r0, r0) =~= Seq::<u64>::empty());
            lemma_no_reads();
        }
        match spec {
            GenSpec::Empty => Ok(Vec::new()),
            GenSpec::Literals(exprs) => {
                let mut vals: Vec<u32> = Vec::new();
                let mut k: usize = 0;
                while k < exprs.len()
                    invariant
                        self.wf(),
                        self.depth() == d,
                        self.idx() == idx,
                        self.reads() == r0,
                        d == old(self).depth(),
                        idx == old(self).idx(),
                        r0 == old(self).reads(),
                        reads_since(r0, r0) == Seq::<u64>::empty(),
                        spec@ == GenView::Literals(exprs@),
                        k <= exprs.len(),
                        eval_literals(exprs@.take(k as int), d, idx) == Ok::<Seq<u32>, ErrorView>(
                            vals@,
                        ),
                    decreases exprs.len() - k,
                {
                    assert(exprs@.take(k + 1).drop_last() =~= exprs@.take(k as int));
                    let v = match self.eval(&exprs[k]) {
                        Ok(v) => v,
                        Err(e) => {
                            proof {
                                lemma_eval_literals_err(exprs@, k + 1, exprs.len() as int, d, idx);
                                assert(exprs@.take(exprs.len() as int) =~= exprs@);
                            }
                            proof {
                                lemma_no_reads();
                            }
                            return Err(e);
                        },
                    };
                    let u = match to_u32(v) {
                        Ok(u) => u,
                        Err(e) => {
                            proof {
                                lemma_eval_literals_err(exprs@, k + 1, exprs.len() as int, d, idx);
                                assert(exprs@.take(exprs.len() as int) =~= exprs@);
                                lemma_no_reads();
                            }
                            return Err(e);
                        },
                    };
                    vals.push(u);
                    k += 1;
                }
                assert(exprs@.take(exprs.len() as int) =~= exprs@);
                Ok(vals)
            },
            GenSpec::Rand { min, max, count } => {
                let lo = match self.eval(min) {
                    Ok(a) => match to_u32(a) {
                        Ok(u) => u,
                        Err(e) => return Err(e),
                    },
                    Err(e) => return Err(e),
                };
                let hi = match self.eval(max) {
                    Ok(b) => match to_u32(b) {
                        Ok(u) => u,
                        Err(e) => return Err(e),
                    },
                    Err(e) => return Err(e),
                };
                let c = match self.eval(count) {
                    Ok(c) => c,
                    Err(e) => return Err(e),
                };
                if lo > hi {
                    return Err(LangError::RandMinAboveMax(lo, hi));
                }
                if c < 0 {
                    return Err(LangError::NegativeCount(c));
                }
                let n = c as usize;
                let seed = clock_seed();
                self.reads = Ghost(self.reads@.push(seed));
                proof {
                    assert(reads_since(r0, self.reads()) =~= seq![seed]);
                    assert forall|rest: Seq<u64>|
                        (seq![seed] + rest)[0] == seed && (seq![seed] + rest).drop_first()
                            == rest by {
                        assert((seq![seed] + rest).drop_first() =~= rest);
                    }
                }
                Ok(lcg_rand(lo, hi, n, seed))
            },
            GenSpec::Rang { min, max, step } => {
                let a = match self.eval(min) {
                    Ok(a) => a,
                    Err(e) => return Err(e),
                };
                let b = match self.eval(max) {
                    Ok(b) => b,
                    Err(e) => return Err(e),
                };
                let st = match step {
                    Some(s) => match self.eval(s) {
                        Ok(x) => x,
                        Err(e) => return Err(e),
                    },
                    None => 1,
                };
                if st == 0 {
                    return Err(LangError::ZeroStep);
                }
                let mut vals: Vec<u32> = Vec::new();
                let mut v = a;
                if st > 0 {
                    let mut going = true;
                    while going && v <= b
                        invariant
                            self.wf(),
                            self.depth() == d,
                            self.idx() == idx,
                            self.reads() == r0,
                            d == old(self).depth(),
                            idx == old(self).idx(),
                            r0 == old(self).reads(),
                            reads_since(r0, r0) == Seq::<u64>::empty(),
                            spec@ == (GenView::Rang { min: *min, max: *max, step: *step }),
                            rang_params(*min, *max, *step, d, idx) == Ok::<(i64, i64, i64), ErrorView>((a, b, st)),
                            st > 0,
                            going ==> rang_from(a, b, st) == match rang_from(v, b, st) {
                                Ok(r) => Ok(vals@ + r),
                                Err(e) => Err(e),
                            },
                            !going ==> rang_from(a, b, st) == Ok::<Seq<u32>, ErrorView>(vals@),
                        decreases rang_measure(v, st) + if going { 1nat } else { 0nat },
                    {
                        let u = match to_u32(v) {
                            Ok(u) => u,
                            Err(e) => {
                                proof {
                                    lemma_no_reads();
                                }
                                return Err(e);
                            },
                        };
                        match v.checked_add(st) {
                            Some(w) => {
                                proof {
                                    lemma_rang_step(v, st);
                                    match rang_from(w, b, st) {
                                        Ok(r) => {
                                            assert(vals@ + (seq![u] + r) =~= vals@.push(u) + r);
                                        },
                                        Err(_) => {},
                                    }
                                }
                                vals.push(u);
                                v = w;
                            },
                            None => {
                                proof {
                                    assert(vals@ + seq![u] =~= vals@.push(u));
                                }
                                vals.push(u);
                                going = false;
                            },
                        }
                    }
                } else {
                    let mut going = true;
                    while going && v >= b
                        invariant
                            self.wf(),
                            self.depth() == d,
                            self.idx() == idx,
                            self.reads() == r0,
                            d == old(self).depth(),
                            idx == old(self).idx(),
                            r0 == old(self).reads(),
                            reads_since(r0, r0) == Seq::<u64>::empty(),
                            spec@ == (GenView::Rang { min: *min, max: *max, step: *step }),
                            rang_params(*min, *max, *step, d, idx) == Ok::<(i64, i64, i64), ErrorView>((a, b, st)),
                            st < 0,
                            going ==> rang_from(a, b, st) == match rang_from(v, b, st) {
                                Ok(r) => Ok(vals@ + r),
                                Err(e) => Err(e),
                            },
                            !going ==> rang_from(a, b, st) == Ok::<Seq<u32>, ErrorView>(vals@),
                        decreases rang_measure(v, st) + if going { 1nat } else { 0nat },
                    {
                        let u = match to_u32(v) {
                            Ok(u) => u,
                            Err(e) => {
                                proof {
                                    lemma_no_reads();
                                }
                                return Err(e);
                            },
                        };
                        match v.checked_add(st) {
                            Some(w) => {
                                proof {
                                    lemma_rang_step(v, st);
                                    match rang_from(w, b, st) {
                                        Ok(r) => {
                                            assert(vals@ + (seq![u] + r) =~= vals@.push(u) + r);
                                        },
                                        Err(_) => {},
                                    }
                                }
                                vals.push(u);
                                v = w;
                            },
                            None => {
                                proof {
                                    assert(vals@ + seq![u] =~= vals@.push(u));
                                }
                                vals.push(u);
                                going = false;
                            },
                        }
                    }
                }
                assert(vals@ + Seq::<u32>::empty() =~= vals@);
                Ok(vals)
            },
        }
    }

    /// Runs one command.
    fn run_cmd<T: TreeOps>(
        &mut self,
        op: char,
        spec: &GenSpec,
        tree: &mut T,
        out: &mut Vec<Event>,
    ) -> (r: Result<ExecResult, LangError>)
        requires
            old(self).wf(),
            old(tree).inv(),
        ensures
            final(self).wf(),
            final(tree).inv(),
            final(self).depth() == old(self).depth(),
            final(self).idx() == old(self).idx(),
            old(self).reads().is_prefix_of(final(self).reads()),
            forall|rest: Seq<u64>|
                outcome_matches(
                    r,
                    *final(tree),
                    old(out)@,
                    final(out)@,
                    #[trigger] cmd_spec(
                        op,
                        spec@,
                        old(self).depth(),
                        old(self).idx(),
                        *old(tree),
                        reads_since(old(self).reads(), final(self).reads()) + rest,
                    ),
                    rest,
                ),
    {
        let ghost d = self.depth();
        let ghost idx = self.idx();
        let ghost r0 = self.reads();
        let ghost tree0 = *tree;
        let ghost out0 = out@;
        proof {
            assert(reads_since(r0, r0) =~= Seq::<u64>::empty());
            lemma_no_reads();
            assert(event_views(out0) + Seq::<EventView>::empty() =~= event_views(out0));
        }
        if op == 'i' || op == 'd' || op == 's' {
            let vals = match self.resolve(spec) {
                Ok(v) => v,
                Err(e) => return Err(e),
            };
            let ghost nr = reads_since(r0, self.reads());
            let ghost vs = vals@;
            let ghost base = event_views(out0);
            if op == 'i' {
                out.push(Event::InsertBatch(copy_keys(&vals)));
                let mut k: usize = 0;
                while k < vals.len()
                    invariant
                        tree.inv(),
                        k <= vals.len(),
                        vs == vals@,
                        *tree == insert_run(tree0, vs.take(k as int)),
                        event_views(out@) == base + seq![EventView::InsertBatch(vs)] + vs.take(
                            k as int,
                        ).map_values(|v: u32| EventView::Inserted(v)),
                    decreases vals.len() - k,
                {
                    let v = vals[k];
                    tree.insert(v);
                    let ghost prev = out@;
                    out.push(Event::Inserted(v));
                    proof {
                        lemma_event_views_push(prev, Event::Inserted(v));
                        assert(vs.take(k + 1).drop_last() =~= vs.take(k as int));
                        assert(vs.take(k + 1).map_values(|v: u32| EventView::Inserted(v))
                            =~= vs.take(k as int).map_values(|v: u32| EventView::Inserted(v)).push(
                            EventView::Inserted(v),
                        ));
                    }
                    k += 1;
                }
                proof {
                    assert(vs.take(vs.len() as int) =~= vs);
                    assert(event_views(out@) =~= base + (seq![EventView::InsertBatch(vs)]
                        + vs.map_values(|v: u32| EventView::Inserted(v))));
                }
            } else if op == 'd' {
                out.push(Event::DeleteBatch(copy_keys(&vals)));
                let mut k: usize = 0;
                while k < vals.len()
                    invariant
                        tree.inv(),
                        k <= vals.len(),
                        vs == vals@,
                        *tree == delete_run(tree0, vs.take(k as int)).0,
                        event_views(out@) == base + seq![EventView::DeleteBatch(vs)] + delete_run(
                            tree0,
                            vs.take(k as int),
                        ).1,
                    decreases vals.len() - k,
                {
                    let v = vals[k];
                    proof {
                        assert(vs.take(k + 1).drop_last() =~= vs.take(k as int));
                    }
                    let ghost prev = out@;
                    if tree.delete(v) {
                        out.push(Event::Deleted(v));
                        proof {
                            lemma_event_views_push(prev, Event::Deleted(v));
                        }
                    } else {
                        out.push(Event::NotFound(v));
                        proof {
                            lemma_event_views_push(prev, Event::NotFound(v));
                        }
                    }
                    proof {
                        assert(event_views(out@) =~= base + seq![EventView::DeleteBatch(vs)]
                            + delete_run(tree0, vs.take(k + 1)).1);
                    }
                    k += 1;
                }
                proof {
                    assert(vs.take(vs.len() as int) =~= vs);
                    assert(event_views(out@) =~= base + (seq![EventView::DeleteBatch(vs)]
                        + delete_run(tree0, vs).1));
                }
            } else {
                out.push(Event::SearchBatch(vals.len()));
                let mut k: usize = 0;
                while k < vals.len()
                    invariant
                        tree.inv(),
                        *tree == tree0,
                        k <= vals.len(),
                        vs == vals@,
                        event_views(out@) == base + seq![EventView::SearchBatch(vs.len() as usize)]
                            + vs.take(k as int).map_values(
                            |v: u32| EventView::SearchResult(v, tree0.key_set().contains(v)),
                        ),
                    decreases vals.len() - k,
                {
                    let v = vals[k];
                    let found = tree.search(v);
                    let ghost prev = out@;
                    out.push(Event::SearchResult(v, found));
                    proof {
                        lemma_event_views_push(prev, Event::SearchResult(v, found));
                        assert(vs.take(k + 1).map_values(
                            |v: u32| EventView::SearchResult(v, tree0.key_set().contains(v)),
                        ) =~= vs.take(k as int).map_values(
                            |v: u32| EventView::SearchResult(v, tree0.key_set().contains(v)),
                        ).push(EventView::SearchResult(v, found)));
                    }
                    k += 1;
                }
                proof {
                    assert(vs.take(vs.len() as int) =~= vs);
                    assert(event_views(out@) =~= base + (seq![
                        EventView::SearchBatch(vs.len() as usize),
                    ] + vs.map_values(|v: u32| EventView::SearchResult(v, tree0.key_set().contains(v)))));
                }
            }
            return Ok(ExecResult::Continue);
        }
        let result = if op == 'l' {
            out.push(Event::Leaves(tree.count_leaves()));
            ExecResult::Continue
        } else if op == 'h' {
            out.push(Event::Height(tree.height()));
            ExecResult::Continue
        } else if op == 'e' {
            out.push(Event::Empty(tree.is_empty()));
            ExecResult::Continue
        } else if op == 'o' {
            let keys = tree.inorder();
            proof {
                lemma_sorted_keys(keys@, tree.key_set());
            }
            out.push(Event::Inorder(keys));
            ExecResult::Continue
        } else if op == 'p' {
            out.push(Event::Print(tree.drawing()));
            ExecResult::Continue
        } else if op == 'b' {
            out.push(Event::Back);
            ExecResult::Back
        } else if op == 'q' {
            out.push(Event::Quit);
            ExecResult::Quit
        } else {
            return Err(LangError::UnknownCommand(op));
        };
        proof {
            assert(event_views(out@) =~= event_views(out0).push(event_view(out@.last())));
        }
        Ok(result)
    }

    /// Runs a repeat block: its body `times` times, with the block's loop index
    /// set to 1, 2, ... in turn.
    #[verifier::rlimit(100)]
    fn run_repeat<T: TreeOps>(
        &mut self,
        body: &Vec<Stmt>,
        times: &Expr,
        tree: &mut T,
        out: &mut Vec<Event>,
    ) -> (r: Result<ExecResult, LangError>)
        requires
            old(self).wf(),
            old(tree).inv(),
            nesting_within(
                stmt_view(Stmt::Repeat { body: *body, times: *times }),
                (4 - old(self).depth()) as nat,
            ),
        ensures
            final(self).wf(),
            final(tree).inv(),
            r is Ok ==> final(self).depth() == old(self).depth() && final(self).idx() == old(
                self,
            ).idx(),
            old(self).reads().is_prefix_of(final(self).reads()),
            forall|rest: Seq<u64>|
                outcome_matches(
                    r,
                    *final(tree),
                    old(out)@,
                    final(out)@,
                    #[trigger] run_stmt_spec(
                        stmt_view(Stmt::Repeat { body: *body, times: *times }),
                        old(self).depth(),
                        old(self).idx(),
                        *old(tree),
                        reads_since(old(self).reads(), final(self).reads()) + rest,
                    ),
                    rest,
                ),
        decreases body, 1nat,
    {
        let ghost d0 = self.depth();
        let ghost idx0 = self.idx();
        let ghost r0 = self.reads();
        let ghost tree0 = *tree;
        let ghost out0 = out@;
        let ghost bv = stmts_view(body@);
        proof {
            assert(reads_since(r0, r0) =~= Seq::<u64>::empty());
            lemma_no_reads();
            lemma_stmts_view_index(body@);
        }
        proof {
            assert(stmt_view(Stmt::Repeat { body: *body, times: *times }) == (StmtView::Repeat { body: bv, times: *times }));
        }
        let n = match self.eval(times) {
            Ok(n) => n,
            Err(e) => {
                proof {
                    assert(event_views(out@) =~= event_views(out0) + Seq::<EventView>::empty());
                }
                return Err(e);
            },
        };
        if n <= 0 {
            out.push(Event::RepeatSkipped(n));
            proof {
                lemma_event_views_push(out0, Event::RepeatSkipped(n));
                assert(event_views(out@) =~= event_views(out0) + seq![EventView::RepeatSkipped(n)]);
            }
            return Ok(ExecResult::Continue);
        }
        proof {
            assert forall|j: int|
                0 <= j < body.len() implies nesting_within(
                    #[trigger] stmt_view(body@[j]),
                    (4 - d0 - 1) as nat,
                ) by {
                assert(bv[j] == stmt_view(body@[j]));
            }
        }
        self.depth += 1;
        let d = self.depth;
        out.push(Event::RepeatStart(n, d));
        proof {
            lemma_event_views_push(out0, Event::RepeatStart(n, d));
        }
        let ghost mut evs: Seq<EventView> = Seq::empty();
        proof {
            assert forall|rest: Seq<u64>| #[trigger]
                repeat_spec(bv, n, 1, d as nat, idx0, tree0, reads_since(r0, self.reads()) + rest)
                    == after_events(evs, repeat_spec(bv, n, 1, d as nat, idx0, tree0, rest)) by {
                let o = repeat_spec(bv, n, 1, d as nat, idx0, tree0, rest);
                assert(after_events(evs, o).events =~= o.events);
            }
        }
        let mut i: i64 = 1;
        loop
            invariant_except_break
                1 <= i <= n,
                forall|rest: Seq<u64>| #[trigger]
                    repeat_spec(bv, n, 1, d as nat, idx0, tree0, reads_since(r0, self.reads()) + rest)
                        == after_events(evs, repeat_spec(bv, n, i as int, d as nat, idx0, *tree, rest)),
            invariant
                self.wf(),
                tree.inv(),
                d == d0 + 1,
                1 <= d <= 4,
                self.depth() == d,
                self.idx().len() == 4,
                forall|j: int| 0 <= j < 4 && j != d - 1 ==> #[trigger] self.idx()[j] == idx0[j],
                d0 == old(self).depth(),
                idx0 == old(self).idx(),
                idx0.len() == 4,
                forall|j: int| d0 <= j < 4 ==> #[trigger] idx0[j] == 0,
                r0 == old(self).reads(),
                tree0 == *old(tree),
                out0 == old(out)@,
                                bv == stmts_view(body@),
                bv.len() == body.len(),
                forall|j: int| 0 <= j < body.len() ==> #[trigger] bv[j] == stmt_view(body@[j]),
                forall|j: int|
                    0 <= j < body.len() ==> nesting_within(
                        #[trigger] stmt_view(body@[j]),
                        (4 - d) as nat,
                    ),
                eval(*times, d0, idx0) == Ok::<i64, ErrorView>(n),
                n > 0,
                r0.is_prefix_of(self.reads()),
                event_views(out@) == event_views(out0) + seq![EventView::RepeatStart(n, d)] + evs,
            ensures
                forall|rest: Seq<u64>| #[trigger]
                    repeat_spec(bv, n, 1, d as nat, idx0, tree0, reads_since(r0, self.reads()) + rest)
                        == after_events(evs, repeat_spec(bv, n, n + 1, d as nat, idx0, *tree, rest)),
            decreases n - i,
        {
            let ghost rs_i = self.reads();
            let ghost tree_i = *tree;
            let ghost out_i = out@;
            let ghost evs_i = evs;
            self.loop_indices.set((d - 1) as usize, i);
            let ghost idx_i = self.idx();
            proof {
                assert(idx_i =~= idx0.update(d - 1, i));
            }
            out.push(Event::RepeatIter(i, n));
            let ghost out_i2 = out@;
            proof {
                lemma_event_views_push(out_i, Event::RepeatIter(i, n));
            }
            let res = self.run_stmts(body, tree, out);
            let ghost nr = reads_since(rs_i, self.reads());
            let ghost inner_evs = event_views(out@).subrange(
                event_views(out_i2).len() as int,
                event_views(out@).len() as int,
            );
            proof {
                assert forall|rest: Seq<u64>|
                    reads_since(r0, self.reads()) + rest == reads_since(r0, rs_i) + (nr + rest) by {
                    assert(reads_since(r0, self.reads()) + rest =~= reads_since(r0, rs_i) + (nr
                        + rest));
                }
            }
            match res {
                Ok(ExecResult::Continue) => {},
                _ => {
                    let ghost out_e = out@;
                    if res.is_ok() {
                        self.loop_indices.set((d - 1) as usize, 0);
                        self.depth -= 1;
                        out.push(Event::RepeatInterrupted);
                        proof {
                            assert(self.idx() =~= idx0);
                        }
                    }
                    proof {
                        assert(idx_i == idx0.update(d0 as int, i as i64));
                        assert(stmts_view(body@) == bv);
                        assert(event_views(out_i2) =~= event_views(out0) + seq![EventView::RepeatStart(n, d)]
                            + evs_i + seq![EventView::RepeatIter(i, n)]);
                        lemma_repeat_stop_outcome(bv, *times, n, i as int, d0, idx0, tree0, tree_i, *tree,
                            evs_i, reads_since(r0, rs_i), nr, res, out0, out_i2, out_e, out@);
                        assert(reads_since(r0, self.reads()) =~= reads_since(r0, rs_i) + nr);
                    }
                    return res;
                },
            }
            proof {
                assert forall|rest: Seq<u64>|
                    #[trigger] run_stmts_spec(bv, d as nat, idx0.update(d - 1, i as i64), tree_i, nr + rest)
                        == (RunOut {
                        result: Ok(ExecResult::Continue),
                        tree: *tree,
                        events: inner_evs,
                        seeds: rest,
                    }) by {
                    let inner = run_stmts_spec(bv, d as nat, idx_i, tree_i, nr + rest);
                    assert(run_stmts_spec(stmts_view(body@), d as nat, idx_i, tree_i, nr + rest) == inner);
                    assert(inner_evs =~= inner.events);
                }
                lemma_repeat_continue(bv, n, i as int, d as nat, idx0, tree0, tree_i, *tree, evs_i, inner_evs, reads_since(r0, rs_i), nr);
                let inner0 = run_stmts_spec(stmts_view(body@), d as nat, idx_i, tree_i, nr + Seq::<u64>::empty());
                assert(outcome_matches(res, *tree, out_i2, out@, inner0, Seq::<u64>::empty()));
                assert(inner_evs =~= inner0.events);
                assert(event_views(out@) =~= event_views(out0) + seq![EventView::RepeatStart(n, d)]
                    + (evs_i + (seq![EventView::RepeatIter(i, n)] + inner_evs)));
                assert(reads_since(r0, self.reads()) =~= reads_since(r0, rs_i) + nr);
                evs = evs_i + (seq![EventView::RepeatIter(i, n)] + inner_evs);
            }
            if i == n {
                break;
            }
            i += 1;
        }
        let ghost out_l = out@;
        self.loop_indices.set((d - 1) as usize, 0);
        self.depth -= 1;
        out.push(Event::RepeatDone);
        proof {
            lemma_event_views_push(out_l, Event::RepeatDone);
            assert(self.idx() =~= idx0);
            assert forall|rest: Seq<u64>|
                outcome_matches(
                    Ok::<ExecResult, LangError>(ExecResult::Continue),
                    *tree,
                    out0,
                    out@,
                    #[trigger] run_stmt_spec(
                        stmt_view(Stmt::Repeat { body: *body, times: *times }),
                        d0,
                        idx0,
                        tree0,
                        reads_since(r0, self.reads()) + rest,
                    ),
                    rest,
                ) by {
                let o = repeat_spec(bv, n, n + 1, d as nat, idx0, *tree, rest);
                assert(o.events == seq![EventView::RepeatDone]);
                assert(repeat_spec(bv, n, 1, d as nat, idx0, tree0, reads_since(r0, self.reads()) + rest)
                    == after_events(evs, o));
                assert(event_views(out@) =~= event_views(out0) + (seq![EventView::RepeatStart(n, d)] + (evs + seq![EventView::RepeatDone])));
            }
        }
        Ok(ExecResult::Continue)
    }

    /// Runs statements in order until one does not return `Continue`.
    fn run_stmts<T: TreeOps>(&mut self, stmts: &Vec<Stmt>, tree: &mut T, out: &mut Vec<Event>) -> (r:
        Result<ExecResult, LangError>)
        requires
            old(self).wf(),
            old(tree).inv(),
            forall|i: int|
                0 <= i < stmts.len() ==> nesting_within(
                    #[trigger] stmt_view(stmts@[i]),
                    (4 - old(self).depth()) as nat,
                ),
        ensures
            final(self).wf(),
            final(tree).inv(),
            r is Ok ==> final(self).depth() == old(self).depth() && final(self).idx() == old(
                self,
            ).idx(),
            old(self).reads().is_prefix_of(final(self).reads()),
            forall|rest: Seq<u64>|
                outcome_matches(
                    r,
                    *final(tree),
                    old(out)@,
                    final(out)@,
                    #[trigger] run_stmts_spec(
                        stmts_view(stmts@),
                        old(self).depth(),
                        old(self).idx(),
                        *old(tree),
                        reads_since(old(self).reads(), final(self).reads()) + rest,
                    ),
                    rest,
                ),
        decreases stmts, 0nat,
    {
        let ghost d = self.depth();
        let ghost idx = self.idx();
        let ghost r0 = self.reads();
        let ghost tree0 = *tree;
        let ghost out0 = out@;
        let ghost sv = stmts_view(stmts@);
        let ghost mut evs: Seq<EventView> = Seq::empty();
        proof {
            lemma_stmts_view_index(stmts@);
            assert(reads_since(r0, r0) =~= Seq::<u64>::empty());
            lemma_no_reads();
            assert(sv.subrange(0, sv.len() as int) =~= sv);
            assert(event_views(out0) + evs =~= event_views(out0));
            assert forall|rest: Seq<u64>| #[trigger]
                run_stmts_spec(sv, d, idx, tree0, reads_since(r0, r0) + rest) == after_events(
                    evs,
                    run_stmts_spec(sv.subrange(0, sv.len() as int), d, idx, tree0, rest),
                ) by {
                let o = run_stmts_spec(sv, d, idx, tree0, rest);
                assert(after_events(evs, o).events =~= o.events);
            }
        }
        let mut k: usize = 0;
        while k < stmts.len()
            invariant
                self.wf(),
                tree.inv(),
                k <= stmts.len(),
                sv == stmts_view(stmts@),
                sv.len() == stmts.len(),
                forall|i: int| 0 <= i < stmts.len() ==> #[trigger] sv[i] == stmt_view(stmts@[i]),
                forall|i: int|
                    0 <= i < stmts.len() ==> nesting_within(
                        #[trigger] stmt_view(stmts@[i]),
                        (4 - d) as nat,
                    ),
                self.depth() == d,
                self.idx() == idx,
                d == old(self).depth(),
                idx == old(self).idx(),
                r0 == old(self).reads(),
                tree0 == *old(tree),
                out0 == old(out)@,
                r0.is_prefix_of(self.reads()),
                event_views(out@) == event_views(out0) + evs,
                forall|rest: Seq<u64>| #[trigger]
                    run_stmts_spec(sv, d, idx, tree0, reads_since(r0, self.reads()) + rest)
                        == after_events(
                        evs,
                        run_stmts_spec(sv.subrange(k as int, sv.len() as int), d, idx, *tree, rest),
                    ),
            decreases stmts.len() - k,
        {
            let ghost rk = self.reads();
            let ghost tree_k = *tree;
            let ghost out_k = out@;
            let res = self.run_stmt(&stmts[k], tree, out);
            let ghost nr = reads_since(rk, self.reads());
            let ghost new_evs = event_views(out@).subrange(event_views(out_k).len() as int, event_views(out@).len() as int);
            proof {
                assert forall|rest: Seq<u64>|
                    reads_since(r0, self.reads()) + rest == reads_since(r0, rk) + (nr + rest) by {
                    assert(reads_since(r0, self.reads()) + rest =~= reads_since(r0, rk) + (nr + rest));
                }
                assert forall|rest: Seq<u64>| #[trigger]
                    run_stmt_spec(sv[k as int], d, idx, tree_k, nr + rest).events == new_evs by {
                    let o = run_stmt_spec(sv[k as int], d, idx, tree_k, nr + rest);
                    assert(outcome_matches(res, *tree, out_k, out@, run_stmt_spec(stmt_view(stmts@[k as int]), d, idx, tree_k, nr + rest), rest));
                    assert(event_views(out@) == event_views(out_k) + o.events);
                    assert(new_evs =~= o.events);
                }
            }
            match res {
                Ok(ExecResult::Continue) => {},
                Ok(other) => {
                    proof {
                        assert forall|rest: Seq<u64>|
                            outcome_matches(
                                res,
                                *tree,
                                out0,
                                out@,
                                #[trigger] run_stmts_spec(sv, d, idx, tree0, reads_since(r0, self.reads()) + rest),
                                rest,
                            ) by {
                            let o = run_stmt_spec(sv[k as int], d, idx, tree_k, nr + rest);
                            assert(outcome_matches(res, *tree, out_k, out@, run_stmt_spec(stmt_view(stmts@[k as int]), d, idx, tree_k, nr + rest), rest));
                            lemma_run_stmts_unfold(sv, k as int, d, idx, tree_k, nr + rest);
                            assert(run_stmts_spec(sv, d, idx, tree0, reads_since(r0, rk) + (nr + rest)) == after_events(evs, run_stmts_spec(sv.subrange(k as int, sv.len() as int), d, idx, tree_k, nr + rest)));
                            assert(event_views(out@) =~= event_views(out0) + (evs + o.events));
                        }
                    }
                    return Ok(other);
                },
                Err(e) => {
                    proof {
                        assert forall|rest: Seq<u64>|
                            outcome_matches(
                                res,
                                *tree,
                                out0,
                                out@,
                                #[trigger] run_stmts_spec(sv, d, idx, tree0, reads_since(r0, self.reads()) + rest),
                                rest,
                            ) by {
                            let o = run_stmt_spec(sv[k as int], d, idx, tree_k, nr + rest);
                            assert(outcome_matches(res, *tree, out_k, out@, run_stmt_spec(stmt_view(stmts@[k as int]), d, idx, tree_k, nr + rest), rest));
                            lemma_run_stmts_unfold(sv, k as int, d, idx, tree_k, nr + rest);
                            assert(run_stmts_spec(sv, d, idx, tree0, reads_since(r0, rk) + (nr + rest)) == after_events(evs, run_stmts_spec(sv.subrange(k as int, sv.len() as int), d, idx, tree_k, nr + rest)));
                            assert(event_views(out@) =~= event_views(out0) + (evs + o.events));
                        }
                    }
                    return Err(e);
                },
            }
            proof {
                assert forall|rest: Seq<u64>| #[trigger]
                    run_stmts_spec(sv, d, idx, tree0, reads_since(r0, self.reads()) + rest)
                        == after_events(
                        evs + new_evs,
                        run_stmts_spec(sv.subrange(k + 1, sv.len() as int), d, idx, *tree, rest),
                    ) by {
                    let o = run_stmt_spec(sv[k as int], d, idx, tree_k, nr + rest);
                    assert(outcome_matches(res, *tree, out_k, out@, run_stmt_spec(stmt_view(stmts@[k as int]), d, idx, tree_k, nr + rest), rest));
                    lemma_run_stmts_unfold(sv, k as int, d, idx, tree_k, nr + rest);
                    assert(run_stmts_spec(sv, d, idx, tree0, reads_since(r0, rk) + (nr + rest)) == after_events(evs, run_stmts_spec(sv.subrange(k as int, sv.len() as int), d, idx, tree_k, nr + rest)));
                    let tail = run_stmts_spec(sv.subrange(k + 1, sv.len() as int), d, idx, *tree, rest);
                    assert(after_events(evs, after_events(new_evs, tail)).events =~= (evs + new_evs) + tail.events);
                }
                assert(event_views(out@) =~= event_views(out0) + (evs + new_evs));
                evs = evs + new_evs;
            }
            k += 1;
        }
        proof {
            assert forall|rest: Seq<u64>|
                outcome_matches(
                    Ok::<ExecResult, LangError>(ExecResult::Continue),
                    *tree,
                    out0,
                    out@,
                    #[trigger] run_stmts_spec(sv, d, idx, tree0, reads_since(r0, self.reads()) + rest),
                    rest,
                ) by {
                assert(sv.subrange(k as int, sv.len() as int) =~= Seq::<StmtView>::empty());
                assert(evs + Seq::<EventView>::empty() =~= evs);
            }
        }
        Ok(ExecResult::Continue)
    }

    /// Runs one statement.
    fn run_stmt<T: TreeOps>(&mut self, stmt: &Stmt, tree: &mut T, out: &mut Vec<Event>) -> (r: Result<
        ExecResult,
        LangError,
    >)
        requires
            old(self).wf(),
            old(tree).inv(),
            nesting_within(stmt_view(*stmt), (4 - old(self).depth()) as nat),
        ensures
            final(self).wf(),
            final(tree).inv(),
            r is Ok ==> final(self).depth() == old(self).depth() && final(self).idx() == old(
                self,
            ).idx(),
            old(self).reads().is_prefix_of(final(self).reads()),
            forall|rest: Seq<u64>|
                outcome_matches(
                    r,
                    *final(tree),
                    old(out)@,
                    final(out)@,
                    #[trigger] run_stmt_spec(
                        stmt_view(*stmt),
                        old(self).depth(),
                        old(self).idx(),
                        *old(tree),
                        reads_since(old(self).reads(), final(self).reads()) + rest,
                    ),
                    rest,
                ),
        decreases stmt, 0nat,
    {
        match stmt {
            Stmt::Cmd { op, spec } => self.run_cmd(*op, spec, tree, out),
            Stmt::Repeat { body, times } => self.run_repeat(body, times, tree, out),
        }
    }
}


/// Running a whole line: lex it, parse it, then run its statements outside any
/// repeat block, with the clock readings `seeds` for its `rand` generators.
pub open spec fn line_spec<T: TreeOps>(input: Seq<char>, tree: T, seeds: Seq<u64>) -> RunOut<T> {
    match lex(input) {
        Err(e) => RunOut { result: Err(e), tree, events: Seq::empty(), seeds },
        Ok(ts) => if ts.len() == 0 {
            RunOut { result: Ok(ExecResult::Continue), tree, events: Seq::empty(), seeds }
        } else {
            match parse(ts) {
                Err(e) => RunOut { result: Err(e), tree, events: Seq::empty(), seeds },
                Ok(stmts) => run_stmts_spec(stmts, 0, seq![0i64, 0i64, 0i64, 0i64], tree, seeds),
            }
        },
    }
}

/// Parses and runs one line against `tree`, appending what happens to `out`.
/// The outcome is that of `line_spec` for some sequence of clock readings, each
/// under one billion (one per `rand` generator that draws values).
pub fn run_line<T: TreeOps>(input: &str, tree: &mut T, out: &mut Vec<Event>) -> (r: Result<
    ExecResult,
    LangError,
>)
    requires
        old(tree).inv(),
    ensures
        final(tree).inv(),
        exists|seeds: Seq<u64>|
            (forall|j: int| 0 <= j < seeds.len() ==> #[trigger] seeds[j] < 1_000_000_000)
                && outcome_matches(
                r,
                *final(tree),
                old(out)@,
                final(out)@,
                #[trigger] line_spec(input@, *old(tree), seeds),
                Seq::empty(),
            ),
{
    let ghost tree0 = *tree;
    let ghost out0 = out@;
    proof {
        assert(event_views(out0) + Seq::<EventView>::empty() =~= event_views(out0));
    }
    let tokens = match tokenize(input) {
        Ok(t) => t,
        Err(e) => {
            assert(outcome_matches(
                Err::<ExecResult, LangError>(e),
                tree0,
                out0,
                out@,
                line_spec(input@, tree0, Seq::empty()),
                Seq::empty(),
            ));
            return Err(e);
        },
    };
    if tokens.len() == 0 {
        assert(outcome_matches(
            Ok::<ExecResult, LangError>(ExecResult::Continue),
            tree0,
            out0,
            out@,
            line_spec(input@, tree0, Seq::empty()),
            Seq::empty(),
        ));
        return Ok(ExecResult::Continue);
    }
    let mut parser = Parser::new(tokens);
    let stmts = match parser.parse_program() {
        Ok(s) => s,
        Err(e) => {
            assert(outcome_matches(
                Err::<ExecResult, LangError>(e),
                tree0,
                out0,
                out@,
                line_spec(input@, tree0, Seq::empty()),
                Seq::empty(),
            ));
            return Err(e);
        },
    };
    let mut exec = Executor::new();
    let ghost idx0 = exec.idx();
    let r = exec.run_stmts(&stmts, tree, out);
    proof {
        let seeds = reads_since(Seq::<u64>::empty(), exec.reads());
        assert(seeds + Seq::<u64>::empty() =~= seeds);
        assert(seeds =~= exec.reads());
        assert(outcome_matches(
            r,
            *tree,
            out0,
            out@,
            run_stmts_spec(stmts_view(stmts@), 0, idx0, tree0, seeds + Seq::<u64>::empty()),
            Seq::empty(),
        ));
        assert(outcome_matches(
            r,
            *tree,
            out0,
            out@,
            line_spec(input@, tree0, seeds),
            Seq::empty(),
        ));
    }
    r
}

} // verus!
