//! Properties of the command language that hold for every input.

use crate::lang::ast::{Expr, StmtView};
use crate::lang::exec::{
    after_events, delete_run, eval, insert_run, repeat_spec, lcg_values, line_spec, rang_from, run_stmts_spec,
    EventView, ExecResult, TreeOps,
};
use crate::lang::parser::{p_atom, p_expr, p_expr_rest, p_term, p_term_rest, parse, tok};
use crate::lang::tokens::{
    append_result, digit_end, digits_value, is_digit, is_letter, lemma_digit_end, lemma_word_end, lex,
    lex_from, prepend, word_end, word_token, Token,
};
use crate::lang::error::ErrorView;
use vstd::prelude::*;

verus! {

/// `rand MIN MAX COUNT` gives exactly COUNT values, each in `[MIN, MAX]`.
pub proof fn law_rand_count_and_range(min: u32, max: u32, n: nat, seed: u64)
    requires
        min <= max,
    ensures
        lcg_values(min, max, n, seed).len() == n,
        forall|i: int|
            0 <= i < n ==> min <= #[trigger] lcg_values(min, max, n, seed)[i] <= max,
{
    assert forall|i: int| 0 <= i < n implies min <= #[trigger] lcg_values(
        min,
        max,
        n,
        seed,
    )[i] <= max by {
        let state = crate::lang::exec::lcg_state(seed, (i + 1) as nat);
        let r = (max - min + 1) as u64;
        let off = (state >> 33u64) % r;
        assert(off < r);
        assert(min + off <= max);
    }
}

/// Whether a range with step `step` still continues at the value `v`.
pub open spec fn in_range_int(v: int, max: i64, step: i64) -> bool {
    (step > 0 && v <= max) || (step < 0 && v >= max)
}

/// A `rang` that succeeds lists `v`, `v + step`, `v + 2*step`, ..., every
/// listed value within the range and the next one past it.
pub proof fn law_rang_progression(v: i64, max: i64, step: i64)
    requires
        step != 0,
        rang_from(v, max, step) is Ok,
    ensures
        ({
            let s = rang_from(v, max, step)->Ok_0;
            &&& forall|i: int| 0 <= i < s.len() ==> #[trigger] s[i] == v + i * step
            &&& forall|i: int| 0 <= i < s.len() ==> in_range_int(#[trigger] (v + i * step), max, step)
            &&& !in_range_int(v + s.len() * step, max, step)
        }),
    decreases crate::lang::exec::rang_measure(v, step),
{
    let s = rang_from(v, max, step)->Ok_0;
    if crate::lang::exec::rang_continues(v, max, step) {
        if i64::MIN <= v + step <= i64::MAX {
            crate::lang::exec::lemma_rang_step(v, step);
            let w = (v + step) as i64;
            let rest = rang_from(w, max, step)->Ok_0;
            assert(s == seq![v as u32] + rest);
            law_rang_progression(w, max, step);
            assert forall|i: int| 0 <= i < s.len() implies #[trigger] s[i] == v + i * step by {
                if i > 0 {
                    assert(s[i] == rest[i - 1]);
                    assert(w + (i - 1) * step == v + i * step) by (nonlinear_arith)
                        requires
                            w == v + step,
                    ;
                }
            }
            assert forall|i: int| 0 <= i < s.len() implies in_range_int(
                #[trigger] (v + i * step),
                max,
                step,
            ) by {
                if i > 0 {
                    assert(in_range_int(w + (i - 1) * step, max, step));
                    assert(w + (i - 1) * step == v + i * step) by (nonlinear_arith)
                        requires
                            w == v + step,
                    ;
                }
            }
            assert(w + rest.len() * step == v + s.len() * step) by (nonlinear_arith)
                requires
                    w == v + step,
                    s.len() == rest.len() + 1,
            ;
        } else {
            assert(s == seq![v as u32]);
            assert(s[0] == v);
            assert(v + 0 * step == v);
            assert(v + 1 * step == v + step);
        }
    } else {
        assert(s.len() == 0);
        assert(v + 0 * step == v);
    }
}

/// Statements run in order: running `first + rest` is running `first`, then,
/// only if it ends with `Continue`, running `rest` from where it left off. In
/// particular `b`, `q` or an error ends the line there.
pub proof fn law_statements_run_in_order<T: TreeOps>(
    first: Seq<StmtView>,
    rest: Seq<StmtView>,
    depth: nat,
    idx: Seq<i64>,
    tree: T,
    seeds: Seq<u64>,
)
    ensures
        ({
            let a = run_stmts_spec(first, depth, idx, tree, seeds);
            run_stmts_spec(first + rest, depth, idx, tree, seeds) == if a.result == Ok::<
                ExecResult,
                crate::lang::error::ErrorView,
            >(ExecResult::Continue) {
                after_events(a.events, run_stmts_spec(rest, depth, idx, a.tree, a.seeds))
            } else {
                a
            }
        }),
    decreases first.len(),
{
    let a = run_stmts_spec(first, depth, idx, tree, seeds);
    if first.len() == 0 {
        assert(first + rest =~= rest);
        let o = run_stmts_spec(rest, depth, idx, tree, seeds);
        assert(a.events =~= Seq::empty());
        assert(a.events + o.events =~= o.events);
    } else {
        let both = first + rest;
        assert(both[0] == first[0]);
        let tail = first.subrange(1, first.len() as int);
        assert(both.subrange(1, both.len() as int) =~= tail + rest);
        let h = crate::lang::exec::run_stmt_spec(first[0], depth, idx, tree, seeds);
        if h.result == Ok::<ExecResult, crate::lang::error::ErrorView>(ExecResult::Continue) {
            law_statements_run_in_order(tail, rest, depth, idx, h.tree, h.seeds);
            let t = run_stmts_spec(tail, depth, idx, h.tree, h.seeds);
            if t.result == Ok::<ExecResult, crate::lang::error::ErrorView>(ExecResult::Continue) {
                let o = run_stmts_spec(rest, depth, idx, t.tree, t.seeds);
                assert(h.events + (t.events + o.events) =~= (h.events + t.events) + o.events);
            }
        }
    }
}

/// A line that does not lex or parse changes nothing: the tree stays, no event
/// is produced and the result is the error.
pub proof fn law_rejected_line_changes_nothing<T: TreeOps>(input: Seq<char>, tree: T, seeds: Seq<u64>)
    requires
        lex(input) is Err || parse(lex(input)->Ok_0) is Err,
    ensures
        line_spec(input, tree, seeds).result is Err,
        line_spec(input, tree, seeds).tree == tree,
        line_spec(input, tree, seeds).events == Seq::<crate::lang::exec::EventView>::empty(),
{
}


/// The tokens `x`, or its error, followed by the tokens of `r`, or its error.
pub open spec fn then_lex(x: Result<Seq<Token>, ErrorView>, r: Result<Seq<Token>, ErrorView>) -> Result<
    Seq<Token>,
    ErrorView,
> {
    match x {
        Err(e) => Err(e),
        Ok(u) => append_result(u, r),
    }
}

proof fn lemma_prepend_then(t: Token, x: Result<Seq<Token>, ErrorView>, r: Result<Seq<Token>, ErrorView>)
    ensures
        prepend(t, then_lex(x, r)) == then_lex(prepend(t, x), r),
{
    if let Ok(u) = x {
        if let Ok(v) = r {
            assert(seq![t] + (u + v) =~= (seq![t] + u) + v);
        }
    }
}

/// Runs of digits and of word characters inside `a` end where they end in `s`,
/// when `s` continues `a` with a character that is neither.
proof fn lemma_ends_prefix(a: Seq<char>, s: Seq<char>, i: int)
    requires
        0 <= i <= a.len() < s.len(),
        forall|k: int| 0 <= k < a.len() ==> s[k] == a[k],
        !is_digit(s[a.len() as int]),
        !is_letter(s[a.len() as int]),
    ensures
        digit_end(s, i) == digit_end(a, i),
        word_end(s, i) == word_end(a, i),
    decreases a.len() - i,
{
    if i < a.len() {
        lemma_ends_prefix(a, s, i + 1);
    }
}

/// Runs in `b` end at the same places, shifted, in `p + b`.
proof fn lemma_ends_shift(p: Seq<char>, b: Seq<char>, k: int)
    requires
        0 <= k <= b.len(),
    ensures
        digit_end(p + b, p.len() + k) == p.len() + digit_end(b, k),
        word_end(p + b, p.len() + k) == p.len() + word_end(b, k),
    decreases b.len() - k,
{
    if k < b.len() {
        assert((p + b)[p.len() + k] == b[k]);
        lemma_ends_shift(p, b, k + 1);
    }
}

/// Lexing `p + b` from inside `b` is lexing `b`.
proof fn lemma_lex_shift(p: Seq<char>, b: Seq<char>, k: int)
    requires
        0 <= k <= b.len(),
    ensures
        lex_from(p + b, p.len() + k) == lex_from(b, k),
    decreases b.len() - k,
{
    let s = p + b;
    let i = p.len() + k;
    if k < b.len() {
        assert(s[i] == b[k]);
        let c = b[k];
        lemma_ends_shift(p, b, k);
        lemma_digit_end(b, k);
        lemma_word_end(b, k);
        if c == ' ' || c == '\t' || c == '+' || c == '-' || c == '*' {
            lemma_lex_shift(p, b, k + 1);
        } else if is_digit(c) {
            lemma_digit_end(b, k + 1);
            let j = digit_end(b, k);
            assert(s.subrange(i, p.len() + j) =~= b.subrange(k, j));
            lemma_lex_shift(p, b, j);
        } else if is_letter(c) {
            lemma_word_end(b, k + 1);
            let j = word_end(b, k);
            assert(s.subrange(i, p.len() + j) =~= b.subrange(k, j));
            lemma_lex_shift(p, b, j);
        }
    }
}

/// Lexing `s`, which continues `a` with a space, from inside `a`: the tokens of
/// `a` from there, then those of `s` after `a`.
proof fn lemma_lex_prefix(a: Seq<char>, s: Seq<char>, i: int)
    requires
        0 <= i <= a.len() < s.len(),
        forall|k: int| 0 <= k < a.len() ==> s[k] == a[k],
        s[a.len() as int] == ' ',
    ensures
        lex_from(s, i) == then_lex(lex_from(a, i), lex_from(s, a.len() as int)),
    decreases a.len() - i,
{
    let r = lex_from(s, a.len() as int);
    if i == a.len() {
        if let Ok(v) = r {
            assert(Seq::<Token>::empty() + v =~= v);
        }
    } else {
        let c = a[i];
        assert(s[i] == c);
        lemma_ends_prefix(a, s, i);
        lemma_digit_end(a, i);
        lemma_word_end(a, i);
        if c == ' ' || c == '\t' {
            lemma_lex_prefix(a, s, i + 1);
        } else if c == '+' {
            lemma_lex_prefix(a, s, i + 1);
            lemma_prepend_then(Token::Plus, lex_from(a, i + 1), r);
        } else if c == '-' {
            lemma_lex_prefix(a, s, i + 1);
            lemma_prepend_then(Token::Minus, lex_from(a, i + 1), r);
        } else if c == '*' {
            lemma_lex_prefix(a, s, i + 1);
            lemma_prepend_then(Token::Star, lex_from(a, i + 1), r);
        } else if is_digit(c) {
            lemma_digit_end(a, i + 1);
            let j = digit_end(a, i);
            assert(s.subrange(i, j) =~= a.subrange(i, j));
            lemma_lex_prefix(a, s, j);
            let d = a.subrange(i, j);
            if digits_value(d) <= i64::MAX {
                lemma_prepend_then(Token::Num(digits_value(d) as i64), lex_from(a, j), r);
            }
        } else if is_letter(c) {
            lemma_word_end(a, i + 1);
            let j = word_end(a, i);
            assert(s.subrange(i, j) =~= a.subrange(i, j));
            lemma_lex_prefix(a, s, j);
            if let Ok(t) = word_token(a.subrange(i, j)) {
                lemma_prepend_then(t, lex_from(a, j), r);
            }
        }
    }
}

/// Lexing two lines joined by a space gives the tokens of the first followed by
/// the tokens of the second; the error of the first line, else of the second,
/// when either has one.
pub proof fn law_lex_join_with_space(a: Seq<char>, b: Seq<char>)
    ensures
        lex(a + seq![' '] + b) == then_lex(lex(a), lex(b)),
{
    let p = a + seq![' '];
    let s = p + b;
    assert(s[a.len() as int] == ' ');
    assert forall|k: int| 0 <= k < a.len() implies s[k] == a[k] by {}
    lemma_lex_prefix(a, s, 0);
    assert(lex_from(s, a.len() as int) == lex_from(s, p.len() as int));
    lemma_lex_shift(p, b, 0);
}


/// `nj` inside repeat blocks nested `depth` deep reads the running index of the
/// j-th block counted from the outermost (`idx[j - 1]`); outside that nesting it
/// is an error.
pub proof fn law_loop_index_outermost_first(j: usize, depth: nat, idx: Seq<i64>)
    ensures
        1 <= j <= depth ==> eval(Expr::Idx(j), depth, idx) == Ok::<i64, ErrorView>(idx[j - 1]),
        (j == 0 || j > depth) ==> eval(Expr::Idx(j), depth, idx) == Err::<i64, ErrorView>(
            ErrorView::IndexTooDeep(j, depth as usize),
        ),
{
}

/// A number or a loop index.
pub open spec fn is_atom(e: Expr) -> bool {
    e is Num || e is Idx
}

/// A product of atoms, grouped to the left: `a`, `a * b`, `(a * b) * c`, ...
pub open spec fn is_product(e: Expr) -> bool
    decreases e,
{
    match e {
        Expr::Mul(a, b) => is_product(*a) && is_atom(*b),
        _ => is_atom(e),
    }
}

/// Products joined by `+` and `-`, grouped to the left, each operator combining
/// everything before it with one whole product.
pub open spec fn is_sum(e: Expr) -> bool
    decreases e,
{
    match e {
        Expr::Add(a, b) => is_sum(*a) && is_product(*b),
        Expr::Sub(a, b) => is_sum(*a) && is_product(*b),
        _ => is_product(e),
    }
}

/// The tokens that spell an expression, read left to right.
pub open spec fn spelled(e: Expr) -> Seq<Token>
    decreases e,
{
    match e {
        Expr::Num(n) => seq![Token::Num(n)],
        Expr::Idx(d) => seq![Token::Idx(d)],
        Expr::Add(a, b) => spelled(*a) + seq![Token::Plus] + spelled(*b),
        Expr::Sub(a, b) => spelled(*a) + seq![Token::Minus] + spelled(*b),
        Expr::Mul(a, b) => spelled(*a) + seq![Token::Star] + spelled(*b),
    }
}

proof fn lemma_atom_spelled(ts: Seq<Token>, p: int)
    requires
        0 <= p,
    ensures
        p_atom(ts, p) matches Ok((a, q)) ==> is_atom(a) && q == p + 1 && p + 1 <= ts.len()
            && spelled(a) == ts.subrange(p, q),
{
    if let Ok((a, q)) = p_atom(ts, p) {
        assert(spelled(a) =~= ts.subrange(p, q));
    }
}

proof fn lemma_term_rest_shape(ts: Seq<Token>, p: int, lhs: Expr)
    requires
        0 <= p <= ts.len(),
        is_product(lhs),
    ensures
        p_term_rest(ts, p, lhs) matches Ok((e, q)) ==> is_product(e) && p <= q <= ts.len()
            && spelled(e) == spelled(lhs) + ts.subrange(p, q) && tok(ts, q) != Some(Token::Star),
    decreases ts.len() - p,
{
    if tok(ts, p) == Some(Token::Star) {
        lemma_atom_spelled(ts, p + 1);
        if let Ok((rhs, q)) = p_atom(ts, p + 1) {
            let m = Expr::Mul(Box::new(lhs), Box::new(rhs));
            lemma_term_rest_shape(ts, q, m);
            if let Ok((e, r)) = p_term_rest(ts, q, m) {
                assert(spelled(m) =~= spelled(lhs) + ts.subrange(p, q));
                assert(spelled(e) =~= spelled(lhs) + ts.subrange(p, r));
            }
        }
    } else {
        assert(spelled(lhs) + ts.subrange(p, p) =~= spelled(lhs));
    }
}

proof fn lemma_term_shape(ts: Seq<Token>, p: int)
    requires
        0 <= p <= ts.len(),
    ensures
        p_term(ts, p) matches Ok((e, q)) ==> is_product(e) && p < q <= ts.len()
            && spelled(e) == ts.subrange(p, q) && tok(ts, q) != Some(Token::Star),
{
    lemma_atom_spelled(ts, p);
    if let Ok((a, q)) = p_atom(ts, p) {
        lemma_term_rest_shape(ts, q, a);
        if let Ok((e, r)) = p_term_rest(ts, q, a) {
            assert(spelled(e) =~= ts.subrange(p, r));
        }
    }
}

proof fn lemma_expr_rest_shape(ts: Seq<Token>, p: int, lhs: Expr)
    requires
        0 <= p <= ts.len(),
        is_sum(lhs),
        tok(ts, p) != Some(Token::Star),
    ensures
        p_expr_rest(ts, p, lhs) matches Ok((e, q)) ==> is_sum(e) && p <= q <= ts.len()
            && spelled(e) == spelled(lhs) + ts.subrange(p, q) && tok(ts, q) != Some(Token::Star)
            && tok(ts, q) != Some(Token::Plus) && tok(ts, q) != Some(Token::Minus),
    decreases ts.len() - p,
{
    if tok(ts, p) == Some(Token::Plus) || tok(ts, p) == Some(Token::Minus) {
        lemma_term_shape(ts, p + 1);
        if let Ok((rhs, q)) = p_term(ts, p + 1) {
            let m = if tok(ts, p) == Some(Token::Plus) {
                Expr::Add(Box::new(lhs), Box::new(rhs))
            } else {
                Expr::Sub(Box::new(lhs), Box::new(rhs))
            };
            lemma_expr_rest_shape(ts, q, m);
            if let Ok((e, r)) = p_expr_rest(ts, q, m) {
                assert(spelled(m) =~= spelled(lhs) + ts.subrange(p, q));
                assert(spelled(e) =~= spelled(lhs) + ts.subrange(p, r));
            }
        }
    } else {
        assert(spelled(lhs) + ts.subrange(p, p) =~= spelled(lhs));
    }
}

/// An expression parsed from the tokens `ts[p..q]` spells exactly those tokens
/// and is a sum of products: `*` binds tighter than `+` and `-`, and all three
/// group to the left. Parsing stops only where no operator follows.
pub proof fn law_expression_precedence(ts: Seq<Token>, p: int)
    requires
        0 <= p <= ts.len(),
    ensures
        p_expr(ts, p) matches Ok((e, q)) ==> {
            &&& is_sum(e)
            &&& p < q <= ts.len()
            &&& spelled(e) == ts.subrange(p, q)
            &&& tok(ts, q) != Some(Token::Star)
            &&& tok(ts, q) != Some(Token::Plus)
            &&& tok(ts, q) != Some(Token::Minus)
        },
{
    lemma_term_shape(ts, p);
    if let Ok((t, q)) = p_term(ts, p) {
        lemma_expr_rest_shape(ts, q, t);
        if let Ok((e, r)) = p_expr_rest(ts, q, t) {
            assert(spelled(e) =~= ts.subrange(p, r));
        }
    }
}

/// The word `n` followed by one digit lexes to the loop index of that number
/// when the digit is 1 to 4, and is an unknown keyword otherwise.
pub proof fn law_loop_index_words(c: char)
    requires
        is_digit(c),
    ensures
        lex(seq!['n', c]) == if '1' <= c <= '4' {
            Ok::<Seq<Token>, ErrorView>(seq![Token::Idx((c as int - '0' as int) as usize)])
        } else {
            Err::<Seq<Token>, ErrorView>(ErrorView::UnknownKeyword(seq!['n', c]))
        },
{
    let s = seq!['n', c];
    lemma_word_end(s, 0);
    lemma_word_end(s, 1);
    lemma_word_end(s, 2);
    assert(word_end(s, 2) == 2);
    assert(word_end(s, 1) == 2);
    assert(word_end(s, 0) == 2);
    assert(s.subrange(0, 2) =~= s);
    assert(lex_from(s, 2) == Ok::<Seq<Token>, ErrorView>(Seq::empty()));
    if c == '1' {
        assert(s =~= seq!['n', '1']);
    } else if c == '2' {
        assert(s =~= seq!['n', '2']);
    } else if c == '3' {
        assert(s =~= seq!['n', '3']);
    } else if c == '4' {
        assert(s =~= seq!['n', '4']);
    } else {
        assert(s != seq!['r', 'a', 'n', 'd']);
        assert(s != seq!['r', 'a', 'n', 'g']);
        assert(s != seq!['r']);
        assert(s != seq!['t']);
        assert(s[1] != '1' && s[1] != '2' && s[1] != '3' && s[1] != '4');
        assert(s != seq!['n', '1']);
        assert(s != seq!['n', '2']);
        assert(s != seq!['n', '3']);
        assert(s != seq!['n', '4']);
    }
}

/// `i v1 v2 ... vn` inserts from left to right: nothing leaves the tree as it
/// is, and the first value is inserted before all the others.
pub proof fn law_insert_left_to_right<T: TreeOps>(tree: T, a: u32, vs: Seq<u32>)
    ensures
        insert_run(tree, Seq::<u32>::empty()) == tree,
        insert_run(tree, seq![a] + vs) == insert_run(tree.after_insert(a), vs),
    decreases vs.len(),
{
    if vs.len() == 0 {
        assert((seq![a] + vs).drop_last() =~= Seq::<u32>::empty());
    } else {
        law_insert_left_to_right(tree, a, vs.drop_last());
        assert((seq![a] + vs).drop_last() =~= seq![a] + vs.drop_last());
        assert((seq![a] + vs).last() == vs.last());
    }
}

/// Whether `v` is reported deleted or not found, by whether it is in `tree`.
pub open spec fn delete_report<T: TreeOps>(tree: T, v: u32) -> EventView {
    if tree.key_set().contains(v) {
        EventView::Deleted(v)
    } else {
        EventView::NotFound(v)
    }
}

/// `d v1 v2 ... vn` deletes from left to right, and each value is reported
/// deleted exactly when it is in the tree the earlier deletions left: nothing
/// leaves the tree as it is with no reports; otherwise the first value is
/// deleted and reported against the tree as it was, and the rest run on the
/// tree that deletion left.
pub proof fn law_delete_left_to_right<T: TreeOps>(tree: T, a: u32, vs: Seq<u32>)
    ensures
        delete_run(tree, Seq::<u32>::empty()) == (tree, Seq::<EventView>::empty()),
        ({
            let rest = delete_run(tree.after_delete(a), vs);
            delete_run(tree, seq![a] + vs) == (rest.0, seq![delete_report(tree, a)] + rest.1)
        }),
    decreases vs.len(),
{
    if vs.len() == 0 {
        assert((seq![a] + vs).drop_last() =~= Seq::<u32>::empty());
        assert(seq![delete_report(tree, a)] + Seq::<EventView>::empty() =~= seq![
            delete_report(tree, a),
        ]);
        assert(Seq::<EventView>::empty().push(delete_report(tree, a)) =~= seq![
            delete_report(tree, a),
        ]);
    } else {
        law_delete_left_to_right(tree, a, vs.drop_last());
        assert((seq![a] + vs).drop_last() =~= seq![a] + vs.drop_last());
        assert((seq![a] + vs).last() == vs.last());
        let t1 = tree.after_delete(a);
        let inner = delete_run(t1, vs.drop_last());
        assert((seq![delete_report(tree, a)] + inner.1).push(delete_report(inner.0, vs.last()))
            =~= seq![delete_report(tree, a)] + inner.1.push(delete_report(inner.0, vs.last())));
    }
}


/// Iteration `i` of a repeat block at nesting level `d` runs the block's body
/// where `n<d>` reads `i` and every outer index `n<k>` (k < d) reads what it read
/// outside the block; its events are the iteration marker followed by the
/// body's events.
pub proof fn law_repeat_iteration_index<T: TreeOps>(
    body: Seq<StmtView>,
    n: i64,
    i: int,
    d: nat,
    idx: Seq<i64>,
    tree: T,
    seeds: Seq<u64>,
)
    requires
        1 <= i <= n,
        1 <= d <= 4,
        d <= idx.len(),
    ensures
        exists|inner_idx: Seq<i64>|
            #![trigger run_stmts_spec(body, d, inner_idx, tree, seeds)]
            {
                &&& eval(Expr::Idx(d as usize), d, inner_idx) == Ok::<i64, ErrorView>(i as i64)
                &&& forall|k: usize|
                    1 <= k < d ==> #[trigger] eval(Expr::Idx(k), d, inner_idx) == eval(
                        Expr::Idx(k),
                        (d - 1) as nat,
                        idx,
                    )
                &&& {
                    let inner = run_stmts_spec(body, d, inner_idx, tree, seeds);
                    let o = repeat_spec(body, n, i, d, idx, tree, seeds);
                    o.events.subrange(0, 1 + inner.events.len() as int) == seq![
                        EventView::RepeatIter(i as i64, n),
                    ] + inner.events
                }
            },
{
    let w = idx.update(d - 1, i as i64);
    let inner = run_stmts_spec(body, d, w, tree, seeds);
    let o = repeat_spec(body, n, i, d, idx, tree, seeds);
    let ev = seq![EventView::RepeatIter(i as i64, n)] + inner.events;
    assert(o.events.subrange(0, ev.len() as int) =~= ev);
    assert(eval(Expr::Idx(d as usize), d, w) == Ok::<i64, ErrorView>(i as i64));
    assert forall|k: usize|
        1 <= k < d implies #[trigger] eval(Expr::Idx(k), d, w) == eval(Expr::Idx(k), (d - 1) as nat, idx) by {
        assert(w[k - 1] == idx[k - 1]);
    }
}

} // verus!
