//! Syntax trees of the command language and their plain (sequence-based) values.

use vstd::prelude::*;

verus! {

/// An integer expression over literals and loop indices.
#[derive(Debug)]
pub enum Expr {
    Num(i64),
    /// `n1`..`n4`: the running index of the repeat block at that nesting level.
    Idx(usize),
    Add(Box<Expr>, Box<Expr>),
    Sub(Box<Expr>, Box<Expr>),
    Mul(Box<Expr>, Box<Expr>),
}

/// The values a value-taking command (`i`, `d`, `s`) works through.
#[derive(Debug)]
pub enum GenSpec {
    /// No values.
    Empty,
    /// `rand MIN MAX COUNT`: COUNT pseudorandom values in `[MIN, MAX]`.
    Rand { min: Expr, max: Expr, count: Expr },
    /// `rang MIN MAX [STEP]`: MIN, MIN+STEP, ... up to MAX (down to MAX for a
    /// negative step); STEP defaults to 1.
    Rang { min: Expr, max: Expr, step: Option<Expr> },
    /// A list of expressions, one value each.
    Literals(Vec<Expr>),
}

/// A statement: a repeat block or a command.
#[derive(Debug)]
pub enum Stmt {
    /// `r BODY t TIMES`: run the body TIMES times.
    Repeat { body: Vec<Stmt>, times: Expr },
    /// A command letter with its values.
    Cmd { op: char, spec: GenSpec },
}

/// The plain value of a `GenSpec`.
pub ghost enum GenView {
    Empty,
    Rand { min: Expr, max: Expr, count: Expr },
    Rang { min: Expr, max: Expr, step: Option<Expr> },
    Literals(Seq<Expr>),
}

/// The plain value of a `Stmt`.
pub ghost enum StmtView {
    Repeat { body: Seq<StmtView>, times: Expr },
    Cmd { op: char, spec: GenView },
}

impl View for GenSpec {
    type V = GenView;

    open spec fn view(&self) -> GenView {
        match self {
            GenSpec::Empty => GenView::Empty,
            GenSpec::Rand { min, max, count } => GenView::Rand { min: *min, max: *max, count: *count },
            GenSpec::Rang { min, max, step } => GenView::Rang { min: *min, max: *max, step: *step },
            GenSpec::Literals(v) => GenView::Literals(v@),
        }
    }
}

/// The plain value of a statement.
pub open spec fn stmt_view(s: Stmt) -> StmtView
    decreases s,
{
    match s {
        Stmt::Repeat { body, times } => StmtView::Repeat { body: stmts_view(body@), times },
        Stmt::Cmd { op, spec } => StmtView::Cmd { op, spec: spec@ },
    }
}

/// The plain values of a sequence of statements.
pub open spec fn stmts_view(v: Seq<Stmt>) -> Seq<StmtView>
    decreases v,
{
    if v.len() == 0 {
        Seq::empty()
    } else {
        seq![stmt_view(v[0])] + stmts_view(v.drop_first())
    }
}

/// Every repeat block nests at most `budget` levels deep.
pub open spec fn nesting_within(s: StmtView, budget: nat) -> bool
    decreases s,
{
    match s {
        StmtView::Repeat { body, times } => budget >= 1 && forall|i: int|
            0 <= i < body.len() ==> nesting_within(#[trigger] body[i], (budget - 1) as nat),
        StmtView::Cmd { .. } => true,
    }
}


/// Viewing a sequence with one more statement appends that statement's view.
pub proof fn lemma_stmts_view_push(v: Seq<Stmt>, s: Stmt)
    ensures
        stmts_view(v.push(s)) == stmts_view(v).push(stmt_view(s)),
    decreases v.len(),
{
    if v.len() == 0 {
        assert(v.push(s).drop_first() =~= Seq::<Stmt>::empty());
        assert(v.push(s)[0] == s);
        assert(stmts_view(Seq::<Stmt>::empty()) == Seq::<StmtView>::empty());
        assert(stmts_view(v.push(s)) =~= seq![stmt_view(s)]);
        assert(stmts_view(v) =~= Seq::<StmtView>::empty());
    } else {
        assert(v.push(s).drop_first() =~= v.drop_first().push(s));
        lemma_stmts_view_push(v.drop_first(), s);
        assert(stmts_view(v.push(s)) =~= stmts_view(v).push(stmt_view(s)));
    }
}

/// The views of a sequence of statements have its length and are taken element by element.
pub proof fn lemma_stmts_view_index(v: Seq<Stmt>)
    ensures
        stmts_view(v).len() == v.len(),
        forall|i: int| 0 <= i < v.len() ==> #[trigger] stmts_view(v)[i] == stmt_view(v[i]),
    decreases v.len(),
{
    if v.len() > 0 {
        lemma_stmts_view_index(v.drop_first());
        assert forall|i: int| 0 <= i < v.len() implies #[trigger] stmts_view(v)[i] == stmt_view(
            v[i],
        ) by {
            if i > 0 {
                assert(stmts_view(v)[i] == stmts_view(v.drop_first())[i - 1]);
            }
        }
    }
}

} // verus!
