//! Parsing: tokens to statements.
//!
//! Grammar (prefix, no separators):
//!   program ::= stmt*
//!   stmt    ::= 'r' stmt+ 't' expr      (repeat; at most 4 levels deep)
//!             | cmd
//!   cmd     ::= LETTER genspec?
//!   genspec ::= 'rand' expr expr expr | 'rang' expr expr expr? | expr+
//!   expr    ::= term (('+' | '-') term)*
//!   term    ::= atom ('*' atom)*
//!   atom    ::= NUMBER | 'n1' | 'n2' | 'n3' | 'n4'

use crate::lang::ast::{
    lemma_stmts_view_index, lemma_stmts_view_push, nesting_within, stmt_view, stmts_view, Expr, GenSpec,
    GenView, Stmt, StmtView,
};
use crate::lang::error::{ErrorView, LangError};
use crate::lang::tokens::Token;
use vstd::prelude::*;

verus! {

/// The deepest allowed nesting of repeat blocks.
pub const MAX_DEPTH: usize = 4;

/// The token at position `p`, if any.
pub open spec fn tok(ts: Seq<Token>, p: int) -> Option<Token> {
    if 0 <= p < ts.len() {
        Some(ts[p])
    } else {
        None
    }
}

/// Whether an expression can start with this token: a number or a loop index.
pub open spec fn starts_expr(t: Option<Token>) -> bool {
    t matches Some(Token::Num(_)) || t matches Some(Token::Idx(_))
}

/// atom ::= NUMBER | INDEX
pub open spec fn p_atom(ts: Seq<Token>, p: int) -> Result<(Expr, int), ErrorView> {
    match tok(ts, p) {
        Some(Token::Num(n)) => Ok((Expr::Num(n), p + 1)),
        Some(Token::Idx(d)) => Ok((Expr::Idx(d), p + 1)),
        Some(t) => Err(ErrorView::ExpectedAtom(t)),
        None => Err(ErrorView::ExpectedAtomEof),
    }
}

/// The rest of a term after `lhs`: ('*' atom)*, folded to the left.
pub open spec fn p_term_rest(ts: Seq<Token>, p: int, lhs: Expr) -> Result<(Expr, int), ErrorView>
    decreases ts.len() - p,
{
    if tok(ts, p) == Some(Token::Star) {
        match p_atom(ts, p + 1) {
            Ok((rhs, q)) => p_term_rest(ts, q, Expr::Mul(Box::new(lhs), Box::new(rhs))),
            Err(e) => Err(e),
        }
    } else {
        Ok((lhs, p))
    }
}

/// term ::= atom ('*' atom)*
pub open spec fn p_term(ts: Seq<Token>, p: int) -> Result<(Expr, int), ErrorView> {
    match p_atom(ts, p) {
        Ok((a, q)) => p_term_rest(ts, q, a),
        Err(e) => Err(e),
    }
}

pub proof fn lemma_term_rest_advances(ts: Seq<Token>, p: int, lhs: Expr)
    requires
        0 <= p <= ts.len(),
    ensures
        p_term_rest(ts, p, lhs) matches Ok((_, q)) ==> p <= q <= ts.len(),
    decreases ts.len() - p,
{
    if tok(ts, p) == Some(Token::Star) {
        if let Ok((rhs, q)) = p_atom(ts, p + 1) {
            lemma_term_rest_advances(ts, q, Expr::Mul(Box::new(lhs), Box::new(rhs)));
        }
    }
}

pub proof fn lemma_term_advances(ts: Seq<Token>, p: int)
    requires
        0 <= p <= ts.len(),
    ensures
        p_term(ts, p) matches Ok((_, q)) ==> p < q <= ts.len(),
{
    if let Ok((a, q)) = p_atom(ts, p) {
        lemma_term_rest_advances(ts, q, a);
    }
}

/// The rest of an expression after `lhs`: (('+' | '-') term)*, folded to the left.
pub open spec fn p_expr_rest(ts: Seq<Token>, p: int, lhs: Expr) -> Result<(Expr, int), ErrorView>
    decreases ts.len() - p,
{
    if tok(ts, p) == Some(Token::Plus) || tok(ts, p) == Some(Token::Minus) {
        proof {
            lemma_term_advances(ts, p + 1);
        }
        match p_term(ts, p + 1) {
            Ok((rhs, q)) => p_expr_rest(
                ts,
                q,
                if tok(ts, p) == Some(Token::Plus) {
                    Expr::Add(Box::new(lhs), Box::new(rhs))
                } else {
                    Expr::Sub(Box::new(lhs), Box::new(rhs))
                },
            ),
            Err(e) => Err(e),
        }
    } else {
        Ok((lhs, p))
    }
}

/// expr ::= term (('+' | '-') term)*
pub open spec fn p_expr(ts: Seq<Token>, p: int) -> Result<(Expr, int), ErrorView> {
    match p_term(ts, p) {
        Ok((t, q)) => p_expr_rest(ts, q, t),
        Err(e) => Err(e),
    }
}

pub proof fn lemma_expr_rest_advances(ts: Seq<Token>, p: int, lhs: Expr)
    requires
        0 <= p <= ts.len(),
    ensures
        p_expr_rest(ts, p, lhs) matches Ok((_, q)) ==> p <= q <= ts.len(),
    decreases ts.len() - p,
{
    if tok(ts, p) == Some(Token::Plus) || tok(ts, p) == Some(Token::Minus) {
        lemma_term_advances(ts, p + 1);
        if let Ok((rhs, q)) = p_term(ts, p + 1) {
            lemma_expr_rest_advances(
                ts,
                q,
                if tok(ts, p) == Some(Token::Plus) {
                    Expr::Add(Box::new(lhs), Box::new(rhs))
                } else {
                    Expr::Sub(Box::new(lhs), Box::new(rhs))
                },
            );
        }
    }
}

pub proof fn lemma_expr_advances(ts: Seq<Token>, p: int)
    requires
        0 <= p <= ts.len(),
    ensures
        p_expr(ts, p) matches Ok((_, q)) ==> p < q <= ts.len(),
{
    lemma_term_advances(ts, p);
    if let Ok((t, q)) = p_term(ts, p) {
        lemma_expr_rest_advances(ts, q, t);
    }
}

/// A list of expressions: as many as follow, appended to `acc`.
pub open spec fn p_literals(ts: Seq<Token>, p: int, acc: Seq<Expr>) -> Result<
    (Seq<Expr>, int),
    ErrorView,
>
    decreases ts.len() - p,
{
    if starts_expr(tok(ts, p)) {
        proof {
            lemma_expr_advances(ts, p);
        }
        match p_expr(ts, p) {
            Ok((e, q)) => p_literals(ts, q, acc.push(e)),
            Err(e) => Err(e),
        }
    } else {
        Ok((acc, p))
    }
}

/// The commands that take no values.
pub open spec fn is_plain_command(op: char) -> bool {
    op == 'l' || op == 'h' || op == 'e' || op == 'o' || op == 'p' || op == 'b' || op == 'q'
}

/// cmd ::= LETTER genspec?  (the letter already read; `p` is just after it)
pub open spec fn p_cmd(ts: Seq<Token>, p: int, op: char) -> Result<(StmtView, int), ErrorView> {
    if is_plain_command(op) {
        Ok((StmtView::Cmd { op, spec: GenView::Empty }, p))
    } else if tok(ts, p) == Some(Token::Rand) {
        match p_expr(ts, p + 1) {
            Ok((min, q1)) => match p_expr(ts, q1) {
                Ok((max, q2)) => match p_expr(ts, q2) {
                    Ok((count, q3)) => Ok(
                        (StmtView::Cmd { op, spec: GenView::Rand { min, max, count } }, q3),
                    ),
                    Err(e) => Err(e),
                },
                Err(e) => Err(e),
            },
            Err(e) => Err(e),
        }
    } else if tok(ts, p) == Some(Token::Rang) {
        match p_expr(ts, p + 1) {
            Ok((min, q1)) => match p_expr(ts, q1) {
                Ok((max, q2)) => if starts_expr(tok(ts, q2)) {
                    match p_expr(ts, q2) {
                        Ok((step, q3)) => Ok(
                            (
                                StmtView::Cmd {
                                    op,
                                    spec: GenView::Rang { min, max, step: Some(step) },
                                },
                                q3,
                            ),
                        ),
                        Err(e) => Err(e),
                    }
                } else {
                    Ok((StmtView::Cmd { op, spec: GenView::Rang { min, max, step: None } }, q2))
                },
                Err(e) => Err(e),
            },
            Err(e) => Err(e),
        }
    } else {
        match p_literals(ts, p, Seq::empty()) {
            Ok((exprs, q)) => if exprs.len() == 0 {
                Ok((StmtView::Cmd { op, spec: GenView::Empty }, q))
            } else {
                Ok((StmtView::Cmd { op, spec: GenView::Literals(exprs) }, q))
            },
            Err(e) => Err(e),
        }
    }
}

/// stmt ::= 'r' stmt+ 't' expr | cmd, at nesting depth `depth`.
pub open spec fn p_stmt(ts: Seq<Token>, p: int, depth: nat) -> Result<(StmtView, int), ErrorView>
    decreases ts.len() - p, 0nat,
{
    match tok(ts, p) {
        Some(Token::R) => if depth + 1 > MAX_DEPTH {
            Err(ErrorView::NestingTooDeep((depth + 1) as usize))
        } else {
            match p_body(ts, p + 1, depth + 1, Seq::empty()) {
                Ok((body, q)) => if body.len() == 0 {
                    Err(ErrorView::EmptyRepeat)
                } else {
                    match p_expr(ts, q) {
                        Ok((times, q2)) => Ok((StmtView::Repeat { body, times }, q2)),
                        Err(e) => Err(e),
                    }
                },
                Err(e) => Err(e),
            }
        },
        Some(Token::Cmd(op)) => p_cmd(ts, p + 1, op),
        Some(Token::T) => Err(ErrorView::UnexpectedT),
        Some(Token::Num(n)) => Err(ErrorView::StrayNumber(n)),
        Some(t) => Err(ErrorView::ExpectedStatement(t)),
        None => Err(ErrorView::ExpectedStatementEof),
    }
}

/// The statements of a repeat body up to and including its closing `t`,
/// appended to `acc`; the position returned is just after the `t`.
pub open spec fn p_body(ts: Seq<Token>, p: int, depth: nat, acc: Seq<StmtView>) -> Result<
    (Seq<StmtView>, int),
    ErrorView,
>
    decreases ts.len() - p, 1nat,
{
    match tok(ts, p) {
        Some(Token::T) => Ok((acc, p + 1)),
        None => Err(ErrorView::UnclosedRepeat),
        Some(_) => match p_stmt(ts, p, depth) {
            Ok((s, q)) => if p < q <= ts.len() {
                p_body(ts, q, depth, acc.push(s))
            } else {
                Err(ErrorView::UnclosedRepeat)
            },
            Err(e) => Err(e),
        },
    }
}

/// program ::= stmt*, from position `p`, appended to `acc`.
pub open spec fn p_program(ts: Seq<Token>, p: int, acc: Seq<StmtView>) -> Result<
    Seq<StmtView>,
    ErrorView,
>
    decreases ts.len() - p,
{
    if 0 <= p < ts.len() {
        match p_stmt(ts, p, 0) {
            Ok((s, q)) => if p < q <= ts.len() {
                p_program(ts, q, acc.push(s))
            } else {
                Err(ErrorView::ExpectedStatementEof)
            },
            Err(e) => Err(e),
        }
    } else {
        Ok(acc)
    }
}

/// The statements of a whole token sequence, or its first syntax error.
pub open spec fn parse(ts: Seq<Token>) -> Result<Seq<StmtView>, ErrorView> {
    p_program(ts, 0, Seq::empty())
}


/// `r` is the exec outcome of an expression parse whose specification is `s`,
/// and `new_pos` the position it stopped at.
pub open spec fn expr_outcome(
    r: Result<Expr, LangError>,
    new_pos: int,
    s: Result<(Expr, int), ErrorView>,
) -> bool {
    match s {
        Ok((e, q)) => r is Ok && r->Ok_0 == e && new_pos == q,
        Err(se) => r is Err && r->Err_0@ == se,
    }
}

/// `r` is the exec outcome of a statement parse whose specification is `s`.
pub open spec fn stmt_outcome(
    r: Result<Stmt, LangError>,
    new_pos: int,
    s: Result<(StmtView, int), ErrorView>,
) -> bool {
    match s {
        Ok((v, q)) => r is Ok && stmt_view(r->Ok_0) == v && new_pos == q,
        Err(se) => r is Err && r->Err_0@ == se,
    }
}

/// A recursive-descent parser over a token sequence.
pub struct Parser {
    tokens: Vec<Token>,
    pos: usize,
    depth: usize,
}

impl Parser {
    /// The tokens being parsed.
    pub closed spec fn tokens(&self) -> Seq<Token> {
        self.tokens@
    }

    /// The position of the next token to read.
    pub closed spec fn pos(&self) -> int {
        self.pos as int
    }

    /// The number of repeat blocks currently open.
    pub closed spec fn depth(&self) -> nat {
        self.depth as nat
    }

    /// The position lies within the tokens and the depth within its limit.
    pub closed spec fn wf(&self) -> bool {
        self.pos <= self.tokens.len() && self.depth <= MAX_DEPTH
    }

    /// A parser at the start of `tokens`.
    pub fn new(tokens: Vec<Token>) -> (p: Parser)
        ensures
            p.wf(),
            p.tokens() == tokens@,
            p.pos() == 0,
            p.depth() == 0,
    {
        Parser { tokens, pos: 0, depth: 0 }
    }

    fn peek(&self) -> (t: Option<Token>)
        requires
            self.wf(),
        ensures
            t == tok(self.tokens(), self.pos()),
    {
        if self.pos < self.tokens.len() {
            Some(self.tokens[self.pos])
        } else {
            None
        }
    }

    fn advance(&mut self) -> (t: Option<Token>)
        requires
            old(self).wf(),
        ensures
            final(self).wf(),
            t == tok(old(self).tokens(), old(self).pos()),
            final(self).tokens() == old(self).tokens(),
            final(self).depth() == old(self).depth(),
            final(self).pos() == if t is Some {
                old(self).pos() + 1
            } else {
                old(self).pos()
            },
    {
        if self.pos < self.tokens.len() {
            let t = self.tokens[self.pos];
            self.pos += 1;
            Some(t)
        } else {
            None
        }
    }

    /// An expression can only start with a number or a loop index.
    fn peek_starts_expr(&self) -> (b: bool)
        requires
            self.wf(),
        ensures
            b == starts_expr(tok(self.tokens(), self.pos())),
    {
        match self.peek() {
            Some(Token::Num(_)) | Some(Token::Idx(_)) => true,
            _ => false,
        }
    }

    fn parse_atom(&mut self) -> (r: Result<Expr, LangError>)
        requires
            old(self).wf(),
        ensures
            final(self).wf(),
            final(self).tokens() == old(self).tokens(),
            final(self).depth() == old(self).depth(),
            expr_outcome(r, final(self).pos(), p_atom(old(self).tokens(), old(self).pos())),
    {
        match self.advance() {
            Some(Token::Num(n)) => Ok(Expr::Num(n)),
            Some(Token::Idx(d)) => Ok(Expr::Idx(d)),
            Some(t) => Err(LangError::ExpectedAtom(t)),
            None => Err(LangError::ExpectedAtomEof),
        }
    }

    fn parse_term(&mut self) -> (r: Result<Expr, LangError>)
        requires
            old(self).wf(),
        ensures
            final(self).wf(),
            final(self).tokens() == old(self).tokens(),
            final(self).depth() == old(self).depth(),
            expr_outcome(r, final(self).pos(), p_term(old(self).tokens(), old(self).pos())),
    {
        let ghost ts = self.tokens();
        let ghost p0 = self.pos();
        let mut lhs = match self.parse_atom() {
            Ok(a) => a,
            Err(e) => return Err(e),
        };
        while matches!(self.peek(), Some(Token::Star))
            invariant
                self.wf(),
                ts == old(self).tokens(),
                p0 == old(self).pos(),
                self.tokens() == ts,
                self.depth() == old(self).depth(),
                p_term(ts, p0) == p_term_rest(ts, self.pos(), lhs),
            decreases ts.len() - self.pos(),
        {
            self.advance();
            let rhs = match self.parse_atom() {
                Ok(a) => a,
                Err(e) => return Err(e),
            };
            lhs = Expr::Mul(Box::new(lhs), Box::new(rhs));
        }
        Ok(lhs)
    }

    fn parse_expr(&mut self) -> (r: Result<Expr, LangError>)
        requires
            old(self).wf(),
        ensures
            final(self).wf(),
            final(self).tokens() == old(self).tokens(),
            final(self).depth() == old(self).depth(),
            expr_outcome(r, final(self).pos(), p_expr(old(self).tokens(), old(self).pos())),
            r is Ok ==> final(self).pos() > old(self).pos(),
    {
        let ghost ts = self.tokens();
        let ghost p0 = self.pos();
        proof {
            lemma_expr_advances(ts, p0);
            lemma_term_advances(ts, p0);
        }
        let mut lhs = match self.parse_term() {
            Ok(t) => t,
            Err(e) => return Err(e),
        };
        loop
            invariant
                self.wf(),
                ts == old(self).tokens(),
                p0 == old(self).pos(),
                self.tokens() == ts,
                self.depth() == old(self).depth(),
                self.pos() > p0,
                p_expr(ts, p0) == p_expr_rest(ts, self.pos(), lhs),
            ensures
                self.wf(),
                self.tokens() == ts,
                self.depth() == old(self).depth(),
                self.pos() > p0,
                p_expr(ts, p0) == Ok::<(Expr, int), ErrorView>((lhs, self.pos())),
            decreases ts.len() - self.pos(),
        {
            let next = self.peek();
            let is_plus = match next {
                Some(Token::Plus) => true,
                Some(Token::Minus) => false,
                _ => break,
            };
            let ghost before = self.pos();
            self.advance();
            proof {
                lemma_term_advances(ts, before + 1);
            }
            let rhs = match self.parse_term() {
                Ok(t) => t,
                Err(e) => return Err(e),
            };
            lhs = if is_plus {
                Expr::Add(Box::new(lhs), Box::new(rhs))
            } else {
                Expr::Sub(Box::new(lhs), Box::new(rhs))
            };
        }
        Ok(lhs)
    }

    fn parse_cmd(&mut self, op: char) -> (r: Result<Stmt, LangError>)
        requires
            old(self).wf(),
        ensures
            final(self).wf(),
            final(self).tokens() == old(self).tokens(),
            final(self).depth() == old(self).depth(),
            stmt_outcome(r, final(self).pos(), p_cmd(old(self).tokens(), old(self).pos(), op)),
            r is Ok ==> final(self).pos() >= old(self).pos(),
    {
        let ghost ts = self.tokens();
        let ghost p0 = self.pos();
        // commands that take no values consume nothing more
        if op == 'l' || op == 'h' || op == 'e' || op == 'o' || op == 'p' || op == 'b' || op == 'q' {
            return Ok(Stmt::Cmd { op, spec: GenSpec::Empty });
        }
        let spec = match self.peek() {
            Some(Token::Rand) => {
                self.advance();
                let min = match self.parse_expr() {
                    Ok(e) => e,
                    Err(e) => return Err(e),
                };
                let max = match self.parse_expr() {
                    Ok(e) => e,
                    Err(e) => return Err(e),
                };
                let count = match self.parse_expr() {
                    Ok(e) => e,
                    Err(e) => return Err(e),
                };
                GenSpec::Rand { min, max, count }
            },
            Some(Token::Rang) => {
                self.advance();
                let min = match self.parse_expr() {
                    Ok(e) => e,
                    Err(e) => return Err(e),
                };
                let max = match self.parse_expr() {
                    Ok(e) => e,
                    Err(e) => return Err(e),
                };
                // the step is optional: read one only if an expression starts here
                let step = if self.peek_starts_expr() {
                    match self.parse_expr() {
                        Ok(e) => Some(e),
                        Err(e) => return Err(e),
                    }
                } else {
                    None
                };
                GenSpec::Rang { min, max, step }
            },
            _ => {
                // a literal list: as many expressions as follow
                let mut exprs: Vec<Expr> = Vec::new();
                while self.peek_starts_expr()
                    invariant
                        self.wf(),
                        ts == old(self).tokens(),
                        p0 == old(self).pos(),
                        self.tokens() == ts,
                        self.depth() == old(self).depth(),
                        self.pos() >= p0,
                        !is_plain_command(op),
                        tok(ts, p0) != Some(Token::Rand),
                        tok(ts, p0) != Some(Token::Rang),
                        p_literals(ts, p0, Seq::empty()) == p_literals(ts, self.pos(), exprs@),
                    decreases ts.len() - self.pos(),
                {
                    let e = match self.parse_expr() {
                        Ok(e) => e,
                        Err(e) => return Err(e),
                    };
                    exprs.push(e);
                }
                if exprs.len() == 0 {
                    GenSpec::Empty
                } else {
                    GenSpec::Literals(exprs)
                }
            },
        };
        Ok(Stmt::Cmd { op, spec })
    }

    /// Parses one statement at the current nesting depth.
    fn parse_stmt(&mut self) -> (r: Result<Stmt, LangError>)
        requires
            old(self).wf(),
        ensures
            final(self).wf(),
            final(self).tokens() == old(self).tokens(),
            stmt_outcome(
                r,
                final(self).pos(),
                p_stmt(old(self).tokens(), old(self).pos(), old(self).depth()),
            ),
            r is Ok ==> final(self).pos() > old(self).pos(),
            r is Ok ==> final(self).depth() == old(self).depth(),
            r is Ok ==> nesting_within(
                stmt_view(r->Ok_0),
                (MAX_DEPTH - old(self).depth()) as nat,
            ),
        decreases old(self).tokens().len() - old(self).pos(),
    {
        let ghost ts = self.tokens();
        let ghost p0 = self.pos();
        let ghost d0 = self.depth();
        match self.peek() {
            Some(Token::R) => {
                self.advance();
                if self.depth + 1 > MAX_DEPTH {
                    return Err(LangError::NestingTooDeep(self.depth + 1));
                }
                self.depth += 1;
                let mut body: Vec<Stmt> = Vec::new();
                proof {
                    assert(stmts_view(body@) =~= Seq::<StmtView>::empty());
                }
                loop
                    invariant_except_break
                        self.wf(),
                        ts == old(self).tokens(),
                        p0 == old(self).pos(),
                        d0 == old(self).depth(),
                        tok(ts, p0) == Some(Token::R),
                        d0 + 1 <= MAX_DEPTH,
                        self.tokens() == ts,
                        self.depth() == d0 + 1,
                        self.pos() > p0,
                        p_body(ts, p0 + 1, d0 + 1, Seq::empty()) == p_body(
                            ts,
                            self.pos(),
                            d0 + 1,
                            stmts_view(body@),
                        ),
                        forall|i: int|
                            0 <= i < body.len() ==> nesting_within(
                                #[trigger] stmt_view(body@[i]),
                                (MAX_DEPTH - d0 - 1) as nat,
                            ),
                    ensures
                        self.wf(),
                        ts == old(self).tokens(),
                        p0 == old(self).pos(),
                        d0 == old(self).depth(),
                        tok(ts, p0) == Some(Token::R),
                        d0 + 1 <= MAX_DEPTH,
                        self.pos() > p0,
                        self.tokens() == ts,
                        self.depth() == d0 + 1,
                        p_body(ts, p0 + 1, d0 + 1, Seq::empty()) == Ok::<_, ErrorView>(
                            (stmts_view(body@), self.pos()),
                        ),
                        forall|i: int|
                            0 <= i < body.len() ==> nesting_within(
                                #[trigger] stmt_view(body@[i]),
                                (MAX_DEPTH - d0 - 1) as nat,
                            ),
                    decreases ts.len() - self.pos(),
                {
                    match self.peek() {
                        Some(Token::T) => {
                            self.advance();
                            break;
                        },
                        None => {
                            return Err(LangError::UnclosedRepeat);
                        },
                        _ => {
                            let stmt = match self.parse_stmt() {
                                Ok(s) => s,
                                Err(e) => return Err(e),
                            };
                            proof {
                                lemma_stmts_view_push(body@, stmt);
                            }
                            body.push(stmt);
                        },
                    }
                }
                proof {
                    lemma_stmts_view_index(body@);
                }
                if body.len() == 0 {
                    return Err(LangError::EmptyRepeat);
                }
                let times = match self.parse_expr() {
                    Ok(e) => e,
                    Err(e) => return Err(e),
                };
                self.depth -= 1;
                let r = Stmt::Repeat { body, times };
                proof {
                    let v = stmt_view(r);
                    assert forall|i: int| 0 <= i < stmts_view(body@).len() implies nesting_within(
                        #[trigger] stmts_view(body@)[i],
                        (MAX_DEPTH - d0 - 1) as nat,
                    ) by {
                        assert(stmts_view(body@)[i] == stmt_view(body@[i]));
                    }
                }
                Ok(r)
            },
            Some(Token::Cmd(op)) => {
                self.advance();
                self.parse_cmd(op)
            },
            Some(Token::T) => Err(LangError::UnexpectedT),
            Some(Token::Num(n)) => Err(LangError::StrayNumber(n)),
            Some(t) => Err(LangError::ExpectedStatement(t)),
            None => Err(LangError::ExpectedStatementEof),
        }
    }

    /// Parses statements until the tokens run out.
    pub fn parse_program(&mut self) -> (r: Result<Vec<Stmt>, LangError>)
        requires
            old(self).wf(),
            old(self).depth() == 0,
        ensures
            final(self).wf(),
            final(self).tokens() == old(self).tokens(),
            r is Ok ==> final(self).pos() == old(self).tokens().len(),
            match p_program(old(self).tokens(), old(self).pos(), Seq::empty()) {
                Ok(v) => r is Ok && stmts_view(r->Ok_0@) == v && forall|i: int|
                    0 <= i < r->Ok_0@.len() ==> nesting_within(
                        #[trigger] stmt_view(r->Ok_0@[i]),
                        MAX_DEPTH as nat,
                    ),
                Err(se) => r is Err && r->Err_0@ == se,
            },
    {
        let ghost ts = self.tokens();
        let ghost p0 = self.pos();
        let mut stmts: Vec<Stmt> = Vec::new();
        proof {
            assert(stmts_view(stmts@) =~= Seq::<StmtView>::empty());
        }
        while self.peek().is_some()
            invariant
                self.wf(),
                ts == old(self).tokens(),
                p0 == old(self).pos(),
                self.tokens() == ts,
                self.depth() == 0,
                p_program(ts, p0, Seq::empty()) == p_program(ts, self.pos(), stmts_view(stmts@)),
                forall|i: int|
                    0 <= i < stmts.len() ==> nesting_within(
                        #[trigger] stmt_view(stmts@[i]),
                        MAX_DEPTH as nat,
                    ),
            decreases ts.len() - self.pos(),
        {
            let stmt = match self.parse_stmt() {
                Ok(s) => s,
                Err(e) => return Err(e),
            };
            proof {
                lemma_stmts_view_push(stmts@, stmt);
            }
            stmts.push(stmt);
        }
        Ok(stmts)
    }
}

} // verus!
