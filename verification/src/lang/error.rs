//! Errors of the command language, from lexing, parsing and running a line.

use crate::lang::tokens::Token;
use vstd::prelude::*;

verus! {

/// Why a line could not be lexed, parsed or run.
#[derive(Debug, PartialEq, Eq)]
pub enum LangError {
    /// A run of digits whose value does not fit in an `i64`.
    IntegerOverflow(Vec<char>),
    /// A word that is neither a one-letter command nor a keyword.
    UnknownKeyword(Vec<char>),
    /// A character that starts no token.
    UnexpectedChar(char),
    /// A repeat block nested deeper than four levels (the depth reached).
    NestingTooDeep(usize),
    /// An `r` block with no closing `t`.
    UnclosedRepeat,
    /// An `r` block with no statement before its `t`.
    EmptyRepeat,
    /// A `t` with no open `r` block.
    UnexpectedT,
    /// A number where a statement should start.
    StrayNumber(i64),
    /// A token other than a command or `r` where a statement should start.
    ExpectedStatement(Token),
    /// The end of input where a statement should start.
    ExpectedStatementEof,
    /// A token other than a number or loop index where an operand should be.
    ExpectedAtom(Token),
    /// The end of input where an operand should be.
    ExpectedAtomEof,
    /// A loop index `n<index>` used while only `depth` repeat blocks are running.
    IndexTooDeep(usize, usize),
    /// A generated value outside `0..=u32::MAX`.
    OutOfRange(i64),
    /// A `rand` generator whose minimum exceeds its maximum.
    RandMinAboveMax(u32, u32),
    /// A `rang` generator with step zero.
    ZeroStep,
    /// A command letter that names no command.
    UnknownCommand(char),
    /// An expression whose value does not fit in an `i64`.
    ArithmeticOverflow,
    /// A `rand` generator asked for a negative number of values.
    NegativeCount(i64),
}

/// The plain value of an error: character runs as sequences.
pub ghost enum ErrorView {
    IntegerOverflow(Seq<char>),
    UnknownKeyword(Seq<char>),
    UnexpectedChar(char),
    NestingTooDeep(usize),
    UnclosedRepeat,
    EmptyRepeat,
    UnexpectedT,
    StrayNumber(i64),
    ExpectedStatement(Token),
    ExpectedStatementEof,
    ExpectedAtom(Token),
    ExpectedAtomEof,
    IndexTooDeep(usize, usize),
    OutOfRange(i64),
    RandMinAboveMax(u32, u32),
    ZeroStep,
    UnknownCommand(char),
    ArithmeticOverflow,
    NegativeCount(i64),
}

impl View for LangError {
    type V = ErrorView;

    open spec fn view(&self) -> ErrorView {
        match self {
            LangError::IntegerOverflow(d) => ErrorView::IntegerOverflow(d@),
            LangError::UnknownKeyword(w) => ErrorView::UnknownKeyword(w@),
            LangError::UnexpectedChar(c) => ErrorView::UnexpectedChar(*c),
            LangError::NestingTooDeep(d) => ErrorView::NestingTooDeep(*d),
            LangError::UnclosedRepeat => ErrorView::UnclosedRepeat,
            LangError::EmptyRepeat => ErrorView::EmptyRepeat,
            LangError::UnexpectedT => ErrorView::UnexpectedT,
            LangError::StrayNumber(n) => ErrorView::StrayNumber(*n),
            LangError::ExpectedStatement(t) => ErrorView::ExpectedStatement(*t),
            LangError::ExpectedStatementEof => ErrorView::ExpectedStatementEof,
            LangError::ExpectedAtom(t) => ErrorView::ExpectedAtom(*t),
            LangError::ExpectedAtomEof => ErrorView::ExpectedAtomEof,
            LangError::IndexTooDeep(i, d) => ErrorView::IndexTooDeep(*i, *d),
            LangError::OutOfRange(v) => ErrorView::OutOfRange(*v),
            LangError::RandMinAboveMax(a, b) => ErrorView::RandMinAboveMax(*a, *b),
            LangError::ZeroStep => ErrorView::ZeroStep,
            LangError::UnknownCommand(c) => ErrorView::UnknownCommand(*c),
            LangError::ArithmeticOverflow => ErrorView::ArithmeticOverflow,
            LangError::NegativeCount(n) => ErrorView::NegativeCount(*n),
        }
    }
}

} // verus!
