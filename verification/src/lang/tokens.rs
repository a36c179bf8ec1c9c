//! Lexical analysis: input characters to tokens.

use crate::lang::error::{ErrorView, LangError};
use vstd::prelude::*;

verus! {

broadcast use vstd::string::group_string_axioms;

/// The characters of a string, in order.
pub fn chars_of(input: &str) -> (v: Vec<char>)
    ensures
        v@ == input@,
{
    let mut v: Vec<char> = Vec::new();
    for c in iter: input.chars()
        invariant
            v.len() == iter.index(),
            forall|j: int| 0 <= j < v.len() ==> v@[j] == iter.seq()[j],
    {
        v.push(c);
    }
    assert(v@ =~= input@);
    v
}


/// A lexical token.
#[derive(Clone, Copy, Debug, PartialEq, Eq, Structural)]
pub enum Token {
    /// A one-letter command (any letter but `r` and `t`).
    Cmd(char),
    /// `r`: opens a repeat block.
    R,
    /// `t`: closes a repeat block.
    T,
    /// `rand`: pseudorandom values.
    Rand,
    /// `rang`: a range of values.
    Rang,
    /// `n1` .. `n4`: the index of an enclosing repeat block.
    Idx(usize),
    /// A non-negative integer literal.
    Num(i64),
    Plus,
    Minus,
    Star,
}

pub open spec fn is_digit(c: char) -> bool {
    '0' <= c <= '9'
}

pub open spec fn is_letter(c: char) -> bool {
    ('a' <= c <= 'z') || ('A' <= c <= 'Z')
}

/// The end of the run of digits that starts at `i`.
pub open spec fn digit_end(s: Seq<char>, i: int) -> int
    decreases s.len() - i,
{
    if 0 <= i < s.len() && is_digit(s[i]) {
        digit_end(s, i + 1)
    } else {
        i
    }
}

/// The end of the run of letters and digits that starts at `i`.
pub open spec fn word_end(s: Seq<char>, i: int) -> int
    decreases s.len() - i,
{
    if 0 <= i < s.len() && (is_letter(s[i]) || is_digit(s[i])) {
        word_end(s, i + 1)
    } else {
        i
    }
}

pub proof fn lemma_digit_end(s: Seq<char>, i: int)
    requires
        0 <= i <= s.len(),
    ensures
        i <= digit_end(s, i) <= s.len(),
        forall|k: int| i <= k < digit_end(s, i) ==> is_digit(#[trigger] s[k]),
        digit_end(s, i) < s.len() ==> !is_digit(s[digit_end(s, i)]),
    decreases s.len() - i,
{
    if i < s.len() && is_digit(s[i]) {
        lemma_digit_end(s, i + 1);
    }
}

pub proof fn lemma_word_end(s: Seq<char>, i: int)
    requires
        0 <= i <= s.len(),
    ensures
        i <= word_end(s, i) <= s.len(),
        forall|k: int| i <= k < word_end(s, i) ==> is_letter(#[trigger] s[k]) || is_digit(s[k]),
        word_end(s, i) < s.len() ==> !(is_letter(s[word_end(s, i)]) || is_digit(s[word_end(s, i)])),
    decreases s.len() - i,
{
    if i < s.len() && (is_letter(s[i]) || is_digit(s[i])) {
        lemma_word_end(s, i + 1);
    }
}

/// The decimal value of a run of digits.
pub open spec fn digits_value(d: Seq<char>) -> int
    decreases d.len(),
{
    if d.len() == 0 {
        0
    } else {
        10 * digits_value(d.drop_last()) + (d.last() as int - '0' as int)
    }
}

proof fn lemma_digits_value_nonneg(d: Seq<char>)
    requires
        forall|k: int| 0 <= k < d.len() ==> is_digit(#[trigger] d[k]),
    ensures
        digits_value(d) >= 0,
    decreases d.len(),
{
    if d.len() > 0 {
        lemma_digits_value_nonneg(d.drop_last());
    }
}

/// The token a word stands for: a keyword, a loop index, or a one-letter command.
pub open spec fn word_token(w: Seq<char>) -> Result<Token, ErrorView> {
    if w == seq!['r', 'a', 'n', 'd'] {
        Ok(Token::Rand)
    } else if w == seq!['r', 'a', 'n', 'g'] {
        Ok(Token::Rang)
    } else if w == seq!['n', '1'] {
        Ok(Token::Idx(1))
    } else if w == seq!['n', '2'] {
        Ok(Token::Idx(2))
    } else if w == seq!['n', '3'] {
        Ok(Token::Idx(3))
    } else if w == seq!['n', '4'] {
        Ok(Token::Idx(4))
    } else if w == seq!['r'] {
        Ok(Token::R)
    } else if w == seq!['t'] {
        Ok(Token::T)
    } else if w.len() == 1 {
        Ok(Token::Cmd(w[0]))
    } else {
        Err(ErrorView::UnknownKeyword(w))
    }
}

/// `t` followed by the tokens of `rest`, or the error of `rest`.
pub open spec fn prepend(t: Token, rest: Result<Seq<Token>, ErrorView>) -> Result<
    Seq<Token>,
    ErrorView,
> {
    match rest {
        Ok(ts) => Ok(seq![t] + ts),
        Err(e) => Err(e),
    }
}

/// The tokens of `s` from position `i` on, or the first lexical error there.
/// Spaces and tabs separate tokens; `+ - *` are tokens; a run of digits is a
/// number; a letter starts a word that runs over letters and digits.
pub open spec fn lex_from(s: Seq<char>, i: int) -> Result<Seq<Token>, ErrorView>
    decreases s.len() - i,
{
    if i < 0 || i >= s.len() {
        Ok(seq![])
    } else {
        let c = s[i];
        if c == ' ' || c == '\t' {
            lex_from(s, i + 1)
        } else if c == '+' {
            prepend(Token::Plus, lex_from(s, i + 1))
        } else if c == '-' {
            prepend(Token::Minus, lex_from(s, i + 1))
        } else if c == '*' {
            prepend(Token::Star, lex_from(s, i + 1))
        } else if is_digit(c) {
            proof {
                lemma_digit_end(s, i);
                lemma_digit_end(s, i + 1);
            }
            let j = digit_end(s, i);
            let d = s.subrange(i, j);
            if digits_value(d) > i64::MAX {
                Err(ErrorView::IntegerOverflow(d))
            } else {
                prepend(Token::Num(digits_value(d) as i64), lex_from(s, j))
            }
        } else if is_letter(c) {
            proof {
                lemma_word_end(s, i);
                lemma_word_end(s, i + 1);
            }
            let j = word_end(s, i);
            match word_token(s.subrange(i, j)) {
                Ok(t) => prepend(t, lex_from(s, j)),
                Err(e) => Err(e),
            }
        } else {
            Err(ErrorView::UnexpectedChar(c))
        }
    }
}

/// The tokens of a whole line, or its first lexical error.
pub open spec fn lex(s: Seq<char>) -> Result<Seq<Token>, ErrorView> {
    lex_from(s, 0)
}

/// `done` followed by the tokens of `rest`, or the error of `rest`.
pub open spec fn append_result(done: Seq<Token>, rest: Result<Seq<Token>, ErrorView>) -> Result<
    Seq<Token>,
    ErrorView,
> {
    match rest {
        Ok(ts) => Ok(done + ts),
        Err(e) => Err(e),
    }
}

/// The characters `s[from..to]` as a new vector.
fn copy_chars(s: &Vec<char>, from: usize, to: usize) -> (v: Vec<char>)
    requires
        from <= to <= s.len(),
    ensures
        v@ == s@.subrange(from as int, to as int),
{
    let mut v: Vec<char> = Vec::new();
    let mut k = from;
    while k < to
        invariant
            from <= k <= to <= s.len(),
            v@ == s@.subrange(from as int, k as int),
        decreases to - k,
    {
        v.push(s[k]);
        k += 1;
        assert(v@ =~= s@.subrange(from as int, k as int));
    }
    v
}

/// Whether the word `w` is exactly `lit`.
fn word_is(w: &Vec<char>, lit: &[char]) -> (b: bool)
    ensures
        b == (w@ == lit@),
{
    if w.len() != lit.len() {
        return false;
    }
    let mut k: usize = 0;
    while k < w.len()
        invariant
            w.len() == lit.len(),
            k <= w.len(),
            forall|j: int| 0 <= j < k ==> w@[j] == lit@[j],
        decreases w.len() - k,
    {
        if w[k] != lit[k] {
            return false;
        }
        k += 1;
    }
    assert(w@ =~= lit@);
    true
}

/// The token a word stands for.
fn word_token_exec(w: &Vec<char>) -> (r: Result<Token, LangError>)
    ensures
        match (r, word_token(w@)) {
            (Ok(t), Ok(st)) => t == st,
            (Err(e), Err(se)) => e@ == se,
            _ => false,
        },
{
    let rand_kw = ['r', 'a', 'n', 'd'];
    let rang_kw = ['r', 'a', 'n', 'g'];
    let n1 = ['n', '1'];
    let n2 = ['n', '2'];
    let n3 = ['n', '3'];
    let n4 = ['n', '4'];
    let r_kw = ['r'];
    let t_kw = ['t'];
    assert(rand_kw@ =~= seq!['r', 'a', 'n', 'd']);
    assert(rang_kw@ =~= seq!['r', 'a', 'n', 'g']);
    assert(n1@ =~= seq!['n', '1']);
    assert(n2@ =~= seq!['n', '2']);
    assert(n3@ =~= seq!['n', '3']);
    assert(n4@ =~= seq!['n', '4']);
    assert(r_kw@ =~= seq!['r']);
    assert(t_kw@ =~= seq!['t']);
    if word_is(w, &rand_kw) {
        Ok(Token::Rand)
    } else if word_is(w, &rang_kw) {
        Ok(Token::Rang)
    } else if word_is(w, &n1) {
        Ok(Token::Idx(1))
    } else if word_is(w, &n2) {
        Ok(Token::Idx(2))
    } else if word_is(w, &n3) {
        Ok(Token::Idx(3))
    } else if word_is(w, &n4) {
        Ok(Token::Idx(4))
    } else if word_is(w, &r_kw) {
        Ok(Token::R)
    } else if word_is(w, &t_kw) {
        Ok(Token::T)
    } else if w.len() == 1 {
        Ok(Token::Cmd(w[0]))
    } else {
        let word = copy_chars(w, 0, w.len());
        assert(word@ =~= w@);
        Err(LangError::UnknownKeyword(word))
    }
}


/// Whether the lexing outcome `r` is the outcome `spec` of the specification.
pub open spec fn lex_outcome_matches(
    r: Result<Vec<Token>, LangError>,
    spec: Result<Seq<Token>, ErrorView>,
) -> bool {
    match (r, spec) {
        (Ok(v), Ok(ts)) => v@ == ts,
        (Err(e), Err(se)) => e@ == se,
        _ => false,
    }
}

/// Splits a line into tokens, stopping at the first lexical error.
pub fn tokenize(input: &str) -> (r: Result<Vec<Token>, LangError>)
    ensures
        lex_outcome_matches(r, lex(input@)),
{
    let chars = chars_of(input);
    let n = chars.len();
    let mut tokens: Vec<Token> = Vec::new();
    let mut i: usize = 0;
    assert(append_result(tokens@, lex_from(chars@, 0)) =~= lex_from(chars@, 0)) by {
        match lex_from(chars@, 0) {
            Ok(ts) => {
                assert(tokens@ + ts =~= ts);
            },
            Err(e) => {},
        }
    }
    while i < n
        invariant
            i <= n,
            n == chars.len(),
            chars@ == input@,
            lex(chars@) == append_result(tokens@, lex_from(chars@, i as int)),
        decreases n - i,
    {
        let ghost s = chars@;
        let ghost before = tokens@;
        let c = chars[i];
        if c == ' ' || c == '\t' {
            i += 1;
        } else if c == '+' || c == '-' || c == '*' {
            let t = if c == '+' {
                Token::Plus
            } else if c == '-' {
                Token::Minus
            } else {
                Token::Star
            };
            tokens.push(t);
            proof {
                match lex_from(s, i + 1) {
                    Ok(ts) => {
                        assert(tokens@ + ts =~= before + (seq![t] + ts));
                    },
                    Err(e) => {},
                }
            }
            i += 1;
        } else if c >= '0' && c <= '9' {
            let start = i;
            proof {
                lemma_digit_end(s, start as int);
            }
            while i < n && chars[i] >= '0' && chars[i] <= '9'
                invariant
                    start <= i <= n,
                    n == chars.len(),
                    s == chars@,
                    0 <= start < n,
                    is_digit(s[start as int]),
                    digit_end(s, start as int) == digit_end(s, i as int),
                decreases n - i,
            {
                i += 1;
            }
            proof {
                lemma_digit_end(s, i as int);
                assert(digit_end(s, i as int) == i);
            }
            let ghost d = s.subrange(start as int, i as int);
            let mut value: i64 = 0;
            let mut overflow = false;
            let mut k = start;
            while k < i
                invariant
                    start <= k <= i <= n,
                    n == chars.len(),
                    s == chars@,
                    d == s.subrange(start as int, i as int),
                    forall|j: int| start <= j < i ==> is_digit(#[trigger] s[j]),
                    !overflow ==> value == digits_value(s.subrange(start as int, k as int)),
                    overflow ==> digits_value(s.subrange(start as int, k as int)) > i64::MAX,
                decreases i - k,
            {
                let digit = chars[k];
                let dv = (digit as u32 - '0' as u32) as i64;
                let ghost prev = s.subrange(start as int, k as int);
                let ghost next = s.subrange(start as int, k + 1);
                assert(next.drop_last() =~= prev);
                assert(next.last() == digit);
                proof {
                    lemma_digits_value_nonneg(prev);
                }
                if !overflow {
                    match value.checked_mul(10) {
                        Some(m) => match m.checked_add(dv) {
                            Some(v2) => {
                                value = v2;
                            },
                            None => {
                                overflow = true;
                            },
                        },
                        None => {
                            overflow = true;
                        },
                    }
                }
                k += 1;
            }
            assert(s.subrange(start as int, i as int) == d);
            if overflow {
                let digits = copy_chars(&chars, start, i);
                return Err(LangError::IntegerOverflow(digits));
            }
            tokens.push(Token::Num(value));
            proof {
                match lex_from(s, i as int) {
                    Ok(ts) => {
                        assert(tokens@ + ts =~= before + (seq![Token::Num(value)] + ts));
                    },
                    Err(e) => {},
                }
            }
        } else if (c >= 'a' && c <= 'z') || (c >= 'A' && c <= 'Z') {
            let start = i;
            proof {
                lemma_word_end(s, start as int);
            }
            while i < n && ((chars[i] >= 'a' && chars[i] <= 'z') || (chars[i] >= 'A' && chars[i]
                <= 'Z') || (chars[i] >= '0' && chars[i] <= '9'))
                invariant
                    start <= i <= n,
                    n == chars.len(),
                    s == chars@,
                    0 <= start < n,
                    is_letter(s[start as int]),
                    word_end(s, start as int) == word_end(s, i as int),
                decreases n - i,
            {
                i += 1;
            }
            proof {
                lemma_word_end(s, i as int);
                assert(word_end(s, i as int) == i);
            }
            let word = copy_chars(&chars, start, i);
            match word_token_exec(&word) {
                Ok(t) => {
                    tokens.push(t);
                    proof {
                        match lex_from(s, i as int) {
                            Ok(ts) => {
                                assert(tokens@ + ts =~= before + (seq![t] + ts));
                            },
                            Err(e) => {},
                        }
                    }
                },
                Err(e) => {
                    return Err(e);
                },
            }
        } else {
            return Err(LangError::UnexpectedChar(c));
        }
    }
    proof {
        match lex_from(chars@, i as int) {
            Ok(ts) => {
                assert(ts =~= seq![]);
                assert(tokens@ + ts =~= tokens@);
            },
            Err(e) => {},
        }
    }
    Ok(tokens)
}

} // verus!
