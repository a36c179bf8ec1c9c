use moneymaker::avl::AVLTree;
use moneymaker::draw::{DrawRow, Mark};
use moneymaker::lang::error::LangError;
use moneymaker::lang::exec::{lcg_rand, run_line, seed_from_nanos, to_u32, Event, ExecResult};
use moneymaker::lang::parser::Parser;
use moneymaker::lang::tokens::{tokenize, Token};
use moneymaker::rbt::{Color, RedBlackTree};

fn chars(s: &str) -> Vec<char> {
    s.chars().collect()
}

fn run_avl(line: &str, t: &mut AVLTree) -> (Result<ExecResult, LangError>, Vec<Event>) {
    let mut out = Vec::new();
    let r = run_line(line, t, &mut out);
    (r, out)
}

fn fresh(line: &str) -> (Result<ExecResult, LangError>, Vec<Event>) {
    let mut t = AVLTree::new();
    run_avl(line, &mut t)
}

fn err(line: &str) -> LangError {
    match fresh(line).0 {
        Err(e) => e,
        Ok(r) => panic!("line {:?} ran to {:?}", line, r),
    }
}

// ── tokens ──────────────────────────────────────────────────────────────────

#[test]
fn tokenize_all_token_kinds() {
    let ts = tokenize("i rand n1 2*3 rang n4 r t + -").unwrap();
    assert_eq!(
        ts,
        vec![
            Token::Cmd('i'),
            Token::Rand,
            Token::Idx(1),
            Token::Num(2),
            Token::Star,
            Token::Num(3),
            Token::Rang,
            Token::Idx(4),
            Token::R,
            Token::T,
            Token::Plus,
            Token::Minus,
        ]
    );
}

#[test]
fn tokenize_blank_line_is_empty() {
    assert_eq!(tokenize(" \t  ").unwrap(), vec![]);
    assert_eq!(tokenize("").unwrap(), vec![]);
}

#[test]
fn tokenize_adjacent_tokens() {
    assert_eq!(
        tokenize("i12+n2").unwrap_err(),
        LangError::UnknownKeyword(chars("i12"))
    );
    assert_eq!(
        tokenize("12i").unwrap(),
        vec![Token::Num(12), Token::Cmd('i')]
    );
}

#[test]
fn tokenize_uppercase_letter_is_a_command() {
    assert_eq!(tokenize("R").unwrap(), vec![Token::Cmd('R')]);
}

#[test]
fn tokenize_largest_number() {
    assert_eq!(
        tokenize("9223372036854775807").unwrap(),
        vec![Token::Num(i64::MAX)]
    );
}

// ── errors, one input per kind ──────────────────────────────────────────────

#[test]
fn error_integer_overflow() {
    assert_eq!(
        err("i 9223372036854775808"),
        LangError::IntegerOverflow(chars("9223372036854775808"))
    );
}

#[test]
fn error_unknown_keyword() {
    assert_eq!(err("insert 5"), LangError::UnknownKeyword(chars("insert")));
    assert_eq!(err("i n5"), LangError::UnknownKeyword(chars("n5")));
}

#[test]
fn error_unexpected_char() {
    assert_eq!(err("i 1, 2"), LangError::UnexpectedChar(','));
}

#[test]
fn error_nesting_too_deep() {
    assert_eq!(
        err("r r r r r h t 1 t 1 t 1 t 1 t 1"),
        LangError::NestingTooDeep(5)
    );
}

#[test]
fn four_levels_of_nesting_are_allowed() {
    let (r, _) = fresh("r r r r i n1+n2+n3+n4 t 1 t 1 t 1 t 1");
    assert_eq!(r, Ok(ExecResult::Continue));
}

#[test]
fn error_unclosed_repeat() {
    assert_eq!(err("r h"), LangError::UnclosedRepeat);
}

#[test]
fn error_empty_repeat() {
    assert_eq!(err("r t 3"), LangError::EmptyRepeat);
}

#[test]
fn error_unexpected_t() {
    assert_eq!(err("h t"), LangError::UnexpectedT);
}

#[test]
fn error_stray_number() {
    assert_eq!(err("5"), LangError::StrayNumber(5));
    assert_eq!(err("r h t 2 3"), LangError::StrayNumber(3));
}

#[test]
fn error_expected_statement() {
    assert_eq!(err("rand"), LangError::ExpectedStatement(Token::Rand));
    assert_eq!(err("+"), LangError::ExpectedStatement(Token::Plus));
    assert_eq!(err("n1"), LangError::ExpectedStatement(Token::Idx(1)));
}

#[test]
fn error_expected_atom() {
    assert_eq!(err("i rand h"), LangError::ExpectedAtom(Token::Cmd('h')));
    assert_eq!(err("r h t +"), LangError::ExpectedAtom(Token::Plus));
}

#[test]
fn error_expected_atom_at_end() {
    assert_eq!(err("i rand 1 2"), LangError::ExpectedAtomEof);
    assert_eq!(err("i 1 +"), LangError::ExpectedAtomEof);
    assert_eq!(err("r h t"), LangError::ExpectedAtomEof);
}

#[test]
fn error_index_too_deep() {
    assert_eq!(err("i n1"), LangError::IndexTooDeep(1, 0));
    assert_eq!(err("r i n2 t 2"), LangError::IndexTooDeep(2, 1));
}

#[test]
fn error_out_of_range() {
    assert_eq!(err("i 5-10"), LangError::OutOfRange(-5));
    assert_eq!(err("i 4294967296"), LangError::OutOfRange(4294967296));
}

#[test]
fn error_rand_min_above_max() {
    assert_eq!(err("i rand 10 5 3"), LangError::RandMinAboveMax(10, 5));
}

#[test]
fn error_zero_step() {
    assert_eq!(err("i rang 1 10 0"), LangError::ZeroStep);
}

#[test]
fn error_unknown_command_after_earlier_work() {
    let mut t = AVLTree::new();
    let (r, out) = run_avl("i 1 x", &mut t);
    assert_eq!(r, Err(LangError::UnknownCommand('x')));
    assert_eq!(out, vec![Event::InsertBatch(vec![1]), Event::Inserted(1)]);
    assert!(t.search(1));
}

#[test]
fn lexing_error_changes_nothing() {
    let mut t = AVLTree::new();
    let (r, out) = run_avl("i 1 2 ?", &mut t);
    assert_eq!(r, Err(LangError::UnexpectedChar('?')));
    assert!(out.is_empty());
    assert!(t.is_empty());
}

// ── helpers ─────────────────────────────────────────────────────────────────

#[test]
fn to_u32_bounds() {
    assert_eq!(to_u32(0), Ok(0));
    assert_eq!(to_u32(4294967295), Ok(u32::MAX));
    assert_eq!(to_u32(-1), Err(LangError::OutOfRange(-1)));
    assert_eq!(to_u32(4294967296), Err(LangError::OutOfRange(4294967296)));
}

#[test]
fn lcg_rand_exact_values() {
    assert_eq!(lcg_rand(1, 100, 5, 42), vec![35, 27, 39, 4, 95]);
    assert_eq!(
        lcg_rand(0, u32::MAX, 3, 0),
        vec![167951807, 218396424, 1299921937]
    );
    assert_eq!(lcg_rand(10, 20, 4, 999999999), vec![17, 11, 11, 19]);
    assert_eq!(lcg_rand(7, 7, 3, 123), vec![7, 7, 7]);
    assert_eq!(lcg_rand(1, 2, 0, 5), vec![]);
}

#[test]
fn parser_parses_a_program() {
    let mut p = Parser::new(tokenize("r i 1 t 2 h").unwrap());
    let stmts = p.parse_program().unwrap();
    assert_eq!(stmts.len(), 2);
}

// ── running lines ───────────────────────────────────────────────────────────

#[test]
fn blank_line_continues() {
    let (r, out) = fresh("   ");
    assert_eq!(r, Ok(ExecResult::Continue));
    assert!(out.is_empty());
}

#[test]
fn insert_height_inorder() {
    let (r, out) = fresh("i 1 2 3 h o");
    assert_eq!(r, Ok(ExecResult::Continue));
    assert_eq!(
        out,
        vec![
            Event::InsertBatch(vec![1, 2, 3]),
            Event::Inserted(1),
            Event::Inserted(2),
            Event::Inserted(3),
            Event::Height(2),
            Event::Inorder(vec![1, 2, 3]),
        ]
    );
}

#[test]
fn expressions_follow_precedence() {
    let (_, out) = fresh("i 2+3*4 10-2-3");
    assert_eq!(out[0], Event::InsertBatch(vec![14, 5]));
}

#[test]
fn delete_and_search_report_each_value() {
    let mut t = AVLTree::new();
    run_avl("i 1 2", &mut t).0.unwrap();
    let (r, out) = run_avl("d 1 5 s 1 2", &mut t);
    assert_eq!(r, Ok(ExecResult::Continue));
    assert_eq!(
        out,
        vec![
            Event::DeleteBatch(vec![1, 5]),
            Event::Deleted(1),
            Event::NotFound(5),
            Event::SearchBatch(2),
            Event::SearchResult(1, false),
            Event::SearchResult(2, true),
        ]
    );
}

#[test]
fn commands_without_values() {
    let (_, out) = fresh("e i 2 1 3 l e p");
    assert_eq!(
        out,
        vec![
            Event::Empty(true),
            Event::InsertBatch(vec![2, 1, 3]),
            Event::Inserted(2),
            Event::Inserted(1),
            Event::Inserted(3),
            Event::Leaves(2),
            Event::Empty(false),
            Event::Print(vec![
                DrawRow { key: 3, mark: Mark::Balance(0), path: vec![false, false] },
                DrawRow { key: 2, mark: Mark::Balance(0), path: vec![false] },
                DrawRow { key: 1, mark: Mark::Balance(0), path: vec![false, true] },
            ]),
        ]
    );
}

#[test]
fn value_command_without_values_does_nothing() {
    let (r, out) = fresh("i s d");
    assert_eq!(r, Ok(ExecResult::Continue));
    assert_eq!(
        out,
        vec![
            Event::InsertBatch(vec![]),
            Event::SearchBatch(0),
            Event::DeleteBatch(vec![]),
        ]
    );
}

#[test]
fn rang_default_and_explicit_steps() {
    assert_eq!(fresh("i rang 1 5").1[0], Event::InsertBatch(vec![1, 2, 3, 4, 5]));
    assert_eq!(fresh("i rang 1 10 3").1[0], Event::InsertBatch(vec![1, 4, 7, 10]));
    assert_eq!(fresh("i rang 10 1 0-3").1[0], Event::InsertBatch(vec![10, 7, 4, 1]));
    assert_eq!(fresh("i rang 5 1").1[0], Event::InsertBatch(vec![]));
}

#[test]
fn rang_near_the_top_of_u32() {
    assert_eq!(
        fresh("i rang 4294967290 4294967295 2").1[0],
        Event::InsertBatch(vec![4294967290, 4294967292, 4294967294])
    );
    assert_eq!(err("i rang 4294967294 4294967296"), LangError::OutOfRange(4294967296));
}

#[test]
fn rang_with_negative_start_fails() {
    assert_eq!(err("i rang 0-1 3"), LangError::OutOfRange(-1));
}

#[test]
fn rand_with_single_value_range() {
    let mut t = AVLTree::new();
    let (r, out) = run_avl("i rand 5 5 3", &mut t);
    assert_eq!(r, Ok(ExecResult::Continue));
    assert_eq!(out[0], Event::InsertBatch(vec![5, 5, 5]));
    assert_eq!(t.inorder(), vec![5]);
}

#[test]
fn rand_values_stay_in_range() {
    let (_, out) = fresh("i rand 10 20 50");
    match &out[0] {
        Event::InsertBatch(v) => {
            assert_eq!(v.len(), 50);
            assert!(v.iter().all(|&x| (10..=20).contains(&x)));
        }
        other => panic!("unexpected {:?}", other),
    }
}

#[test]
fn repeat_with_loop_index() {
    let (r, out) = fresh("r i n1 t 2");
    assert_eq!(r, Ok(ExecResult::Continue));
    assert_eq!(
        out,
        vec![
            Event::RepeatStart(2, 1),
            Event::RepeatIter(1, 2),
            Event::InsertBatch(vec![1]),
            Event::Inserted(1),
            Event::RepeatIter(2, 2),
            Event::InsertBatch(vec![2]),
            Event::Inserted(2),
            Event::RepeatDone,
        ]
    );
}

#[test]
fn nested_repeat_indices() {
    let mut t = AVLTree::new();
    let (r, _) = run_avl("r r i n1*10+n2 t 2 t 2", &mut t);
    assert_eq!(r, Ok(ExecResult::Continue));
    assert_eq!(t.inorder(), vec![11, 12, 21, 22]);
}

#[test]
fn repeat_count_from_expression() {
    let mut t = AVLTree::new();
    run_avl("r i n1 t 2*3-1", &mut t).0.unwrap();
    assert_eq!(t.inorder(), vec![1, 2, 3, 4, 5]);
}

#[test]
fn repeat_zero_or_less_is_skipped() {
    assert_eq!(fresh("r h t 0").1, vec![Event::RepeatSkipped(0)]);
    assert_eq!(fresh("r h t 0-2").1, vec![Event::RepeatSkipped(-2)]);
}

#[test]
fn quit_interrupts_repeat() {
    let (r, out) = fresh("r q t 3 i 1");
    assert_eq!(r, Ok(ExecResult::Quit));
    assert_eq!(
        out,
        vec![
            Event::RepeatStart(3, 1),
            Event::RepeatIter(1, 3),
            Event::Quit,
            Event::RepeatInterrupted,
        ]
    );
}

#[test]
fn back_stops_the_line() {
    let mut t = AVLTree::new();
    let (r, out) = run_avl("i 1 b i 2", &mut t);
    assert_eq!(r, Ok(ExecResult::Back));
    assert_eq!(out.last(), Some(&Event::Back));
    assert_eq!(t.inorder(), vec![1]);
}

#[test]
fn index_resets_after_repeat() {
    assert_eq!(err("r h t 1 i n1"), LangError::IndexTooDeep(1, 0));
}

#[test]
fn runs_on_a_red_black_tree() {
    let mut t = RedBlackTree::new();
    let mut out = Vec::new();
    let r = run_line("i rang 1 3 p h", &mut t, &mut out);
    assert_eq!(r, Ok(ExecResult::Continue));
    assert_eq!(
        out[4],
        Event::Print(vec![
            DrawRow { key: 3, mark: Mark::Color(Color::Red), path: vec![false, false] },
            DrawRow { key: 2, mark: Mark::Color(Color::Black), path: vec![false] },
            DrawRow { key: 1, mark: Mark::Color(Color::Red), path: vec![false, true] },
        ])
    );
    assert_eq!(out[5], Event::Height(2));
}

#[test]
fn parse_error_changes_nothing() {
    let mut t = AVLTree::new();
    run_avl("i 1", &mut t).0.unwrap();
    let (r, out) = run_avl("i 2 t", &mut t);
    assert_eq!(r, Err(LangError::UnexpectedT));
    assert!(out.is_empty());
    assert_eq!(t.inorder(), vec![1]);
}

#[test]
fn leaves_height_and_drawing_follow_the_tree() {
    let mut t = RedBlackTree::new();
    let mut out = Vec::new();
    let r = run_line("i rang 1 10 l h", &mut t, &mut out);
    assert_eq!(r, Ok(ExecResult::Continue));
    let n = out.len();
    assert_eq!(out[n - 2], Event::Leaves(5));
    assert_eq!(out[n - 1], Event::Height(5));
}

#[test]
fn seed_from_clock_reading() {
    assert_eq!(seed_from_nanos(Some(123_456_789)), 123_456_789);
    assert_eq!(seed_from_nanos(Some(0)), 0);
    assert_eq!(seed_from_nanos(None), 42);
}

#[test]
fn error_arithmetic_overflow() {
    let mut t = AVLTree::new();
    let (r, out) = run_avl("i 4294967296*4294967296", &mut t);
    assert_eq!(r, Err(LangError::ArithmeticOverflow));
    assert!(out.is_empty());
    assert!(t.is_empty());
    assert_eq!(err("i 9223372036854775807+1"), LangError::ArithmeticOverflow);
    assert_eq!(err("i 0-9223372036854775807-2"), LangError::ArithmeticOverflow);
    assert_eq!(err("r h t 3037000500*3037000500"), LangError::ArithmeticOverflow);
}

#[test]
fn largest_values_do_not_overflow() {
    assert_eq!(
        fresh("i 9223372036854775807-9223372036854775807+7").1[0],
        Event::InsertBatch(vec![7])
    );
}

#[test]
fn rang_ends_when_the_next_step_passes_the_bound() {
    assert_eq!(
        fresh("i rang 5 9223372036854775807 9223372036854775807").1[0],
        Event::InsertBatch(vec![5])
    );
    assert_eq!(
        fresh("i rang 4294967295 9223372036854775807 9223372036854775807").1[0],
        Event::InsertBatch(vec![4294967295])
    );
}

#[test]
fn error_negative_rand_count() {
    assert_eq!(err("i rand 1 5 0-3"), LangError::NegativeCount(-3));
    assert_eq!(err("i rand 5 1 0-3"), LangError::RandMinAboveMax(5, 1));
    assert_eq!(fresh("i rand 1 5 0").1[0], Event::InsertBatch(vec![]));
}

#[test]
fn lexing_lines_joined_by_a_space() {
    for (a, b) in [("i 1", "2 h"), ("r", "rand 3*n1"), ("", "p"), ("i12", "h"), ("q", "")] {
        let joined = format!("{} {}", a, b);
        let expected = match (tokenize(a), tokenize(b)) {
            (Ok(mut x), Ok(y)) => {
                x.extend(y);
                Ok(x)
            }
            (Err(e), _) => Err(e),
            (Ok(_), Err(e)) => Err(e),
        };
        assert_eq!(tokenize(&joined), expected, "{:?}", joined);
    }
}
