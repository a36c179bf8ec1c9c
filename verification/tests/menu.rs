use moneymaker::avl::AVLTree;
use moneymaker::draw::{DrawRow, Mark};
use moneymaker::menu::{menu_step, parse_u32, MenuOutcome};
use moneymaker::rbt::{Color, RedBlackTree};

#[test]
fn parse_u32_accepts_trimmed_decimal() {
    assert_eq!(parse_u32(Some("42")), Some(42));
    assert_eq!(parse_u32(Some("  42\t")), Some(42));
    assert_eq!(parse_u32(Some("+7")), Some(7));
    assert_eq!(parse_u32(Some("0042")), Some(42));
    assert_eq!(parse_u32(Some("4294967295")), Some(u32::MAX));
    assert_eq!(parse_u32(Some("\u{A0}5\u{3000}")), Some(5));
}

#[test]
fn parse_u32_rejects_everything_else() {
    assert_eq!(parse_u32(None), None);
    assert_eq!(parse_u32(Some("")), None);
    assert_eq!(parse_u32(Some("   ")), None);
    assert_eq!(parse_u32(Some("+")), None);
    assert_eq!(parse_u32(Some("-1")), None);
    assert_eq!(parse_u32(Some("4294967296")), None);
    assert_eq!(parse_u32(Some("99999999999999999999999")), None);
    assert_eq!(parse_u32(Some("1 2")), None);
    assert_eq!(parse_u32(Some("12a")), None);
    assert_eq!(parse_u32(Some("\u{663}")), None);
}

#[test]
fn parse_u32_agrees_with_str_parse() {
    for s in ["0", "7", " 8 ", "+9", "++9", "-0", "00", "4294967295", "4294967296", "x", "", "1_0"] {
        assert_eq!(parse_u32(Some(s)), s.trim().parse::<u32>().ok(), "{:?}", s);
    }
}

#[test]
fn menu_insert_delete_search() {
    let mut t = AVLTree::new();
    assert_eq!(menu_step("i 5", &mut t), MenuOutcome::Inserted(5));
    assert_eq!(menu_step("  i   7  ", &mut t), MenuOutcome::Inserted(7));
    assert_eq!(t.inorder(), vec![5, 7]);
    assert_eq!(menu_step("s 5", &mut t), MenuOutcome::Found(5, true));
    assert_eq!(menu_step("s 6", &mut t), MenuOutcome::Found(6, false));
    assert_eq!(menu_step("d 5", &mut t), MenuOutcome::Deleted(5));
    assert_eq!(menu_step("d 5", &mut t), MenuOutcome::NotFound(5));
    assert_eq!(t.inorder(), vec![7]);
}

#[test]
fn menu_usage_without_a_number() {
    let mut t = AVLTree::new();
    assert_eq!(menu_step("i", &mut t), MenuOutcome::Usage('i'));
    assert_eq!(menu_step("d x", &mut t), MenuOutcome::Usage('d'));
    assert_eq!(menu_step("s -3", &mut t), MenuOutcome::Usage('s'));
    assert_eq!(menu_step("i 4294967296", &mut t), MenuOutcome::Usage('i'));
    assert!(t.is_empty());
}

#[test]
fn menu_queries() {
    let mut t = RedBlackTree::new();
    assert_eq!(menu_step("e", &mut t), MenuOutcome::Empty(true));
    for k in ["i 2", "i 1", "i 3"] {
        menu_step(k, &mut t);
    }
    assert_eq!(menu_step("l", &mut t), MenuOutcome::Leaves(2));
    assert_eq!(menu_step("l whatever", &mut t), MenuOutcome::Leaves(2));
    assert_eq!(menu_step("h", &mut t), MenuOutcome::Height(2));
    assert_eq!(menu_step("e", &mut t), MenuOutcome::Empty(false));
    assert_eq!(menu_step("o", &mut t), MenuOutcome::Inorder(vec![1, 2, 3]));
    assert_eq!(
        menu_step("p", &mut t),
        MenuOutcome::Print(vec![
            DrawRow { key: 3, mark: Mark::Color(Color::Red), path: vec![false, false] },
            DrawRow { key: 2, mark: Mark::Color(Color::Black), path: vec![false] },
            DrawRow { key: 1, mark: Mark::Color(Color::Red), path: vec![false, true] },
        ])
    );
}

#[test]
fn menu_back_and_unknown() {
    let mut t = AVLTree::new();
    assert_eq!(menu_step("b", &mut t), MenuOutcome::Back);
    assert_eq!(menu_step("  b  ", &mut t), MenuOutcome::Back);
    assert_eq!(menu_step("x", &mut t), MenuOutcome::Unknown);
    assert_eq!(menu_step("", &mut t), MenuOutcome::Unknown);
    assert_eq!(menu_step("ii 5", &mut t), MenuOutcome::Unknown);
    assert_eq!(menu_step("I 5", &mut t), MenuOutcome::Unknown);
    assert!(t.is_empty());
}
