use sexp_tree::parse::{parse, Expr, ParseTree};
use sexp_tree::tokenise::tokenise;

fn inline(text: &str) -> String {
    parse(tokenise(text)).stringify().render()
}

fn is_str(e: &Expr, want: &str) -> bool {
    matches!(e, Expr::String(s) if *s == want)
}

fn is_int(e: &Expr, want: i64) -> bool {
    matches!(e, Expr::Int(v) if *v == want)
}

fn same_tree(a: &ParseTree, b: &ParseTree) -> bool {
    if a.roots() != b.roots() || a.node_count() != b.node_count() {
        return false;
    }
    (0..a.node_count()).all(|i| match (a.node(i), b.node(i)) {
        (Expr::Int(x), Expr::Int(y)) => x == y,
        (Expr::String(x), Expr::String(y)) => x == y,
        (x @ Expr::SExpr(_), y @ Expr::SExpr(_)) => x.children() == y.children(),
        _ => false,
    })
}

#[test]
fn single_integer_is_one_int_root() {
    let tree = parse(tokenise("42"));
    assert_eq!(tree.roots(), &vec![0]);
    assert_eq!(tree.node_count(), 1);
    assert!(is_int(tree.node(0), 42));
}

#[test]
fn signed_integers() {
    let tree = parse(tokenise("-7 5 007 -0"));
    assert_eq!(tree.roots(), &vec![0, 1, 2, 3]);
    assert!(is_int(tree.node(0), -7));
    assert!(is_int(tree.node(1), 5));
    assert!(is_int(tree.node(2), 7));
    assert!(is_int(tree.node(3), 0));
}

#[test]
fn leading_plus_makes_a_string() {
    let tree = parse(tokenise("+5"));
    assert_eq!(tree.roots(), &vec![0]);
    assert_eq!(tree.node_count(), 1);
    assert!(is_str(tree.node(0), "+5"));
    let more = parse(tokenise("(+0 +9223372036854775807 +-1 ++1)"));
    for (i, want) in ["+0", "+9223372036854775807", "+-1", "++1"].iter().enumerate() {
        assert!(is_str(more.node(i + 1), want));
    }
    assert_eq!(more.stringify().render(), "(+0 +9223372036854775807 +-1 ++1)");
}

#[test]
fn integer_range_ends() {
    let tree = parse(tokenise("9223372036854775807 -9223372036854775808 9223372036854775808 -9223372036854775809"));
    assert!(is_int(tree.node(0), i64::MAX));
    assert!(is_int(tree.node(1), i64::MIN));
    assert!(is_str(tree.node(2), "9223372036854775808"));
    assert!(is_str(tree.node(3), "-9223372036854775809"));
}

#[test]
fn overflowing_literal_stays_a_string() {
    let tree = parse(tokenise("99999999999999999999"));
    assert_eq!(tree.roots(), &vec![0]);
    assert!(is_str(tree.node(0), "99999999999999999999"));
    assert_eq!(tree.stringify().render(), "99999999999999999999");
}

#[test]
fn near_integers_are_strings() {
    let tree = parse(tokenise("- + 1_000 12a 0x10 1.5 --1 ٣"));
    for (i, want) in ["-", "+", "1_000", "12a", "0x10", "1.5", "--1", "٣"].iter().enumerate() {
        assert!(is_str(tree.node(i), want));
    }
}

#[test]
fn nested_list_structure() {
    let tree = parse(tokenise("(a b (c 1))"));
    assert_eq!(tree.roots(), &vec![0]);
    assert_eq!(tree.node_count(), 6);
    assert!(matches!(tree.node(0), Expr::SExpr(_)));
    assert_eq!(tree.node(0).children(), vec![1, 2, 3]);
    assert!(is_str(tree.node(1), "a"));
    assert!(is_str(tree.node(2), "b"));
    assert!(matches!(tree.node(3), Expr::SExpr(_)));
    assert_eq!(tree.node(3).children(), vec![4, 5]);
    assert!(is_str(tree.node(4), "c"));
    assert!(is_int(tree.node(5), 1));
    assert_eq!(tree.stringify().render(), "(a b (c 1))");
}

#[test]
fn leaves_have_no_children() {
    let tree = parse(tokenise("a 1"));
    assert_eq!(tree.node(0).children(), vec![]);
    assert_eq!(tree.node(1).children(), vec![]);
}

#[test]
fn extra_closing_parenthesis_is_skipped() {
    let tree = parse(tokenise("(a))"));
    assert_eq!(tree.roots(), &vec![0]);
    assert_eq!(tree.node_count(), 2);
    assert_eq!(tree.stringify().render(), "(a)");
}

#[test]
fn closing_parenthesis_first_is_skipped() {
    let tree = parse(tokenise(") a ) (b)"));
    assert_eq!(tree.roots(), &vec![0, 1]);
    assert_eq!(tree.stringify().render(), "a(b)");
}

#[test]
fn open_lists_keep_their_children() {
    let tree = parse(tokenise("(a (b"));
    assert_eq!(tree.roots(), &vec![0]);
    assert_eq!(tree.node(0).children(), vec![1, 2]);
    assert_eq!(tree.node(2).children(), vec![3]);
    assert!(is_str(tree.node(3), "b"));
    assert_eq!(tree.stringify().render(), "(a (b))");
}

#[test]
fn empty_input_is_an_empty_tree() {
    let tree = parse(tokenise("   "));
    assert_eq!(tree.node_count(), 0);
    assert_eq!(tree.roots(), &Vec::<u32>::new());
    assert_eq!(tree.stringify().render(), "");
    assert_eq!(tree.diagram(), "");
}

#[test]
fn roots_are_rendered_without_separator() {
    assert_eq!(inline("(a) (b)"), "(a)(b)");
    assert_eq!(inline("a (b) c"), "a(b)c");
    assert_eq!(inline("1 2"), "12");
    assert_eq!(inline("()"), "()");
    assert_eq!(inline("(() ())"), "(() ())");
}

#[test]
fn integers_are_rendered_in_decimal() {
    assert_eq!(inline("(+5 -0 007 -12 0)"), "(+5 0 7 -12 0)");
    assert_eq!(
        inline("(9223372036854775807 -9223372036854775808 10 100 109)"),
        "(9223372036854775807 -9223372036854775808 10 100 109)"
    );
}

#[test]
fn more_than_eight_children() {
    let tree = parse(tokenise("(a b c d e f g h i j k)"));
    assert_eq!(tree.node(0).children(), (1..=11).collect::<Vec<u32>>());
    assert_eq!(tree.stringify().render(), "(a b c d e f g h i j k)");
}

#[test]
fn new_and_parse_agree() {
    let text = "(a (b 2) c) d";
    assert!(same_tree(&ParseTree::new(tokenise(text)), &parse(tokenise(text))));
}

#[test]
fn rebuilding_a_rendered_tree_gives_the_same_tree() {
    for text in ["(a b (c 1))", "(+5 (007) -3)(x)", "((())) (a) b (c)", "(λ (→ 1) 99999999999999999999)", "x"] {
        let tree = parse(tokenise(text));
        let rendered = tree.stringify().render();
        let again = parse(tokenise(&rendered));
        assert!(same_tree(&tree, &again));
        assert_eq!(again.stringify().render(), rendered);
    }
}

#[test]
fn adjacent_literal_roots_merge_when_rendered() {
    let tree = parse(tokenise("a b"));
    let rendered = tree.stringify().render();
    assert_eq!(rendered, "ab");
    assert!(!same_tree(&tree, &parse(tokenise(&rendered))));
}

#[test]
fn inline_bytes_match_the_text() {
    let tree = parse(tokenise("(é 1)"));
    assert_eq!(tree.stringify().render_bytes(), "(é 1)".as_bytes().to_vec());
}

#[test]
fn diagram_of_leaves() {
    assert_eq!(parse(tokenise("42")).diagram(), "42\n");
    assert_eq!(parse(tokenise("a -1")).diagram(), "a\n-1\n");
}

#[test]
fn diagram_of_a_flat_list() {
    assert_eq!(parse(tokenise("(a b c)")).diagram(), "List\n├─a\n├─b\n└─c\n");
    assert_eq!(parse(tokenise("()")).diagram(), "List\n");
}

#[test]
fn diagram_of_nested_lists() {
    assert_eq!(
        parse(tokenise("(a b (c 1))")).diagram(),
        "List\n├─a\n├─b\n└─List\n  ├─c\n  └─1\n"
    );
    assert_eq!(
        parse(tokenise("((a (b c)) d)")).diagram(),
        "List\n├─List\n│ ├─a\n│ └─List\n│   ├─b\n│   └─c\n└─d\n"
    );
    assert_eq!(
        parse(tokenise("(((x) y) z)(w)")).diagram(),
        "List\n├─List\n│ ├─List\n│ │ └─x\n│ └─y\n└─z\nList\n└─w\n"
    );
}

#[test]
fn diagram_bytes_match_the_text() {
    let tree = parse(tokenise("(a (b))"));
    assert_eq!(tree.diagram_bytes(), tree.diagram().into_bytes());
    assert_eq!(tree.diagram(), "List\n├─a\n└─List\n  └─b\n");
}

#[test]
fn lone_parentheses() {
    let closing = parse(tokenise(")"));
    assert_eq!(closing.node_count(), 0);
    assert_eq!(closing.stringify().render(), "");
    let opening = parse(tokenise("("));
    assert_eq!(opening.node_count(), 1);
    assert_eq!(opening.roots(), &vec![0]);
    assert_eq!(opening.node(0).children(), vec![]);
    assert_eq!(opening.stringify().render(), "()");
    assert_eq!(opening.diagram(), "List\n");
}

#[test]
fn deep_nesting() {
    let depth = 300;
    let text = format!("{}x{}", "(".repeat(depth), ")".repeat(depth));
    let tree = parse(tokenise(&text));
    assert_eq!(tree.node_count(), depth + 1);
    assert_eq!(tree.roots(), &vec![0]);
    for i in 0..depth {
        assert_eq!(tree.node(i).children(), vec![i as u32 + 1]);
    }
    assert_eq!(tree.stringify().render(), text);
}

#[test]
fn children_stand_after_their_parent() {
    let tree = parse(tokenise("(a (b (c) d) ((e)) f) g (h"));
    for r in tree.roots() {
        assert!((*r as usize) < tree.node_count());
    }
    for i in 0..tree.node_count() {
        for c in tree.node(i).children() {
            assert!(i < c as usize && (c as usize) < tree.node_count());
        }
    }
}

#[test]
fn arena_is_in_source_order() {
    let tree = parse(tokenise("x (y 2) z"));
    assert_eq!(tree.roots(), &vec![0, 1, 4]);
    assert!(is_str(tree.node(0), "x"));
    assert_eq!(tree.node(1).children(), vec![2, 3]);
    assert!(is_str(tree.node(2), "y"));
    assert!(is_int(tree.node(3), 2));
    assert!(is_str(tree.node(4), "z"));
}

#[test]
fn diagram_of_unbalanced_input() {
    assert_eq!(parse(tokenise("(a (b")).diagram(), "List\n├─a\n└─List\n  └─b\n");
    assert_eq!(parse(tokenise("(a))")).diagram(), "List\n└─a\n");
}

#[test]
fn diagram_shows_values_not_spellings() {
    assert_eq!(parse(tokenise("(+5 007 -08 é)")).diagram(), "List\n├─+5\n├─7\n├─-8\n└─é\n");
}

#[test]
fn both_renderers_agree_on_one_expression() {
    for text in ["(a b (c 1))", " ( x ( y ( ) ) -07 ) ", "solo", "()", "((λ) 99999999999999999999 +1)"] {
        let tokens = tokenise(text);
        let tree = parse(tokenise(text));
        let from_tree = tree.stringify().render();
        let respelled = tokenise(&from_tree).stringify().render();
        assert_eq!(from_tree, respelled);
        assert_eq!(
            tokenise(&tokens.stringify().render()).stringify().render(),
            tokens.stringify().render()
        );
    }
    assert_eq!(parse(tokenise("(a  b)")).stringify().render(), tokenise("(a  b)").stringify().render());
    assert_eq!(parse(tokenise("(a)(b)")).stringify().render(), "(a)(b)");
    assert_eq!(tokenise("(a)(b)").stringify().render(), "(a) (b)");
}
