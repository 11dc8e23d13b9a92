use eggshell::ast::annotations::Annotations;
use eggshell::ast::ast::Ast;
use eggshell::ast::ast::AstNode;
use eggshell::ast::errors::Error;
use eggshell::ast::iterators::PostOrderAstIterator;
use eggshell::ast::test_utils::example_ast;
use eggshell::grammar::Lexeme;
use eggshell::grammar::Symbol;
use eggshell::source::location::Span;
use eggshell::source::source_manager::SourceManager;
use eggshell::source::token::Token;
use eggshell::testutils::utils::assert_vecs_equal;

fn node(symbol: Symbol, children: Vec<usize>, token: Option<usize>) -> AstNode {
    AstNode { symbol, children, token, annotations: Annotations::new() }
}

fn single(symbol: Symbol) -> Ast {
    Ast { nodes: vec![node(symbol, vec![], None)] }
}

fn children_of(ast: &Ast, i: usize) -> Vec<usize> {
    ast.nodes[i].children.clone()
}

#[test]
fn test_postorder() {
    let ast = example_ast();

    let expected_postorder: Vec<usize> = Vec::from([
        3, 4, 2, 6, 9, 8, 11, 14, 13, 16, 18, 17, 15, 12, 10, 7, 5, 1, 21, 22, 20, 24, 26, 25, 23,
        19, 0,
    ]);
    let postorder: Vec<usize> = PostOrderAstIterator::new(&ast).collect();
    assert!(assert_vecs_equal(&expected_postorder, &postorder).is_ok());
    assert_eq!(expected_postorder, postorder);
}

#[test]
fn postorder_holds_each_node_once_and_descendants_first() {
    let ast = example_ast();
    let order: Vec<usize> = ast.postorder().collect();
    assert_eq!(order.len(), ast.nodes.len());
    let mut place: Vec<usize> = vec![usize::MAX; ast.nodes.len()];
    for (at, n) in order.iter().enumerate() {
        assert_eq!(place[*n], usize::MAX);
        place[*n] = at;
    }
    for (p, parent) in ast.nodes.iter().enumerate() {
        for c in parent.children.iter() {
            assert!(place[*c] < place[p]);
        }
    }
}

#[test]
fn postorder_next_yields_in_order_then_none() {
    let mut tree = single(Symbol::Program);
    tree = tree.add_child(node(Symbol::Lexeme, vec![], Some(0))).unwrap();
    tree = tree.add_child(node(Symbol::Lexeme, vec![], Some(1))).unwrap();
    let mut walk = PostOrderAstIterator::new(&tree);
    assert_eq!(walk.next(), Some(1));
    assert_eq!(walk.next(), Some(2));
    assert_eq!(walk.next(), Some(0));
    assert_eq!(walk.next(), None);
    assert_eq!(walk.next(), None);
}

#[test]
fn postorder_of_a_single_node() {
    let tree = single(Symbol::Program);
    let order: Vec<usize> = tree.postorder().collect();
    assert_eq!(order, vec![0]);
}

#[test]
fn example_ast_has_27_nodes_under_a_program() {
    let ast = example_ast();
    assert_eq!(ast.nodes.len(), 27);
    assert_eq!(ast.nodes[0].symbol, Symbol::Program);
    assert_eq!(children_of(&ast, 0), vec![1, 19]);
    assert_eq!(ast.nodes[26].token, Some(12));
}

#[test]
fn annotations_start_discarded_and_unlabelled() {
    let a = Annotations::new();
    assert_eq!(a.mem_id, None);
    assert!(a.discard);
    assert_eq!(a.type_id, None);
}

#[test]
fn get_root_of_empty_tree_fails() {
    let mut empty = Ast { nodes: vec![] };
    assert!(matches!(empty.get_root(), Err(Error::ParserTreeHasNoRootNode)));
    assert!(matches!(empty.get_root_mut(), Err(Error::ParserTreeHasNoRootNode)));
}

#[test]
fn get_root_returns_node_zero() {
    let mut tree = single(Symbol::Exec);
    assert_eq!(tree.get_root().unwrap().symbol, Symbol::Exec);
    tree.get_root_mut().unwrap().symbol = Symbol::Program;
    assert_eq!(tree.nodes[0].symbol, Symbol::Program);
}

#[test]
fn get_node_out_of_bounds_fails() {
    let mut tree = single(Symbol::Exec);
    assert!(matches!(tree.get_node(1), Err(Error::ParserTreeNodeOutOfBounds)));
    assert!(matches!(tree.get_node_mut(7), Err(Error::ParserTreeNodeOutOfBounds)));
    assert_eq!(tree.get_node(0).unwrap().symbol, Symbol::Exec);
    tree.get_node_mut(0).unwrap().token = Some(4);
    assert_eq!(tree.nodes[0].token, Some(4));
}

#[test]
fn add_child_appends_node_under_root() {
    let tree = single(Symbol::Exec).add_child(node(Symbol::Lexeme, vec![], Some(3))).unwrap();
    assert_eq!(tree.nodes.len(), 2);
    assert_eq!(children_of(&tree, 0), vec![1]);
    assert_eq!(tree.nodes[1].token, Some(3));
    let empty = Ast { nodes: vec![] };
    assert!(matches!(
        empty.add_child(node(Symbol::Lexeme, vec![], None)),
        Err(Error::ParserTreeHasNoRootNode)
    ));
}

#[test]
fn hang_child_renumbers_the_child_tree() {
    let parent = single(Symbol::Program).add_child(node(Symbol::Lexeme, vec![], Some(0))).unwrap();
    let child = single(Symbol::Exec)
        .add_child(node(Symbol::Lexeme, vec![], Some(1)))
        .unwrap()
        .add_child(node(Symbol::Lexeme, vec![], Some(2)))
        .unwrap();
    let tree = parent.hang_child(child).unwrap();
    assert_eq!(tree.nodes.len(), 5);
    assert_eq!(children_of(&tree, 0), vec![1, 2]);
    assert_eq!(tree.nodes[2].symbol, Symbol::Exec);
    assert_eq!(children_of(&tree, 2), vec![3, 4]);
    assert_eq!(tree.nodes[3].token, Some(1));
    assert_eq!(tree.nodes[4].token, Some(2));
}

#[test]
fn hang_child_refuses_a_placeholder_root() {
    let r = single(Symbol::Program).hang_child(single(Symbol::_Placeholder));
    assert!(matches!(r, Err(Error::ParserReceivedPlaceholder)));
}

#[test]
fn hang_child_needs_both_roots() {
    let r = single(Symbol::Program).hang_child(Ast { nodes: vec![] });
    assert!(matches!(r, Err(Error::ParserTreeHasNoRootNode)));
    let r = Ast { nodes: vec![] }.hang_child(single(Symbol::Exec));
    assert!(matches!(r, Err(Error::ParserTreeHasNoRootNode)));
}

#[test]
fn hang_from_placeholder_splices_the_children() {
    let parent = single(Symbol::_Placeholder)
        .add_child(node(Symbol::Lexeme, vec![], Some(0)))
        .unwrap();
    let inner = single(Symbol::Exec).add_child(node(Symbol::Lexeme, vec![], Some(1))).unwrap();
    let child = single(Symbol::_Placeholder)
        .hang_child(inner)
        .unwrap()
        .add_child(node(Symbol::Lexeme, vec![], Some(2)))
        .unwrap();
    // child: 0 placeholder [1, 3], 1 Exec [2], 2 leaf, 3 leaf
    let tree = parent.hang_from_placeholder(child).unwrap();
    assert_eq!(tree.nodes.len(), 5);
    assert_eq!(children_of(&tree, 0), vec![1, 2, 4]);
    assert_eq!(tree.nodes[2].symbol, Symbol::Exec);
    assert_eq!(children_of(&tree, 2), vec![3]);
    assert_eq!(tree.nodes[3].token, Some(1));
    assert_eq!(tree.nodes[4].token, Some(2));
}

#[test]
fn hang_from_placeholder_of_an_empty_placeholder_changes_nothing() {
    let parent = single(Symbol::_Placeholder)
        .add_child(node(Symbol::Lexeme, vec![], Some(0)))
        .unwrap();
    let tree = parent.hang_from_placeholder(single(Symbol::_Placeholder)).unwrap();
    assert_eq!(tree.nodes.len(), 2);
    assert_eq!(children_of(&tree, 0), vec![1]);
}

#[test]
fn hang_from_placeholder_expects_a_placeholder_root() {
    let r = single(Symbol::_Placeholder).hang_from_placeholder(single(Symbol::Exec));
    assert!(matches!(r, Err(Error::ParserExpectedPlaceholder)));
    let r = single(Symbol::_Placeholder).hang_from_placeholder(Ast { nodes: vec![] });
    assert!(matches!(r, Err(Error::ParserTreeHasNoRootNode)));
    let r = Ast { nodes: vec![] }.hang_from_placeholder(single(Symbol::_Placeholder));
    assert!(matches!(r, Err(Error::ParserTreeHasNoRootNode)));
}

fn one_file(text: &str) -> SourceManager {
    let mut sources = SourceManager::new();
    sources.load_file(text.to_string());
    sources
}

fn token(lexeme: Lexeme, start: usize, end: usize) -> Token {
    Token { lexeme, location: Span { file_id: 0, start, end } }
}

#[test]
fn to_string_shows_symbols_and_quoted_leaves() {
    let sources = one_file("say hi\n");
    let tokens = vec![token(Lexeme::Literal, 0, 2), token(Lexeme::Literal, 4, 5)];
    let exec = single(Symbol::Exec)
        .add_child(node(Symbol::Lexeme, vec![], Some(0)))
        .unwrap()
        .add_child(node(Symbol::Lexeme, vec![], Some(1)))
        .unwrap();
    let tree = single(Symbol::Program).hang_child(exec).unwrap();
    let text = tree.to_string(&tokens, &sources).unwrap();
    assert_eq!(
        text,
        "---\n- Program:\n  - Exec:\n    - Literal:\n      - \"say\"\n    - Literal:\n      - \"hi\"\n"
    );
}

#[test]
fn to_string_of_a_childless_symbol_has_no_colon() {
    let sources = one_file("");
    let text = single(Symbol::Program).to_string(&[], &sources).unwrap();
    assert_eq!(text, "---\n- Program\n");
}

#[test]
fn to_string_twice_gives_the_same_text() {
    let sources = one_file("a a | b | c > d\nsay \"hi\" >> file_name\n");
    let tokens = vec![
        token(Lexeme::Literal, 0, 0),
        token(Lexeme::Literal, 2, 2),
        token(Lexeme::Pipe, 4, 4),
        token(Lexeme::Literal, 6, 6),
        token(Lexeme::Pipe, 8, 8),
        token(Lexeme::Literal, 10, 10),
        token(Lexeme::Redirect, 12, 12),
        token(Lexeme::Literal, 14, 14),
        token(Lexeme::LineEnd, 15, 15),
        token(Lexeme::Literal, 16, 18),
        token(Lexeme::Literal, 20, 23),
        token(Lexeme::RedirectAppend, 25, 26),
        token(Lexeme::Literal, 28, 36),
        token(Lexeme::LineEnd, 37, 37),
    ];
    let ast = example_ast();
    let first = ast.to_string(&tokens, &sources).unwrap();
    let second = ast.to_string(&tokens, &sources).unwrap();
    assert_eq!(first.as_bytes(), second.as_bytes());
    assert!(first.starts_with("---\n- Program:\n  - ExecChain:\n    - Exec:\n      - Literal:\n        - \"a\"\n"));
    assert!(first.ends_with("      - RedirectTarget:\n        - Literal:\n          - \"file_name\"\n"));
    assert!(first.contains("- \"\\\"hi\\\"\"\n"));
}

#[test]
fn to_string_reports_the_first_fault_in_order() {
    let sources = one_file("a\n");
    let tokens = vec![token(Lexeme::Literal, 0, 0)];
    let empty = Ast { nodes: vec![] };
    assert!(matches!(empty.to_string(&tokens, &sources), Err(Error::ParserTreeNodeOutOfBounds)));
    let dangling = Ast { nodes: vec![node(Symbol::Program, vec![5], None)] };
    assert!(matches!(dangling.to_string(&tokens, &sources), Err(Error::ParserTreeNodeOutOfBounds)));
    let no_token = Ast { nodes: vec![node(Symbol::Lexeme, vec![], None)] };
    assert!(matches!(
        no_token.to_string(&tokens, &sources),
        Err(Error::ParserLexemeNodeMissingToken)
    ));
    let bad_token = Ast { nodes: vec![node(Symbol::Lexeme, vec![], Some(3))] };
    assert!(matches!(bad_token.to_string(&tokens, &sources), Err(Error::ParserTokenOutOfBounds)));
    let elsewhere = vec![Token {
        lexeme: Lexeme::Literal,
        location: Span { file_id: 9, start: 0, end: 0 },
    }];
    let leaf = Ast { nodes: vec![node(Symbol::Lexeme, vec![], Some(0))] };
    assert!(matches!(
        leaf.to_string(&elsewhere, &sources),
        Err(Error::SourceError(eggshell::source::errors::Error::SpanOutOfBounds(_)))
    ));
    let two_faults = Ast {
        nodes: vec![
            node(Symbol::Program, vec![1, 2], None),
            node(Symbol::Lexeme, vec![], None),
            node(Symbol::Lexeme, vec![], Some(3)),
        ],
    };
    assert!(matches!(
        two_faults.to_string(&tokens, &sources),
        Err(Error::ParserLexemeNodeMissingToken)
    ));
}
