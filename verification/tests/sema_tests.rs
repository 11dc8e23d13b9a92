use eggshell::ast::annotations::Annotations;
use eggshell::ast::ast::Ast;
use eggshell::ast::ast::AstNode;
use eggshell::ast::test_utils::example_ast;
use eggshell::context::context_manager::ContextManager;
use eggshell::grammar::Symbol;
use eggshell::sema::annotate_ast;
use eggshell::sema::errors::Error;
use eggshell::sema::memory::label_dont_discard;
use eggshell::sema::memory::label_mem_id;
use eggshell::sema::types::label_type;
use eggshell::types::add_standard_composite_types;

fn node(symbol: Symbol, children: Vec<usize>, token: Option<usize>) -> AstNode {
    AstNode { symbol, children, token, annotations: Annotations::new() }
}

fn standard() -> ContextManager {
    let mut ctx = ContextManager::new();
    add_standard_composite_types(&mut ctx).unwrap();
    ctx
}

fn out_of_bounds() -> Error {
    Error::AstError(eggshell::ast::errors::Error::ParserTreeNodeOutOfBounds)
}

#[test]
fn annotate_labels_every_node_of_the_example() {
    let mut ast = example_ast();
    let ctx = standard();
    assert_eq!(annotate_ast(&mut ast, &ctx), Ok(()));
    let before = example_ast();
    for (i, n) in ast.nodes.iter().enumerate() {
        assert_eq!(n.symbol, before.nodes[i].symbol);
        assert_eq!(n.children, before.nodes[i].children);
        assert_eq!(n.token, before.nodes[i].token);
        assert_eq!(n.annotations.mem_id, Some(i));
        let expected_type = match n.symbol {
            Symbol::Program => None,
            Symbol::Lexeme => Some(0),
            _ => Some(2),
        };
        assert_eq!(n.annotations.type_id, expected_type);
    }
    // read: the children of chains, executions and redirect targets, and the
    // second child of pipes and redirections
    let read: Vec<usize> = ast
        .nodes
        .iter()
        .enumerate()
        .filter(|(_, n)| !n.annotations.discard)
        .map(|(i, _)| i)
        .collect();
    assert_eq!(read, vec![2, 3, 4, 5, 7, 8, 9, 10, 12, 13, 14, 15, 17, 18, 20, 21, 22, 23, 25, 26]);
}

#[test]
fn annotate_stops_at_the_first_error() {
    let mut ast = Ast {
        nodes: vec![
            node(Symbol::Program, vec![1, 2], None),
            node(Symbol::Exec, vec![], None),
            node(Symbol::Lexeme, vec![], Some(0)),
        ],
    };
    // without the standard types `Result` is not known
    let ctx = ContextManager::new();
    let r = annotate_ast(&mut ast, &ctx);
    assert_eq!(
        r,
        Err(Error::ContextError(
            eggshell::context::errors::Error::ContextManagerMissingRequiredDataTypeID(
                "Result".to_string()
            )
        ))
    );
    assert_eq!(ast.nodes[1].annotations.mem_id, Some(1));
    assert_eq!(ast.nodes[1].annotations.type_id, None);
    assert_eq!(ast.nodes[2].annotations.mem_id, None);
    assert_eq!(ast.nodes[0].annotations.mem_id, None);
}

#[test]
fn placeholders_are_refused() {
    let mut ast = Ast { nodes: vec![node(Symbol::_Placeholder, vec![], None)] };
    assert_eq!(label_dont_discard(0, &mut ast), Err(Error::ReceivedPlaceholderSymbol));
    assert_eq!(label_type(0, &mut ast, &standard()), Err(Error::ReceivedPlaceholderSymbol));
    assert_eq!(annotate_ast(&mut ast, &standard()), Err(Error::ReceivedPlaceholderSymbol));
    assert_eq!(ast.nodes[0].annotations.mem_id, Some(0));
}

#[test]
fn label_mem_id_sets_the_position() {
    let mut ast = example_ast();
    assert_eq!(label_mem_id(5, &mut ast), Ok(()));
    assert_eq!(ast.nodes[5].annotations.mem_id, Some(5));
    assert_eq!(ast.nodes[4].annotations.mem_id, None);
    assert_eq!(label_mem_id(27, &mut ast), Err(out_of_bounds()));
}

#[test]
fn pipes_and_redirections_read_their_second_child() {
    let mut ast = example_ast();
    assert_eq!(label_dont_discard(5, &mut ast), Ok(()));
    assert!(ast.nodes[6].annotations.discard);
    assert!(!ast.nodes[7].annotations.discard);
    assert_eq!(label_dont_discard(15, &mut ast), Ok(()));
    assert!(ast.nodes[16].annotations.discard);
    assert!(!ast.nodes[17].annotations.discard);
    let mut short = Ast {
        nodes: vec![node(Symbol::PipeExec, vec![1], None), node(Symbol::Lexeme, vec![], Some(0))],
    };
    assert_eq!(
        label_dont_discard(0, &mut short),
        Err(Error::AstNodeMissingExpectedChildren(Symbol::PipeExec))
    );
    assert!(short.nodes[1].annotations.discard);
}

#[test]
fn programs_and_leaves_read_nothing() {
    let mut ast = example_ast();
    assert_eq!(label_dont_discard(0, &mut ast), Ok(()));
    assert_eq!(label_dont_discard(3, &mut ast), Ok(()));
    assert!(ast.nodes.iter().all(|n| n.annotations.discard));
    assert_eq!(label_dont_discard(99, &mut ast), Err(out_of_bounds()));
}

#[test]
fn marking_children_stops_at_one_that_is_missing() {
    let mut ast = Ast {
        nodes: vec![
            node(Symbol::Exec, vec![1, 7, 2], None),
            node(Symbol::Lexeme, vec![], Some(0)),
            node(Symbol::Lexeme, vec![], Some(1)),
        ],
    };
    assert_eq!(label_dont_discard(0, &mut ast), Err(out_of_bounds()));
    assert!(!ast.nodes[1].annotations.discard);
    assert!(ast.nodes[2].annotations.discard);
    let mut pipe = Ast {
        nodes: vec![node(Symbol::RedirectExec, vec![1, 9], None), node(Symbol::Lexeme, vec![], Some(0))],
    };
    assert_eq!(label_dont_discard(0, &mut pipe), Err(out_of_bounds()));
}

#[test]
fn label_type_by_symbol() {
    let ctx = standard();
    let mut ast = example_ast();
    assert_eq!(label_type(0, &mut ast, &ctx), Ok(()));
    assert_eq!(ast.nodes[0].annotations.type_id, None);
    assert_eq!(label_type(1, &mut ast, &ctx), Ok(()));
    assert_eq!(ast.nodes[1].annotations.type_id, Some(2));
    assert_eq!(label_type(3, &mut ast, &ctx), Ok(()));
    assert_eq!(ast.nodes[3].annotations.type_id, Some(0));
    assert_eq!(label_type(27, &mut ast, &ctx), Err(out_of_bounds()));
}
