use eggshell::ast::ast::Ast;
use eggshell::grammar::Lexeme;
use eggshell::grammar::Symbol;
use eggshell::parser::errors::Error;
use eggshell::parser::lexer_util::Lexer;
use eggshell::parser::meta_parse_rule::Rule;
use eggshell::parser::parser::Parser;
use eggshell::source::location::Span;
use eggshell::source::source_manager::SourceManager;
use eggshell::source::token::Token;

fn tokens_of(kinds: &[Lexeme]) -> Vec<Token> {
    kinds
        .iter()
        .enumerate()
        .map(|(i, lexeme)| Token { lexeme: *lexeme, location: Span { file_id: 0, start: i, end: i } })
        .collect()
}

fn leaves(ast: &Ast, at: usize, out: &mut Vec<usize>) {
    let node = &ast.nodes[at];
    if let Some(t) = node.token {
        out.push(t);
    }
    for c in node.children.iter() {
        leaves(ast, *c, out);
    }
}

fn assert_is_tree_without_placeholder(ast: &Ast) {
    let mut parents: Vec<usize> = vec![0; ast.nodes.len()];
    for (p, node) in ast.nodes.iter().enumerate() {
        assert_ne!(node.symbol, Symbol::_Placeholder);
        assert_eq!(node.token.is_some(), node.symbol == Symbol::Lexeme);
        if node.token.is_some() {
            assert!(node.children.is_empty());
        }
        for c in node.children.iter() {
            assert!(*c > p && *c < ast.nodes.len());
            parents[*c] += 1;
        }
    }
    assert_eq!(parents[0], 0);
    for count in parents.iter().skip(1) {
        assert_eq!(*count, 1);
    }
}

fn single_rule(entry: Symbol, rule: Rule) -> Parser {
    Parser { rules: vec![(entry, rule)], entry }
}

#[test]
fn check_parser() {
    let mut sources = SourceManager::new();
    sources.load_file("a a | b | c > d\n".to_string());
    let file = sources.get_file(0).unwrap();
    let tokens = Lexer::new().tokenize(file).unwrap();
    let mut parser = Parser::new();
    let ast = parser.parse(&tokens).unwrap();
    let text = ast.to_string(&tokens, &sources).unwrap();
    let expected = "---
- Program:
  - ExecChain:
    - Exec:
      - Literal:
        - \"a\"
      - Literal:
        - \"a\"
    - PipeExec:
      - Pipe:
        - \"|\"
      - ExecChain:
        - Exec:
          - Literal:
            - \"b\"
        - PipeExec:
          - Pipe:
            - \"|\"
          - ExecChain:
            - Exec:
              - Literal:
                - \"c\"
            - RedirectExec:
              - Redirect:
                - \">\"
              - RedirectTarget:
                - Literal:
                  - \"d\"
";
    assert_eq!(text, expected);
}

#[test]
fn end_to_end_leaves_read_in_order() {
    let tokens = tokens_of(&[
        Lexeme::Literal,
        Lexeme::Literal,
        Lexeme::Pipe,
        Lexeme::Literal,
        Lexeme::Pipe,
        Lexeme::Literal,
        Lexeme::Redirect,
        Lexeme::Literal,
        Lexeme::LineEnd,
    ]);
    let ast = Parser::new().parse(&tokens).unwrap();
    assert_is_tree_without_placeholder(&ast);
    assert_eq!(ast.nodes[0].symbol, Symbol::Program);
    assert_eq!(ast.nodes[0].children.len(), 1);
    assert_eq!(ast.nodes[ast.nodes[0].children[0]].symbol, Symbol::ExecChain);
    let mut read: Vec<usize> = Vec::new();
    leaves(&ast, 0, &mut read);
    assert_eq!(read, vec![0, 1, 2, 3, 4, 5, 6, 7]);
    let literal_leaves: Vec<usize> =
        read.into_iter().filter(|t| tokens[*t].lexeme == Lexeme::Literal).collect();
    assert_eq!(literal_leaves, vec![0, 1, 3, 5, 7]);
    assert_eq!(ast.nodes.len(), 19);
}

#[test]
fn two_lines_parse_to_the_example_shape() {
    let tokens = tokens_of(&[
        Lexeme::Literal,
        Lexeme::Literal,
        Lexeme::Pipe,
        Lexeme::Literal,
        Lexeme::Pipe,
        Lexeme::Literal,
        Lexeme::Redirect,
        Lexeme::Literal,
        Lexeme::LineEnd,
        Lexeme::Literal,
        Lexeme::Literal,
        Lexeme::RedirectAppend,
        Lexeme::Literal,
        Lexeme::LineEnd,
    ]);
    let ast = Parser::new().parse(&tokens).unwrap();
    let example = eggshell::ast::test_utils::example_ast();
    assert_is_tree_without_placeholder(&ast);
    assert_eq!(ast.nodes.len(), example.nodes.len());
    let mut ours: Vec<usize> = Vec::new();
    leaves(&ast, 0, &mut ours);
    let mut theirs: Vec<usize> = Vec::new();
    leaves(&example, 0, &mut theirs);
    assert_eq!(ours, theirs);
    let ours: Vec<usize> = ast.postorder().collect();
    assert_eq!(ours.len(), 27);
    assert_eq!(*ours.last().unwrap(), 0);
}

#[test]
fn missing_line_end_is_an_unexpected_token_or_no_parse() {
    let tokens = tokens_of(&[Lexeme::Literal, Lexeme::Literal]);
    let r = Parser::new().parse(&tokens);
    assert!(matches!(r, Err(Error::ParserUnexpectedToken(t)) if t == tokens[0]));
    let entry = Rule::from_tok(Lexeme::Literal)
        .then_tok(Lexeme::Literal)
        .then(Rule::from_tok(Lexeme::LineEnd).plus().discard());
    let r = single_rule(Symbol::Program, entry).parse(&tokens);
    assert!(matches!(r, Err(Error::ParserCouldNotParseProgram)));
}

#[test]
fn a_match_that_stops_short_reports_the_first_token_left() {
    let tokens = tokens_of(&[Lexeme::Literal, Lexeme::Pipe, Lexeme::Literal]);
    let r = single_rule(Symbol::Program, Rule::from_tok(Lexeme::Literal)).parse(&tokens);
    assert!(matches!(r, Err(Error::ParserUnexpectedToken(t)) if t == tokens[1]));
}

#[test]
fn sequence_of_three_terminals_yields_three_siblings() {
    let tokens = tokens_of(&[Lexeme::Literal, Lexeme::Pipe, Lexeme::Redirect]);
    let entry = Rule::from_tok(Lexeme::Literal).then_tok(Lexeme::Pipe).then_tok(Lexeme::Redirect);
    let ast = single_rule(Symbol::Exec, entry).parse(&tokens).unwrap();
    assert_eq!(ast.nodes.len(), 4);
    assert_eq!(ast.nodes[0].symbol, Symbol::Exec);
    assert_eq!(ast.nodes[0].children, vec![1, 2, 3]);
    for i in 1..4 {
        assert_eq!(ast.nodes[i].symbol, Symbol::Lexeme);
        assert_eq!(ast.nodes[i].token, Some(i - 1));
        assert!(ast.nodes[i].children.is_empty());
    }
}

#[test]
fn discarded_line_ends_advance_the_head_and_add_no_node() {
    let tokens = tokens_of(&[Lexeme::Literal, Lexeme::LineEnd, Lexeme::LineEnd, Lexeme::LineEnd]);
    let entry =
        Rule::from_tok(Lexeme::Literal).then(Rule::from_tok(Lexeme::LineEnd).plus().discard());
    let ast = single_rule(Symbol::Exec, entry).parse(&tokens).unwrap();
    assert_eq!(ast.nodes.len(), 2);
    assert_eq!(ast.nodes[0].children, vec![1]);
    assert_eq!(ast.nodes[1].token, Some(0));
}

#[test]
fn empty_input_is_an_empty_program() {
    let ast = Parser::new().parse(&[]).unwrap();
    assert_eq!(ast.nodes.len(), 1);
    assert_eq!(ast.nodes[0].symbol, Symbol::Program);
    assert!(ast.nodes[0].children.is_empty());
    assert_eq!(Parser::default().entry, Symbol::Program);
}

#[test]
fn choice_is_ordered_and_not_reconsidered() {
    // (Literal | Literal Pipe) Redirect on `Literal Pipe Redirect`: the first
    // alternative wins, and the sequence then fails on the pipe.
    let choice = Rule::from_tok(Lexeme::Literal)
        .or(Rule::from_tok(Lexeme::Literal).then_tok(Lexeme::Pipe));
    let entry = choice.then_tok(Lexeme::Redirect);
    let tokens = tokens_of(&[Lexeme::Literal, Lexeme::Pipe, Lexeme::Redirect]);
    let r = single_rule(Symbol::Exec, entry).parse(&tokens);
    assert!(matches!(r, Err(Error::ParserCouldNotParseProgram)));
}

#[test]
fn optional_matches_nothing_where_its_block_fails() {
    let entry = Rule::from_tok(Lexeme::Pipe).maybe().then_tok(Lexeme::Literal);
    let parser_tokens = tokens_of(&[Lexeme::Literal]);
    let ast = single_rule(Symbol::Exec, entry).parse(&parser_tokens).unwrap();
    assert_eq!(ast.nodes.len(), 2);
    assert_eq!(ast.nodes[1].token, Some(0));
    let entry = Rule::from_tok(Lexeme::Pipe).maybe().then_tok(Lexeme::Literal);
    let both = tokens_of(&[Lexeme::Pipe, Lexeme::Literal]);
    let ast = single_rule(Symbol::Exec, entry).parse(&both).unwrap();
    assert_eq!(ast.nodes[0].children, vec![1, 2]);
}

#[test]
fn one_or_more_fails_on_no_match_and_is_greedy() {
    let none = tokens_of(&[Lexeme::Pipe]);
    let r = single_rule(Symbol::Exec, Rule::from_tok(Lexeme::Literal).plus()).parse(&none);
    assert!(matches!(r, Err(Error::ParserCouldNotParseProgram)));
    let three = tokens_of(&[Lexeme::Literal, Lexeme::Literal, Lexeme::Literal]);
    let ast =
        single_rule(Symbol::Exec, Rule::from_tok(Lexeme::Literal).plus()).parse(&three).unwrap();
    assert_eq!(ast.nodes[0].children, vec![1, 2, 3]);
    let entry = Rule::from_tok(Lexeme::Literal).star().then_tok(Lexeme::Literal);
    let r = single_rule(Symbol::Exec, entry).parse(&three);
    assert!(matches!(r, Err(Error::ParserCouldNotParseProgram)));
}

#[test]
fn one_or_more_of_a_discarded_block_counts_nothing() {
    // The repetition matches, but gathers no node, so it counts as no match.
    let tokens = tokens_of(&[Lexeme::LineEnd, Lexeme::LineEnd]);
    let entry = Rule::from_tok(Lexeme::LineEnd).discard().plus();
    let r = single_rule(Symbol::Exec, entry).parse(&tokens);
    assert!(matches!(r, Err(Error::ParserCouldNotParseProgram)));
}

#[test]
fn repetition_of_what_matches_nothing_ends() {
    let tokens = tokens_of(&[Lexeme::Literal]);
    let entry = Rule::from_tok(Lexeme::Pipe).maybe().star().then_tok(Lexeme::Literal);
    let ast = single_rule(Symbol::Exec, entry).parse(&tokens).unwrap();
    assert_eq!(ast.nodes[0].children, vec![1]);
}

#[test]
fn a_symbol_without_rule_is_an_error() {
    let tokens = tokens_of(&[Lexeme::Literal]);
    let mut no_entry = Parser { rules: vec![], entry: Symbol::Program };
    assert!(matches!(
        no_entry.parse(&tokens),
        Err(Error::ParserTriedToBuildSymbolWithNoRule(Symbol::Program))
    ));
    let r = single_rule(Symbol::Program, Rule::from_sym(Symbol::Exec)).parse(&tokens);
    assert!(matches!(r, Err(Error::ParserTriedToBuildSymbolWithNoRule(Symbol::Exec))));
}

#[test]
fn left_recursion_hits_the_recursion_limit() {
    let tokens = tokens_of(&[Lexeme::Literal]);
    let entry = Rule::from_sym(Symbol::Program).then_tok(Lexeme::Literal);
    let r = single_rule(Symbol::Program, entry).parse(&tokens);
    assert!(matches!(r, Err(Error::ParserRecursionLimit)));
}

#[test]
fn a_rule_for_the_placeholder_cannot_be_hung() {
    let tokens = tokens_of(&[Lexeme::Literal]);
    let mut parser = Parser {
        rules: vec![
            (Symbol::Program, Rule::from_sym(Symbol::_Placeholder)),
            (Symbol::_Placeholder, Rule::from_tok(Lexeme::Literal)),
        ],
        entry: Symbol::Program,
    };
    assert!(matches!(
        parser.parse(&tokens),
        Err(Error::AstError(eggshell::ast::errors::Error::ParserReceivedPlaceholder))
    ));
}

#[test]
fn the_first_rule_for_a_symbol_counts() {
    let tokens = tokens_of(&[Lexeme::Pipe]);
    let mut parser = Parser {
        rules: vec![
            (Symbol::Program, Rule::from_tok(Lexeme::Pipe)),
            (Symbol::Program, Rule::from_tok(Lexeme::Literal)),
        ],
        entry: Symbol::Program,
    };
    assert!(parser.parse(&tokens).is_ok());
}

#[test]
fn nested_symbols_are_claimed_and_hung_as_one_child() {
    let tokens = tokens_of(&[Lexeme::Literal, Lexeme::Literal]);
    let mut parser = Parser {
        rules: vec![
            (Symbol::Program, Rule::from_sym(Symbol::Exec).then_sym(Symbol::Exec)),
            (Symbol::Exec, Rule::from_tok(Lexeme::Literal)),
        ],
        entry: Symbol::Program,
    };
    let ast = parser.parse(&tokens).unwrap();
    assert_is_tree_without_placeholder(&ast);
    assert_eq!(ast.nodes.len(), 5);
    assert_eq!(ast.nodes[0].children, vec![1, 3]);
    assert_eq!(ast.nodes[1].symbol, Symbol::Exec);
    assert_eq!(ast.nodes[1].children, vec![2]);
    assert_eq!(ast.nodes[3].children, vec![4]);
    assert_eq!(ast.nodes[4].token, Some(1));
}

#[test]
fn a_long_chain_stays_within_the_recursion_limit() {
    let mut kinds: Vec<Lexeme> = Vec::new();
    for _ in 0..200 {
        kinds.push(Lexeme::Literal);
        kinds.push(Lexeme::Pipe);
    }
    kinds.push(Lexeme::Literal);
    kinds.push(Lexeme::LineEnd);
    let tokens = tokens_of(&kinds);
    let ast = Parser::new().parse(&tokens).unwrap();
    assert_is_tree_without_placeholder(&ast);
    let mut read: Vec<usize> = Vec::new();
    leaves(&ast, 0, &mut read);
    let expected: Vec<usize> = (0..401).collect();
    assert_eq!(read, expected);
}

#[test]
fn the_language_parses_or_names_a_token() {
    let kinds = [
        Lexeme::Literal,
        Lexeme::Pipe,
        Lexeme::Redirect,
        Lexeme::RedirectAppend,
        Lexeme::LineEnd,
    ];
    let mut parser = Parser::new();
    let mut count: usize = 0;
    for len in 0..6usize {
        let total: usize = 5usize.pow(len as u32);
        for code in 0..total {
            let mut rest: usize = code;
            let mut input: Vec<Lexeme> = Vec::new();
            for _ in 0..len {
                input.push(kinds[rest % 5]);
                rest /= 5;
            }
            let tokens = tokens_of(&input);
            match parser.parse(&tokens) {
                Ok(ast) => {
                    assert_is_tree_without_placeholder(&ast);
                    assert_eq!(ast.nodes[0].symbol, Symbol::Program);
                }
                Err(Error::ParserUnexpectedToken(t)) => assert!(tokens.contains(&t)),
                Err(e) => panic!("{:?} on {:?}", e, input),
            }
            count += 1;
        }
    }
    assert_eq!(count, 3906);
}
