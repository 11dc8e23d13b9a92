use eggshell::grammar::Lexeme;
use eggshell::grammar::Symbol;
use eggshell::parser::meta_parse_rule::Block;
use eggshell::parser::meta_parse_rule::Rule;

#[test]
fn check_meta_parser() {
    let mut test_cases: Vec<(Rule, String)> = Vec::new();

    test_cases.push((Rule::from_sym(Symbol::Program), "---\n- Symbol<Program>\n".into()));
    test_cases.push((
        Rule::from_sym(Symbol::ExecChain).maybe(),
        "---\n- Maybe\n  - Symbol<ExecChain>\n".into(),
    ));
    test_cases.push((
        Rule::from_sym(Symbol::ExecChain).star(),
        "---\n- Star\n  - Symbol<ExecChain>\n".into(),
    ));
    test_cases.push((
        Rule::from_sym(Symbol::ExecChain).plus(),
        "---\n- Plus\n  - Symbol<ExecChain>\n".into(),
    ));
    test_cases.push((
        Rule::from_sym(Symbol::Program).then_sym(Symbol::ExecChain),
        "---\n- Sequence\n  - Symbol<Program>\n  - Symbol<ExecChain>\n".into(),
    ));
    test_cases.push((
        Rule::from_sym(Symbol::Program).or_sym(Symbol::ExecChain),
        "---\n- Any\n  - Symbol<Program>\n  - Symbol<ExecChain>\n".into(),
    ));
    test_cases.push((
        Rule::from_sym(Symbol::Program).then_tok(Lexeme::Redirect).then_one_of(&mut vec![
            Block::Symbol(Symbol::ExecChain),
            Block::Token(Lexeme::Pipe),
            Block::Token(Lexeme::Literal),
        ]),
        "---\n- Sequence\n  - Symbol<Program>\n  - Token<Redirect>\n  - Any\n    - Symbol<ExecChain>\n    - Token<Pipe>\n    - Token<Literal>\n"
            .into(),
    ));
    test_cases.push((
        Rule::from_sym(Symbol::Program).then_star(Block::Token(Lexeme::Redirect)),
        "---\n- Sequence\n  - Symbol<Program>\n  - Star\n    - Token<Redirect>\n".into(),
    ));
    test_cases.push((
        Rule::from_sym(Symbol::Program).then_plus(Block::Token(Lexeme::Pipe)),
        "---\n- Sequence\n  - Symbol<Program>\n  - Plus\n    - Token<Pipe>\n".into(),
    ));
    test_cases.push((
        Rule::from_tok(Lexeme::Redirect)
            .or_sym(Symbol::RedirectExec)
            .then_sym(Symbol::RedirectTarget),
        "---\n- Sequence\n  - Any\n    - Token<Redirect>\n    - Symbol<RedirectExec>\n  - Symbol<RedirectTarget>\n"
            .into(),
    ));
    test_cases.push((
        Rule::from_tok(Lexeme::Redirect).then_maybe(Block::Symbol(Symbol::RedirectTarget)),
        "---\n- Sequence\n  - Token<Redirect>\n  - Maybe\n    - Symbol<RedirectTarget>\n".into(),
    ));

    // Test then(rule)
    test_cases.push((
        Rule::from_tok(Lexeme::Redirect).then(Rule::from_tok(Lexeme::Pipe)),
        "---\n- Sequence\n  - Token<Redirect>\n  - Token<Pipe>\n".into(),
    ));
    test_cases.push((
        Rule::from_tok(Lexeme::Pipe)
            .then(Rule::from_tok(Lexeme::Redirect).or_sym(Symbol::RedirectExec)),
        "---\n- Sequence\n  - Token<Pipe>\n  - Any\n    - Token<Redirect>\n    - Symbol<RedirectExec>\n"
            .into(),
    ));
    test_cases.push((
        Rule::from_tok(Lexeme::Pipe).then(
            Rule::from_tok(Lexeme::Redirect).or_sym(Symbol::RedirectExec).then_sym(Symbol::Exec),
        ),
        "---\n- Sequence\n  - Token<Pipe>\n  - Any\n    - Token<Redirect>\n    - Symbol<RedirectExec>\n  - Symbol<Exec>\n"
            .into(),
    ));
    test_cases.push((
        Rule::from_tok(Lexeme::Literal)
            .then(Rule::from_sym(Symbol::PipeExec).or_sym(Symbol::RedirectExec).maybe()),
        "---\n- Sequence\n  - Token<Literal>\n  - Maybe\n    - Any\n      - Symbol<PipeExec>\n      - Symbol<RedirectExec>\n"
            .into(),
    ));
    test_cases.push((
        Rule::from_sym(Symbol::Exec)
            .then(Rule::from_sym(Symbol::PipeExec).or_sym(Symbol::RedirectExec).maybe()),
        "---\n- Sequence\n  - Symbol<Exec>\n  - Maybe\n    - Any\n      - Symbol<PipeExec>\n      - Symbol<RedirectExec>\n"
            .into(),
    ));

    for (i, (rule, expectation)) in test_cases.iter().enumerate() {
        let rule_str = rule.to_string().unwrap();
        if rule_str != *expectation {
            panic!(
                "Meta Parser Rule {} does not match expectations:\nRule:\n{}\nExpected rule: \n{}\n",
                i, rule_str, expectation
            );
        }
    }
}

fn ids(block: &Block) -> Vec<usize> {
    match block {
        Block::_Sequence(ids) => ids.clone(),
        Block::_Any(ids) => ids.clone(),
        Block::_Maybe(id) => vec![*id],
        Block::_Star(id) => vec![*id],
        Block::_Plus(id) => vec![*id],
        Block::_Discard(id) => vec![*id],
        Block::Symbol(_) => vec![],
        Block::Token(_) => vec![],
    }
}

#[test]
fn then_renumbers_the_appended_arena() {
    let left = Rule::from_tok(Lexeme::Pipe).maybe();
    let right = Rule::from_tok(Lexeme::Redirect).star().plus();
    let rule = left.then(right);
    assert_eq!(rule.blocks.len(), 6);
    assert_eq!(rule.root, 5);
    assert_eq!(ids(&rule.blocks[1]), vec![0]);
    assert_eq!(ids(&rule.blocks[3]), vec![2]);
    assert_eq!(ids(&rule.blocks[4]), vec![3]);
    assert!(matches!(rule.blocks[5], Block::_Sequence(_)));
    assert_eq!(ids(&rule.blocks[5]), vec![1, 4]);
}

#[test]
fn then_onto_a_sequence_appends_to_it() {
    let rule = Rule::from_tok(Lexeme::Pipe)
        .then_tok(Lexeme::Redirect)
        .then(Rule::from_tok(Lexeme::Literal).maybe());
    assert_eq!(rule.blocks.len(), 5);
    assert_eq!(rule.root, 2);
    assert_eq!(ids(&rule.blocks[2]), vec![0, 1, 4]);
    assert_eq!(ids(&rule.blocks[4]), vec![3]);
    assert_eq!(
        rule.to_string().unwrap(),
        "---\n- Sequence\n  - Token<Pipe>\n  - Token<Redirect>\n  - Maybe\n    - Token<Literal>\n"
    );
}

#[test]
fn then_before_a_sequence_is_put_at_its_front() {
    let rule = Rule::from_tok(Lexeme::Literal)
        .then(Rule::from_tok(Lexeme::Pipe).then_tok(Lexeme::Redirect));
    assert_eq!(rule.blocks.len(), 4);
    assert_eq!(rule.root, 3);
    assert_eq!(ids(&rule.blocks[3]), vec![0, 1, 2]);
    assert_eq!(
        rule.to_string().unwrap(),
        "---\n- Sequence\n  - Token<Literal>\n  - Token<Pipe>\n  - Token<Redirect>\n"
    );
}

#[test]
fn or_flattens_choices_like_then_flattens_sequences() {
    let rule = Rule::from_tok(Lexeme::Literal)
        .or(Rule::from_tok(Lexeme::Pipe).or_tok(Lexeme::Redirect))
        .or(Rule::from_tok(Lexeme::LineEnd).discard());
    assert_eq!(
        rule.to_string().unwrap(),
        "---\n- Any\n  - Token<Literal>\n  - Token<Pipe>\n  - Token<Redirect>\n  - Discard\n    - Token<LineEnd>\n"
    );
}

#[test]
fn then_one_of_takes_the_blocks_and_allows_none() {
    let mut options = vec![Block::Token(Lexeme::Pipe)];
    let rule = Rule::from_sym(Symbol::Exec).then_one_of(&mut options);
    assert!(options.is_empty());
    assert_eq!(rule.to_string().unwrap(), "---\n- Sequence\n  - Symbol<Exec>\n  - Any\n    - Token<Pipe>\n");
    let rule = Rule::from_sym(Symbol::Exec).then_one_of(&mut Vec::new());
    assert_eq!(rule.to_string().unwrap(), "---\n- Sequence\n  - Symbol<Exec>\n  - Any\n");
}

#[test]
fn from_and_get_root_give_the_single_block() {
    let mut rule = Rule::from(Block::Token(Lexeme::Pipe));
    assert_eq!(rule.root, 0);
    assert_eq!(rule.blocks.len(), 1);
    assert!(matches!(rule.get_root(), Block::Token(Lexeme::Pipe)));
    *rule.get_root() = Block::Symbol(Symbol::Exec);
    assert!(matches!(rule.blocks[0], Block::Symbol(Symbol::Exec)));
}

#[test]
fn discard_and_nested_wrappers_indent_by_depth() {
    let rule = Rule::from_tok(Lexeme::LineEnd).plus().discard().maybe().star();
    assert_eq!(
        rule.to_string().unwrap(),
        "---\n- Star\n  - Maybe\n    - Discard\n      - Plus\n        - Token<LineEnd>\n"
    );
}
