use eggshell::grammar::Lexeme;
use eggshell::parser::errors::Error;
use eggshell::parser::lexer_util::prefer;
use eggshell::parser::lexer_util::Lexer;
use eggshell::source::location::SourceLocation;
use eggshell::source::source_file::SourceFile;

fn kinds_and_texts(lexer: &Lexer, file: &SourceFile) -> Vec<(Lexeme, String)> {
    lexer
        .tokenize(file)
        .unwrap()
        .iter()
        .map(|token| (token.lexeme, file.get_text(&token.location).unwrap()))
        .collect()
}

fn pairs(expected: &[(Lexeme, &str)]) -> Vec<(Lexeme, String)> {
    expected.iter().map(|(l, t)| (*l, t.to_string())).collect()
}

#[test]
fn check_tokens() {
    let file = SourceFile::from(0, "a a | b | c > d\n".to_string());
    let found = kinds_and_texts(&Lexer::new(), &file);
    let expected = pairs(&[
        (Lexeme::Literal, "a"),
        (Lexeme::Literal, "a"),
        (Lexeme::Pipe, "|"),
        (Lexeme::Literal, "b"),
        (Lexeme::Pipe, "|"),
        (Lexeme::Literal, "c"),
        (Lexeme::Redirect, ">"),
        (Lexeme::Literal, "d"),
        (Lexeme::LineEnd, "\n"),
    ]);
    assert_eq!(found.len(), 9);
    assert_eq!(found, expected);
}

#[test]
fn tokens_carry_their_spans() {
    let file = SourceFile::from(3, "say \"hi\" >> file_name ;".to_string());
    let tokens = Lexer::default().tokenize(&file).unwrap();
    let spans: Vec<(Lexeme, usize, usize, usize)> = tokens
        .iter()
        .map(|t| (t.lexeme, t.location.file_id, t.location.start, t.location.end))
        .collect();
    assert_eq!(
        spans,
        vec![
            (Lexeme::Literal, 3, 0, 2),
            (Lexeme::Literal, 3, 4, 7),
            (Lexeme::RedirectAppend, 3, 9, 10),
            (Lexeme::Literal, 3, 12, 20),
            (Lexeme::LineEnd, 3, 22, 22),
            (Lexeme::LineEnd, 3, 23, 23),
        ]
    );
}

#[test]
fn blanks_and_tabs_separate_tokens_and_empty_text_has_none() {
    let file = SourceFile::from(0, " \t a\t|  ".to_string());
    let found = kinds_and_texts(&Lexer::new(), &file);
    assert_eq!(found, pairs(&[(Lexeme::Literal, "a"), (Lexeme::Pipe, "|"), (Lexeme::LineEnd, "\n")]));
    let blank = SourceFile {
        contents: "  \t ".to_string(),
        file_id: 0,
        line_indexes: vec![0],
        char_count: 4,
    };
    assert_eq!(Lexer::new().tokenize(&blank), Ok(vec![]));
}

#[test]
fn the_longer_match_wins_whatever_the_order() {
    let short_first = Lexer {
        patterns: vec![
            (Lexeme::Pipe, "abc".to_string()),
            (Lexeme::Redirect, "ab.".to_string()),
            (Lexeme::Literal, "abcde".to_string()),
            (Lexeme::LineEnd, "\n".to_string()),
        ],
    };
    let long_first = Lexer {
        patterns: vec![
            (Lexeme::LineEnd, "\n".to_string()),
            (Lexeme::Literal, "abcde".to_string()),
            (Lexeme::Pipe, "abc".to_string()),
            (Lexeme::Redirect, "ab.".to_string()),
        ],
    };
    let file = SourceFile::from(0, "abcde".to_string());
    for lexer in [short_first, long_first] {
        let tokens = lexer.tokenize(&file).unwrap();
        assert_eq!(tokens[0].lexeme, Lexeme::Literal);
        assert_eq!((tokens[0].location.start, tokens[0].location.end), (0, 4));
        assert_eq!(tokens.len(), 2);
    }
}

#[test]
fn of_matches_of_one_length_the_earlier_pattern_wins() {
    let file = SourceFile::from(0, "abc".to_string());
    let lexer = Lexer {
        patterns: vec![
            (Lexeme::Redirect, "ab.".to_string()),
            (Lexeme::Pipe, "abc".to_string()),
            (Lexeme::LineEnd, "\n".to_string()),
        ],
    };
    assert_eq!(lexer.tokenize(&file).unwrap()[0].lexeme, Lexeme::Redirect);
    let lexer = Lexer {
        patterns: vec![
            (Lexeme::Pipe, "abc".to_string()),
            (Lexeme::Redirect, "ab.".to_string()),
            (Lexeme::LineEnd, "\n".to_string()),
        ],
    };
    assert_eq!(lexer.tokenize(&file).unwrap()[0].lexeme, Lexeme::Pipe);
}

#[test]
fn prefer_takes_a_new_match_only_if_strictly_longer() {
    assert_eq!(prefer(None, Lexeme::Pipe, Some((2, 5)), 2, 9), Some((Lexeme::Pipe, 5)));
    let best = Some((Lexeme::Pipe, 5));
    assert_eq!(prefer(best, Lexeme::Literal, Some((2, 5)), 2, 9), best);
    assert_eq!(prefer(best, Lexeme::Literal, Some((2, 4)), 2, 9), best);
    assert_eq!(prefer(best, Lexeme::Literal, Some((2, 7)), 2, 9), Some((Lexeme::Literal, 7)));
    assert_eq!(prefer(best, Lexeme::Literal, None, 2, 9), best);
}

#[test]
fn prefer_passes_over_matches_that_start_later_or_are_empty() {
    assert_eq!(prefer(None, Lexeme::Pipe, Some((3, 5)), 2, 9), None);
    assert_eq!(prefer(None, Lexeme::Pipe, Some((2, 2)), 2, 9), None);
    assert_eq!(prefer(None, Lexeme::Pipe, Some((2, 10)), 2, 9), None);
}

#[test]
fn a_match_further_on_does_not_count() {
    let lexer = Lexer { patterns: vec![(Lexeme::Pipe, "b".to_string())] };
    let file = SourceFile::from(0, "ab".to_string());
    assert_eq!(
        lexer.tokenize(&file),
        Err(Error::LexerCouldNotCreateToken(SourceLocation { file_id: 0, offset: 0 }))
    );
}

#[test]
fn an_empty_match_makes_no_token() {
    let lexer = Lexer { patterns: vec![(Lexeme::Pipe, "x*".to_string())] };
    let file = SourceFile::from(0, "xxa".to_string());
    assert_eq!(
        lexer.tokenize(&file),
        Err(Error::LexerCouldNotCreateToken(SourceLocation { file_id: 0, offset: 2 }))
    );
}

#[test]
fn where_no_pattern_matches_the_offset_is_reported() {
    let file = SourceFile::from(7, "a \"b".to_string());
    assert_eq!(
        Lexer::new().tokenize(&file),
        Err(Error::LexerCouldNotCreateToken(SourceLocation { file_id: 7, offset: 2 }))
    );
}

#[test]
fn a_pattern_that_is_no_regular_expression_is_reported() {
    let lexer = Lexer {
        patterns: vec![(Lexeme::Pipe, "a".to_string()), (Lexeme::Literal, "(".to_string())],
    };
    let file = SourceFile::from(0, "a".to_string());
    assert_eq!(lexer.tokenize(&file), Err(Error::LexerInvalidPattern(1)));
}

#[test]
fn spans_count_characters_not_bytes() {
    let file = SourceFile::from(0, "caf\u{e9} | \u{4e16}\u{754c} > \"\u{1f600} x\"".to_string());
    let tokens = Lexer::new().tokenize(&file).unwrap();
    let spans: Vec<(Lexeme, usize, usize)> =
        tokens.iter().map(|t| (t.lexeme, t.location.start, t.location.end)).collect();
    assert_eq!(
        spans,
        vec![
            (Lexeme::Literal, 0, 3),
            (Lexeme::Pipe, 5, 5),
            (Lexeme::Literal, 7, 8),
            (Lexeme::Redirect, 10, 10),
            (Lexeme::Literal, 12, 16),
            (Lexeme::LineEnd, 17, 17),
        ]
    );
    let found = kinds_and_texts(&Lexer::new(), &file);
    assert_eq!(
        found,
        pairs(&[
            (Lexeme::Literal, "caf\u{e9}"),
            (Lexeme::Pipe, "|"),
            (Lexeme::Literal, "\u{4e16}\u{754c}"),
            (Lexeme::Redirect, ">"),
            (Lexeme::Literal, "\"\u{1f600} x\""),
            (Lexeme::LineEnd, "\n"),
        ])
    );
}

#[test]
fn a_token_after_wide_characters_is_found_where_it_stands() {
    let file = SourceFile::from(0, "\u{e9}\u{e9}\u{e9} a \"".to_string());
    assert_eq!(
        Lexer::new().tokenize(&file),
        Err(Error::LexerCouldNotCreateToken(SourceLocation { file_id: 0, offset: 6 }))
    );
}

#[test]
fn quoted_literals_are_one_token() {
    let file = SourceFile::from(0, "echo 'a b' \"c | d\" `e`f".to_string());
    let found = kinds_and_texts(&Lexer::new(), &file);
    assert_eq!(
        found,
        pairs(&[
            (Lexeme::Literal, "echo"),
            (Lexeme::Literal, "'a b'"),
            (Lexeme::Literal, "\"c | d\""),
            (Lexeme::Literal, "`e`f"),
            (Lexeme::LineEnd, "\n"),
        ])
    );
}

#[test]
fn nothing_is_read_from_the_character_count_on() {
    let file = SourceFile {
        contents: "a b c\n".to_string(),
        file_id: 0,
        line_indexes: vec![0, 5],
        char_count: 3,
    };
    let found = kinds_and_texts(&Lexer::new(), &file);
    assert_eq!(found, pairs(&[(Lexeme::Literal, "a"), (Lexeme::Literal, "b")]));
}
