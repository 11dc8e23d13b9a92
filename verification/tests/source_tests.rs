use eggshell::display::show_ast;
use eggshell::display::show_tokens;
use eggshell::grammar::Lexeme;
use eggshell::grammar::Symbol;
use eggshell::source::errors::Error;
use eggshell::source::location::Span;
use eggshell::source::source_file::SourceFile;
use eggshell::source::source_manager::SourceManager;
use eggshell::source::token::Token;

fn span(file_id: usize, start: usize, end: usize) -> Span {
    Span { file_id, start, end }
}

#[test]
fn from_ends_the_text_with_a_line_break_and_counts() {
    let file = SourceFile::from(2, "ab\ncd".to_string());
    assert_eq!(file.contents, "ab\ncd\n");
    assert_eq!(file.file_id, 2);
    assert_eq!(file.char_count, 6);
    assert_eq!(file.line_indexes, vec![0, 2, 5]);
    let kept = SourceFile::from(0, "x\n".to_string());
    assert_eq!(kept.contents, "x\n");
    assert_eq!(kept.line_indexes, vec![0, 1]);
    let empty = SourceFile::from(0, String::new());
    assert_eq!(empty.contents, "\n");
    assert_eq!(empty.char_count, 1);
    assert_eq!(empty.line_indexes, vec![0, 0]);
}

#[test]
fn from_counts_characters_not_bytes() {
    let file = SourceFile::from(0, "\u{e9}\n\u{e9}".to_string());
    assert_eq!(file.char_count, 4);
    assert_eq!(file.line_indexes, vec![0, 1, 3]);
    assert_eq!(file.get_text(&span(0, 2, 2)), Ok("\u{e9}".to_string()));
}

#[test]
fn line_and_col_are_taken_from_the_last_entry_not_after_the_offset() {
    let file = SourceFile::from(0, "ab\ncd\n".to_string());
    assert_eq!(file.get_line_and_col(0), Ok((0, 0)));
    assert_eq!(file.get_line_and_col(1), Ok((0, 1)));
    assert_eq!(file.get_line_and_col(2), Ok((1, 0)));
    assert_eq!(file.get_line_and_col(3), Ok((1, 1)));
    assert_eq!(file.get_line_and_col(4), Ok((1, 2)));
    assert_eq!(file.get_line_and_col(5), Ok((2, 0)));
    assert_eq!(file.get_line_and_col(6), Err(Error::OffsetOutOfBounds(6)));
    assert_eq!(file.get_line_and_col(usize::MAX), Err(Error::OffsetOutOfBounds(usize::MAX)));
}

#[test]
fn get_text_is_inclusive_and_stops_at_the_end() {
    let file = SourceFile::from(0, "hello\n".to_string());
    assert_eq!(file.get_text(&span(0, 1, 3)), Ok("ell".to_string()));
    assert_eq!(file.get_text(&span(0, 0, 0)), Ok("h".to_string()));
    assert_eq!(file.get_text(&span(0, 4, 99)), Ok("o\n".to_string()));
    assert_eq!(file.get_text(&span(0, 50, 99)), Ok(String::new()));
    assert_eq!(file.get_text(&span(0, 0, usize::MAX)), Ok("hello\n".to_string()));
    assert_eq!(file.get_text(&span(0, 3, 1)), Err(Error::SpanOutOfBounds(span(0, 3, 1))));
}

#[test]
fn manager_numbers_files_by_position() {
    let mut sources = SourceManager::new();
    assert!(sources.files.is_empty());
    assert!(SourceManager::default().files.is_empty());
    sources.load_file("one".to_string());
    sources.load_file("two\n".to_string());
    assert_eq!(sources.files.len(), 2);
    assert_eq!(sources.get_file(1).unwrap().file_id, 1);
    assert_eq!(sources.get_file(1).unwrap().contents, "two\n");
    assert_eq!(sources.get_file(0).unwrap().contents, "one\n");
    assert_eq!(sources.get_file(2).err(), Some(Error::SourceManagerFileIndexNotFound(2)));
    assert_eq!(sources.get_text(&span(1, 0, 1)), Ok("tw".to_string()));
    assert_eq!(sources.get_text(&span(2, 0, 1)), Err(Error::SpanOutOfBounds(span(2, 0, 1))));
    assert_eq!(sources.get_text(&span(0, 2, 1)), Err(Error::SpanOutOfBounds(span(0, 2, 1))));
}

#[test]
fn token_to_string_names_the_kind_and_quotes_the_text() {
    let mut sources = SourceManager::new();
    sources.load_file("say \"hi\"\n".to_string());
    let word = Token { lexeme: Lexeme::Literal, location: span(0, 0, 2) };
    assert_eq!(word.get_contents(&sources), Ok("say".to_string()));
    assert_eq!(word.to_string(&sources), Ok("Literal: \"say\"".to_string()));
    let quoted = Token { lexeme: Lexeme::Literal, location: span(0, 4, 7) };
    assert_eq!(quoted.to_string(&sources), Ok("Literal: \"\\\"hi\\\"\"".to_string()));
    let line_end = Token { lexeme: Lexeme::LineEnd, location: span(0, 8, 8) };
    assert_eq!(line_end.to_string(&sources), Ok("LineEnd: \"\\n\"".to_string()));
    let nowhere = Token { lexeme: Lexeme::Pipe, location: span(4, 0, 0) };
    assert_eq!(nowhere.to_string(&sources), Err(Error::SpanOutOfBounds(span(4, 0, 0))));
    assert_eq!(nowhere.get_contents(&sources), Err(Error::SpanOutOfBounds(span(4, 0, 0))));
}

#[test]
fn names_are_those_of_the_variants() {
    for lexeme in [
        Lexeme::Literal,
        Lexeme::Pipe,
        Lexeme::Redirect,
        Lexeme::RedirectAppend,
        Lexeme::LineEnd,
    ] {
        assert_eq!(lexeme.name(), format!("{:?}", lexeme));
    }
    for symbol in [
        Symbol::Program,
        Symbol::ExecChain,
        Symbol::Exec,
        Symbol::PipeExec,
        Symbol::RedirectExec,
        Symbol::RedirectTarget,
        Symbol::Lexeme,
        Symbol::_Placeholder,
    ] {
        assert_eq!(symbol.name(), format!("{:?}", symbol));
    }
}

#[test]
fn show_tokens_lists_the_tokens_under_a_heading() {
    let mut sources = SourceManager::new();
    sources.load_file("a | b".to_string());
    let tokens = vec![
        Token { lexeme: Lexeme::Literal, location: span(0, 0, 0) },
        Token { lexeme: Lexeme::Pipe, location: span(0, 2, 2) },
        Token { lexeme: Lexeme::Literal, location: span(0, 4, 4) },
    ];
    assert_eq!(
        show_tokens(&tokens, &sources),
        Ok("==========\n= Tokens =\n==========\n---\n - Literal: \"a\"\n - Pipe: \"|\"\n - Literal: \"b\"\n"
            .to_string())
    );
    assert_eq!(
        show_tokens(&[], &sources),
        Ok("==========\n= Tokens =\n==========\n---\n - \n".to_string())
    );
    let lost = vec![tokens[0], Token { lexeme: Lexeme::Pipe, location: span(3, 0, 0) }];
    assert_eq!(
        show_tokens(&lost, &sources),
        Err(eggshell::errors::Error::SourceError(Error::SpanOutOfBounds(span(3, 0, 0))))
    );
}

#[test]
fn show_ast_puts_a_heading_before_the_tree() {
    let sources = SourceManager::new();
    let tree = eggshell::parser::parser::Parser::new().parse(&[]).unwrap();
    assert_eq!(
        show_ast(&tree, &[], &sources),
        Ok("===============\n= Syntax Tree =\n===============\n---\n- Program\n".to_string())
    );
    let empty = eggshell::ast::ast::Ast { nodes: vec![] };
    assert_eq!(
        show_ast(&empty, &[], &sources),
        Err(eggshell::errors::Error::AstError(
            eggshell::ast::errors::Error::ParserTreeNodeOutOfBounds
        ))
    );
}
