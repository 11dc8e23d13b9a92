use vstd::prelude::*;
use vstd::string::StringExecFns;

use crate::ast::ast::links_ascend;
use crate::ast::ast::Ast;
use crate::ast::ast::NodeView;
use crate::ast::text::tree_text;
use crate::source::source_file::SourceFile;
use crate::source::source_manager::span_text;
use crate::source::source_manager::SourceManager;
use crate::source::token::token_line;
use crate::source::token::Token;

verus! {

/// The lines of the tokens from the `k`-th on, each after a line break, a
/// space, a dash and a space; the first that cannot be shown ends the list
/// with its error.
pub open spec fn token_lines(tokens: Seq<Token>, files: Seq<SourceFile>, k: int) -> Result<
    Seq<char>,
    crate::source::errors::Error,
>
    decreases tokens.len() - k,
{
    if k < 0 || k >= tokens.len() {
        Ok(Seq::empty())
    } else {
        match span_text(files, tokens[k].location) {
            Err(e) => Err(e),
            Ok(text) => match token_lines(tokens, files, k + 1) {
                Err(e) => Err(e),
                Ok(rest) => Ok(
                    (if k == 0 {
                        Seq::empty()
                    } else {
                        "\n - "@
                    }) + token_line(tokens[k].lexeme, text) + rest,
                ),
            },
        }
    }
}

/// `line` is the line of `token`.
pub open spec fn shows(line: Seq<char>, files: Seq<SourceFile>, token: Token) -> bool {
    span_text(files, token.location) matches Ok(text) && line == token_line(token.lexeme, text)
}

/// The report of the tokens of a file: a heading, then the tokens as a
/// list.
pub open spec fn token_report(tokens: Seq<Token>, files: Seq<SourceFile>) -> Result<
    Seq<char>,
    crate::source::errors::Error,
> {
    match token_lines(tokens, files, 0) {
        Err(e) => Err(e),
        Ok(lines) => Ok("==========\n= Tokens =\n==========\n---\n - "@ + lines + "\n"@),
    }
}

/// The report of the tokens of a file, for display.
pub fn show_tokens(tokens: &[Token], source_manager: &SourceManager) -> (r: Result<
    String,
    crate::errors::Error,
>)
    ensures
        match r {
            Ok(report) => token_report(tokens@, source_manager.files@) == Ok::<
                Seq<char>,
                crate::source::errors::Error,
            >(report@),
            Err(e) => token_report(tokens@, source_manager.files@) matches Err(cause) && e
                == crate::errors::Error::SourceError(cause),
        },
{
    let ghost files = source_manager.files@;
    let mut lines: Vec<String> = Vec::new();
    let mut k: usize = 0;
    while k < tokens.len()
        invariant
            k <= tokens@.len(),
            files == source_manager.files@,
            lines@.len() == k,
            forall|i: int|
                0 <= i < k ==> shows((#[trigger] lines@[i])@, files, tokens@[i]),
        decreases tokens@.len() - k,
    {
        match tokens[k].to_string(source_manager) {
            Ok(line) => {
                lines.push(line);
            },
            Err(e) => {
                proof {
                    assert forall|i: int| 0 <= i < k implies span_text(
                        files,
                        (#[trigger] tokens@[i]).location,
                    ) is Ok by {
                        assert(shows(lines@[i]@, files, tokens@[i]));
                    }
                    lemma_lines_fail(tokens@, files, 0, k as int);
                }
                return Err(crate::errors::Error::SourceError(e));
            },
        }
        k += 1;
    }
    let mut report = "==========\n= Tokens =\n==========\n---\n - ".to_owned();
    let ghost head = report@;
    let mut j: usize = lines.len();
    let mut tail = String::new();
    while j > 0
        invariant
            j <= lines@.len(),
            lines@.len() == tokens@.len(),
            files == source_manager.files@,
            forall|i: int|
                0 <= i < lines@.len() ==> shows((#[trigger] lines@[i])@, files, tokens@[i]),
            token_lines(tokens@, files, j as int) == Ok::<Seq<char>, crate::source::errors::Error>(
                tail@,
            ),
        decreases j,
    {
        j -= 1;
        let mut next = String::new();
        if j > 0 {
            next.append("\n - ");
        }
        next.append(lines[j].as_str());
        next.append(tail.as_str());
        proof {
            let text = span_text(files, tokens@[j as int].location)->Ok_0;
            assert(shows(lines@[j as int]@, files, tokens@[j as int]));
            assert(next@ =~= (if j == 0 {
                Seq::<char>::empty()
            } else {
                "\n - "@
            }) + token_line(tokens@[j as int].lexeme, text) + tail@);
        }
        tail = next;
    }
    report.append(tail.as_str());
    report.append("\n");
    Ok(report)
}

/// If a token cannot be shown, neither can the list that holds it.
proof fn lemma_lines_fail(tokens: Seq<Token>, files: Seq<SourceFile>, from: int, bad: int)
    requires
        0 <= from <= bad < tokens.len(),
        span_text(files, tokens[bad].location) is Err,
        forall|i: int| from <= i < bad ==> span_text(files, (#[trigger] tokens[i]).location) is Ok,
    ensures
        token_lines(tokens, files, from) == Err::<Seq<char>, crate::source::errors::Error>(
            span_text(files, tokens[bad].location)->Err_0,
        ),
    decreases bad - from,
{
    if from < bad {
        lemma_lines_fail(tokens, files, from + 1, bad);
    }
}

/// The report of a syntax tree: a heading, then the text of the tree.
pub open spec fn tree_report(
    nodes: Seq<NodeView>,
    tokens: Seq<Token>,
    files: Seq<SourceFile>,
) -> Result<Seq<char>, crate::ast::errors::Error> {
    match tree_text(nodes, tokens, files) {
        Err(e) => Err(e),
        Ok(text) => Ok("===============\n= Syntax Tree =\n===============\n"@ + text),
    }
}

/// The report of a syntax tree, for display.
pub fn show_ast(ast: &Ast, tokens: &[Token], source_manager: &SourceManager) -> (r: Result<
    String,
    crate::errors::Error,
>)
    requires
        links_ascend(ast@),
    ensures
        match r {
            Ok(report) => tree_report(ast@, tokens@, source_manager.files@) == Ok::<
                Seq<char>,
                crate::ast::errors::Error,
            >(report@),
            Err(e) => tree_report(ast@, tokens@, source_manager.files@) matches Err(cause) && e
                == crate::errors::Error::AstError(cause),
        },
{
    match ast.to_string(tokens, source_manager) {
        Ok(text) => {
            let mut report = "===============\n= Syntax Tree =\n===============\n".to_owned();
            report.append(text.as_str());
            Ok(report)
        },
        Err(e) => Err(crate::errors::Error::AstError(e)),
    }
}

} // verus!
