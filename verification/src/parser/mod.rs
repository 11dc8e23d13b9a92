pub mod depth;
pub mod errors;
pub mod language;
pub mod laws;
pub mod lexer;
pub mod lexer_util;
pub mod meta_parse;
pub mod meta_parse_rule;
pub mod parser;
pub mod rule_text;
