use regex::Regex;
use vstd::prelude::*;
use vstd::string::StrSliceExecFns;
use vstd::string::StringSliceAdditionalSpecFns;
use vstd::utf8::is_char_boundary;

use crate::grammar::Lexeme;
use crate::parser::errors::Error;
use crate::source::location::SourceLocation;
use crate::source::location::Span;
use crate::source::offsets::byte_offset;
use crate::source::offsets::chars_before;
use crate::source::offsets::lemma_offset_grows;
use crate::source::offsets::to_byte_offset;
use crate::source::offsets::to_char_index;
use crate::source::source_file::SourceFile;
use crate::source::token::Token;

verus! {

/// Whether `regex::Regex::new` accepts `pattern`.
pub uninterp spec fn regex_compiles(pattern: Seq<char>) -> bool;

/// What `regex::Regex::find_at` returns for the regular expression
/// `pattern` on `text`, the search starting at the byte `start` of the
/// text in UTF-8: the byte offsets of the start and of the end of the
/// leftmost match, if there is one.
pub uninterp spec fn regex_find_at(pattern: Seq<char>, text: Seq<char>, start: int) -> Option<
    (int, int),
>;

/// Compiles `pattern` with `regex::Regex::new` and searches `text` with
/// `regex::Regex::find_at` from the byte `start` on. The contract names
/// the two results, and states of a match what the crate documents: it
/// lies within the text, does not start before `start` nor end before it
/// starts, and starts and ends where characters do. `find_at` panics if
/// `start` is beyond the end of the text. Why a pattern was not accepted
/// is dropped.
#[verifier::external_body]
fn find_at(pattern: &str, text: &str, start: usize) -> (r: Result<Option<(usize, usize)>, ()>)
    requires
        start <= text.spec_bytes().len(),
    ensures
        r is Ok == regex_compiles(pattern@),
        r matches Ok(found) ==> match found {
            Some((s, e)) => regex_find_at(pattern@, text@, start as int) == Some((s as int, e as int))
                && start <= s <= e <= text.spec_bytes().len() && is_char_boundary(
                text.spec_bytes(),
                s as int,
            ) && is_char_boundary(text.spec_bytes(), e as int),
            None => regex_find_at(pattern@, text@, start as int) is None,
        },
{
    match Regex::new(pattern) {
        Ok(re) => Ok(
            match re.find_at(text, start) {
                Some(m) => Some((m.start(), m.end())),
                None => None,
            },
        ),
        Err(_) => Err(()),
    }
}

/// The kinds of token with the regular expressions that describe them, in
/// the order in which they are tried.
pub struct Lexer {
    pub patterns: Vec<(Lexeme, String)>,
}

/// A space or a tab: what may stand between tokens.
pub open spec fn is_blank(c: char) -> bool {
    c == ' ' || c == '\t'
}

/// The first position from `from` on that holds no blank.
pub open spec fn next_nonblank(text: Seq<char>, from: int) -> Option<int>
    decreases text.len() - from,
{
    if from < 0 || from >= text.len() {
        None
    } else if !is_blank(text[from]) {
        Some(from)
    } else {
        next_nonblank(text, from + 1)
    }
}

/// Where a match found by a search from `at` ends, if it counts for a
/// token at `at`: it starts at `at`, is not empty and ends within `len`.
pub open spec fn match_end(found: Option<(int, int)>, at: int, len: int) -> Option<int> {
    match found {
        Some((s, e)) => if s == at && at < e <= len {
            Some(e)
        } else {
            None
        },
        None => None,
    }
}

/// The better of the best match so far and a new one: the new one only if
/// there was none, or if it ends strictly later.
pub open spec fn preferred(best: Option<(Lexeme, usize)>, lexeme: Lexeme, end: Option<int>) -> Option<
    (Lexeme, usize),
> {
    match end {
        None => best,
        Some(e) => match best {
            None => Some((lexeme, e as usize)),
            Some((_, prev_end)) => if e > prev_end {
                Some((lexeme, e as usize))
            } else {
                best
            },
        },
    }
}

/// The better of the best match so far and what a search from `at` found
/// for `lexeme`.
pub fn prefer(
    best: Option<(Lexeme, usize)>,
    lexeme: Lexeme,
    found: Option<(usize, usize)>,
    at: usize,
    len: usize,
) -> (r: Option<(Lexeme, usize)>)
    ensures
        r == preferred(
            best,
            lexeme,
            match_end(
                match found {
                    Some((s, e)) => Some((s as int, e as int)),
                    None => None,
                },
                at as int,
                len as int,
            ),
        ),
{
    match found {
        Some((start, end)) => {
            if start == at && at < end && end <= len {
                match best {
                    Some((_, prev_end)) => {
                        if end > prev_end {
                            Some((lexeme, end))
                        } else {
                            best
                        }
                    },
                    None => Some((lexeme, end)),
                }
            } else {
                best
            }
        },
        None => best,
    }
}

/// The best of the matches `ends` from the `k`-th on, `best` being the
/// best before them. `ends` holds, for each pattern in order, its kind and
/// where its match ends, if it has one that counts.
pub open spec fn best_of(
    ends: Seq<(Lexeme, Option<int>)>,
    k: int,
    best: Option<(Lexeme, usize)>,
) -> Option<(Lexeme, usize)>
    decreases ends.len() - k,
{
    if k < 0 || k >= ends.len() {
        best
    } else {
        best_of(ends, k + 1, preferred(best, ends[k].0, ends[k].1))
    }
}

/// The longest match wins, and of several longest ones the first: what is
/// chosen is the match of some pattern, no match is longer, and no match of
/// an earlier pattern is as long.
pub proof fn longest_match_wins(ends: Seq<(Lexeme, Option<int>)>)
    requires
        forall|i: int| 0 <= i < ends.len() ==> ((#[trigger] ends[i]).1 matches Some(e) ==> 0 < e
            <= usize::MAX),
    ensures
        match best_of(ends, 0, None) {
            None => forall|i: int| 0 <= i < ends.len() ==> (#[trigger] ends[i]).1 is None,
            Some((lexeme, end)) => exists|w: int|
                {
                    &&& 0 <= w < ends.len()
                    &&& #[trigger] ends[w] == (lexeme, Some(end as int))
                    &&& forall|i: int|
                        0 <= i < ends.len() ==> ((#[trigger] ends[i]).1 matches Some(e) ==> e
                            <= end)
                    &&& forall|i: int|
                        0 <= i < w ==> ((#[trigger] ends[i]).1 matches Some(e) ==> e < end)
                },
        },
{
    lemma_best_of(ends, 0, None, 0);
}

/// The invariant of the search for the best match.
spec fn is_best(ends: Seq<(Lexeme, Option<int>)>, k: int, best: Option<(Lexeme, usize)>, w: int) -> bool {
    match best {
        None => forall|i: int| 0 <= i < k ==> (#[trigger] ends[i]).1 is None,
        Some((lexeme, end)) => {
            &&& 0 <= w < k
            &&& ends[w] == (lexeme, Some(end as int))
            &&& forall|i: int| 0 <= i < k ==> ((#[trigger] ends[i]).1 matches Some(e) ==> e <= end)
            &&& forall|i: int| 0 <= i < w ==> ((#[trigger] ends[i]).1 matches Some(e) ==> e < end)
        },
    }
}

proof fn lemma_best_of(
    ends: Seq<(Lexeme, Option<int>)>,
    k: int,
    best: Option<(Lexeme, usize)>,
    w: int,
)
    requires
        0 <= k <= ends.len(),
        forall|i: int| 0 <= i < ends.len() ==> ((#[trigger] ends[i]).1 matches Some(e) ==> 0 < e
            <= usize::MAX),
        is_best(ends, k, best, w),
    ensures
        exists|v: int| is_best(ends, ends.len() as int, best_of(ends, k, best), v),
    decreases ends.len() - k,
{
    if k >= ends.len() {
        assert(is_best(ends, ends.len() as int, best_of(ends, k, best), w));
    } else {
        let next = preferred(best, ends[k].0, ends[k].1);
        let v = if next == best {
            w
        } else {
            k
        };
        assert(is_best(ends, k + 1, next, v));
        lemma_best_of(ends, k + 1, next, v);
    }
}

/// The kinds and the patterns of a lexer, as mathematical values.
pub open spec fn pattern_list(patterns: Seq<(Lexeme, String)>) -> Seq<(Lexeme, Seq<char>)> {
    Seq::new(patterns.len(), |i: int| (patterns[i].0, patterns[i].1@))
}

/// For each pattern its kind and where its match at the byte `at` ends, if
/// it has one that counts. The ends are counted in bytes too.
pub open spec fn ends_at(patterns: Seq<(Lexeme, Seq<char>)>, text: Seq<char>, at: int) -> Seq<
    (Lexeme, Option<int>),
> {
    Seq::new(
        patterns.len(),
        |i: int|
            (
                patterns[i].0,
                match_end(
                    regex_find_at(patterns[i].1, text, at),
                    at,
                    vstd::utf8::encode_utf8(text).len() as int,
                ),
            ),
    )
}

/// The position of the first pattern from `k` on that is no regular
/// expression.
pub open spec fn first_invalid(patterns: Seq<(Lexeme, Seq<char>)>, k: int) -> Option<int>
    decreases patterns.len() - k,
{
    if k < 0 || k >= patterns.len() {
        None
    } else if !regex_compiles(patterns[k].1) {
        Some(k)
    } else {
        first_invalid(patterns, k + 1)
    }
}

/// The token at the character `at`: its kind is that of the first pattern
/// with the longest match there, and it spans the characters of that match.
/// The patterns are matched on the bytes of the text, from the byte at
/// which the character starts.
pub open spec fn token_at(
    patterns: Seq<(Lexeme, Seq<char>)>,
    text: Seq<char>,
    file_id: usize,
    at: usize,
) -> Result<Token, Error> {
    match first_invalid(patterns, 0) {
        Some(k) => Err(Error::LexerInvalidPattern(k as usize)),
        None => match best_of(ends_at(patterns, text, byte_offset(text, at as int)), 0, None) {
            None => Err(Error::LexerCouldNotCreateToken(SourceLocation { file_id, offset: at })),
            Some((lexeme, end)) => Ok(
                Token {
                    lexeme,
                    location: Span {
                        file_id,
                        start: at,
                        end: (chars_before(text, end as int) - 1) as usize,
                    },
                },
            ),
        },
    }
}

/// The tokens of `text` from `from` on, after those of `acc`: blanks are
/// passed over, and each token starts where no blank stands. Nothing is
/// read from `limit` on.
pub open spec fn tokens_from(
    patterns: Seq<(Lexeme, Seq<char>)>,
    text: Seq<char>,
    file_id: usize,
    limit: usize,
    from: int,
    acc: Seq<Token>,
) -> Result<Seq<Token>, Error>
    decreases text.len() - from,
{
    if from < 0 || from >= limit {
        Ok(acc)
    } else {
        match next_nonblank(text, from) {
            None => Ok(acc),
            Some(pos) => match token_at(patterns, text, file_id, pos as usize) {
                Err(e) => Err(e),
                Ok(token) => if from <= token.location.end < text.len() {
                    tokens_from(
                        patterns,
                        text,
                        file_id,
                        limit,
                        token.location.end + 1,
                        acc.push(token),
                    )
                } else {
                    Ok(acc)
                },
            },
        }
    }
}

/// The tokens of a source file.
pub open spec fn tokenized(patterns: Seq<(Lexeme, Seq<char>)>, source_file: &SourceFile) -> Result<
    Seq<Token>,
    Error,
> {
    tokens_from(
        patterns,
        source_file.contents@,
        source_file.file_id,
        source_file.char_count,
        0,
        Seq::empty(),
    )
}

/// The tokens lie in the file one after the other: each spans at least one
/// character of the `len` that there are, and each ends before the next
/// starts.
pub open spec fn spans_in_order(tokens: Seq<Token>, file_id: usize, len: int) -> bool {
    &&& forall|i: int|
        0 <= i < tokens.len() ==> (#[trigger] tokens[i]).location.file_id == file_id
            && tokens[i].location.start <= tokens[i].location.end < len
    &&& forall|i: int, j: int|
        0 <= i < j < tokens.len() ==> (#[trigger] tokens[i]).location.end
            < (#[trigger] tokens[j]).location.start
}

impl Lexer {
    /// Split the text of a source file into tokens.
    pub fn tokenize(&self, source_file: &SourceFile) -> (r: Result<Vec<Token>, Error>)
        ensures
            match r {
                Ok(tokens) => tokenized(pattern_list(self.patterns@), source_file) == Ok::<
                    Seq<Token>,
                    Error,
                >(tokens@),
                Err(e) => tokenized(pattern_list(self.patterns@), source_file) == Err::<
                    Seq<Token>,
                    Error,
                >(e),
            },
            r matches Ok(tokens) ==> spans_in_order(
                tokens@,
                source_file.file_id,
                source_file.contents@.len() as int,
            ),
    {
        let ghost patterns = pattern_list(self.patterns@);
        let ghost text = source_file.contents@;
        let mut tokens: Vec<Token> = Vec::new();
        let mut next_token_start: usize = 0;
        let len = source_file.contents.as_str().unicode_len();
        while next_token_start < source_file.char_count
            invariant
                patterns == pattern_list(self.patterns@),
                text == source_file.contents@,
                len == text.len(),
                spans_in_order(tokens@, source_file.file_id, len as int),
                forall|i: int|
                    0 <= i < tokens@.len() ==> (#[trigger] tokens@[i]).location.end
                        < next_token_start,
                tokenized(patterns, source_file) == tokens_from(
                    patterns,
                    text,
                    source_file.file_id,
                    source_file.char_count,
                    next_token_start as int,
                    tokens@,
                ),
            ensures
                tokenized(patterns, source_file) == Ok::<Seq<Token>, Error>(tokens@),
                spans_in_order(tokens@, source_file.file_id, len as int),
            decreases len - next_token_start,
        {
            let pos = match self.get_next_nonwhitespace(source_file, next_token_start) {
                Some(pos) => pos,
                None => {
                    break ;
                },
            };
            let next_token = match self.get_next_token(source_file, pos) {
                Ok(token) => token,
                Err(e) => {
                    return Err(e);
                },
            };
            next_token_start = next_token.location.end + 1;
            let ghost before = tokens@;
            tokens.push(next_token);
            proof {
                assert forall|i: int, j: int| 0 <= i < j < tokens@.len() implies (
                #[trigger] tokens@[i]).location.end < (#[trigger] tokens@[j]).location.start by {
                    if j < before.len() {
                        assert(before[i].location.end < before[j].location.start);
                    } else {
                        assert(before[i].location.end < pos);
                    }
                }
            }
        }
        Ok(tokens)
    }

    /// The first position from `search_from` on that holds no blank.
    fn get_next_nonwhitespace(&self, source_file: &SourceFile, search_from: usize) -> (r: Option<
        usize,
    >)
        ensures
            match r {
                Some(pos) => next_nonblank(source_file.contents@, search_from as int) == Some(
                    pos as int,
                ) && search_from <= pos < source_file.contents@.len(),
                None => next_nonblank(source_file.contents@, search_from as int) is None,
            },
    {
        let text = source_file.contents.as_str();
        let len = text.unicode_len();
        let mut i: usize = search_from;
        while i < len
            invariant
                text@ == source_file.contents@,
                len == text@.len(),
                search_from <= i,
                next_nonblank(text@, search_from as int) == next_nonblank(text@, i as int),
            decreases len - i,
        {
            let c = text.get_char(i);
            if !(c == ' ' || c == '\t') {
                return Some(i);
            }
            i += 1;
        }
        None
    }

    /// The token that starts at `search_from`.
    fn get_next_token(&self, source_file: &SourceFile, search_from: usize) -> (r: Result<
        Token,
        Error,
    >)
        requires
            search_from < source_file.contents@.len(),
        ensures
            r == token_at(
                pattern_list(self.patterns@),
                source_file.contents@,
                source_file.file_id,
                search_from,
            ),
            r matches Ok(token) ==> search_from <= token.location.end
                < source_file.contents@.len() && token.location.start == search_from
                && token.location.file_id == source_file.file_id,
    {
        let text = source_file.contents.as_str();
        let len = text.as_bytes().len();
        let start = to_byte_offset(text, search_from);
        let ghost patterns = pattern_list(self.patterns@);
        let ghost ends = ends_at(patterns, text@, start as int);
        let mut best_match: Option<(Lexeme, usize)> = None;
        let mut k: usize = 0;
        while k < self.patterns.len()
            invariant
                k <= self.patterns@.len(),
                patterns == pattern_list(self.patterns@),
                ends == ends_at(patterns, text@, start as int),
                text@ == source_file.contents@,
                len == text.spec_bytes().len(),
                start <= len,
                first_invalid(patterns, 0) == first_invalid(patterns, k as int),
                best_of(ends, 0, None) == best_of(ends, k as int, best_match),
                best_match matches Some((_, end)) ==> start < end <= len && is_char_boundary(
                    text.spec_bytes(),
                    end as int,
                ),
            decreases self.patterns@.len() - k,
        {
            assert(patterns[k as int] == (self.patterns@[k as int].0, self.patterns@[k as int].1@));
            let found = match find_at(self.patterns[k].1.as_str(), text, start) {
                Ok(found) => found,
                Err(_) => {
                    return Err(Error::LexerInvalidPattern(k));
                },
            };
            best_match = prefer(best_match, self.patterns[k].0, found, start, len);
            k += 1;
        }
        match best_match {
            Some((lexeme, end_byte)) => {
                let end_pos = to_char_index(text, end_byte);
                proof {
                    if end_pos <= search_from {
                        lemma_offset_grows(text@, end_pos as int, search_from as int);
                    }
                }
                Ok(
                    Token {
                        lexeme,
                        location: Span {
                            file_id: source_file.file_id,
                            start: search_from,
                            end: end_pos - 1,
                        },
                    },
                )
            },
            None => Err(
                Error::LexerCouldNotCreateToken(
                    SourceLocation { file_id: source_file.file_id, offset: search_from },
                ),
            ),
        }
    }
}

} // verus!
