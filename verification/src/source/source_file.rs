use vstd::prelude::*;
use vstd::string::StrSliceExecFns;
use vstd::string::StringExecFns;

use crate::source::errors::Error;
use crate::source::location::Span;

verus! {

/// The positions of the line breaks among the first `n` characters of `text`.
pub open spec fn breaks_before(text: Seq<char>, n: int) -> Seq<usize>
    decreases n,
{
    if n <= 0 {
        Seq::empty()
    } else if text[n - 1] == '\n' {
        breaks_before(text, n - 1).push((n - 1) as usize)
    } else {
        breaks_before(text, n - 1)
    }
}

/// The line table of `text`: 0, then the position of each line break.
pub open spec fn line_table(text: Seq<char>) -> Seq<usize> {
    seq![0usize] + breaks_before(text, text.len() as int)
}

/// `text`, ended by a line break if it was not.
pub open spec fn line_terminated(text: Seq<char>) -> Seq<char> {
    if text.len() > 0 && text.last() == '\n' {
        text
    } else {
        text.push('\n')
    }
}

/// The characters of `text` from `start` to `end`, both inclusive, as far
/// as `text` has them.
pub open spec fn text_between(text: Seq<char>, start: usize, end: usize) -> Seq<char> {
    let from = if start <= text.len() { start as int } else { text.len() as int };
    let to = if end < text.len() { end + 1 } else { text.len() as int };
    text.subrange(from, to)
}

/// The entries of `table` do not decrease.
pub open spec fn ascending(table: Seq<usize>) -> bool {
    forall|i: int, j: int| 0 <= i <= j < table.len() ==> table[i] <= table[j]
}

proof fn lemma_breaks_ascending(text: Seq<char>, n: int)
    requires
        n <= text.len() <= usize::MAX,
    ensures
        ascending(breaks_before(text, n)),
        forall|i: int| 0 <= i < breaks_before(text, n).len() ==> breaks_before(text, n)[i] < n,
    decreases n,
{
    if n > 0 {
        lemma_breaks_ascending(text, n - 1);
    }
}

/// A line table starts at 0 and does not decrease.
pub proof fn lemma_line_table_ascending(text: Seq<char>)
    requires
        text.len() <= usize::MAX,
    ensures
        line_table(text).len() > 0,
        line_table(text)[0] == 0,
        ascending(line_table(text)),
{
    lemma_breaks_ascending(text, text.len() as int);
}

/// One source text, with the table that turns an offset into a line.
#[derive(Debug)]
pub struct SourceFile {
    pub contents: String,
    pub file_id: usize,
    pub line_indexes: Vec<usize>,
    pub char_count: usize,
}

impl SourceFile {
    /// The line table and the character count are those of the contents.
    pub open spec fn well_formed(&self) -> bool {
        &&& self.line_indexes@ == line_table(self.contents@)
        &&& self.char_count == self.contents@.len()
    }

    /// Makes the source file `file_id` from its text, which is ended by a
    /// line break if it was not.
    pub fn from(file_id: usize, text: String) -> (file: Self)
        ensures
            file.well_formed(),
            file.file_id == file_id,
            file.contents@ == line_terminated(text@),
    {
        let mut contents = text;
        let given = contents.as_str().unicode_len();
        if given == 0 || contents.as_str().get_char(given - 1) != '\n' {
            proof {
                reveal_strlit("\n");
            }
            contents.append("\n");
            assert(contents@ =~= text@.push('\n'));
        }
        let char_count = contents.as_str().unicode_len();
        let mut line_indexes: Vec<usize> = Vec::new();
        line_indexes.push(0);
        let mut i: usize = 0;
        for c in it: contents.as_str().chars()
            invariant
                i == it.index(),
                it.seq() == contents@,
                char_count == contents@.len(),
                line_indexes@ == seq![0usize] + breaks_before(contents@, i as int),
        {
            if c == '\n' {
                line_indexes.push(i);
            }
            i += 1;
        }
        SourceFile { contents, file_id, line_indexes, char_count }
    }

    /// The line on which `offset` lies, counted from 0, and how far it is
    /// from the entry of the line table for that line: the last entry that
    /// is not after `offset`.
    pub fn get_line_and_col(&self, offset: usize) -> (r: Result<(usize, usize), Error>)
        requires
            self.well_formed(),
        ensures
            match r {
                Ok((line, col)) => {
                    &&& offset < self.char_count
                    &&& line < self.line_indexes@.len()
                    &&& self.line_indexes@[line as int] <= offset
                    &&& line + 1 < self.line_indexes@.len() ==> offset < self.line_indexes@[line
                        + 1]
                    &&& col == offset - self.line_indexes@[line as int]
                },
                Err(e) => offset >= self.char_count && e == Error::OffsetOutOfBounds(offset),
            },
    {
        if offset < self.char_count {
            proof {
                lemma_line_table_ascending(self.contents@);
            }
            let mut line: usize = 0;
            let mut above: usize = self.line_indexes.len();
            while above - line > 1
                invariant
                    line < above <= self.line_indexes@.len(),
                    ascending(self.line_indexes@),
                    self.line_indexes@[line as int] <= offset,
                    above < self.line_indexes@.len() ==> offset < self.line_indexes@[above as int],
                decreases above - line,
            {
                let mid = line + (above - line) / 2;
                if self.line_indexes[mid] <= offset {
                    line = mid;
                } else {
                    above = mid;
                }
            }
            let col = offset - self.line_indexes[line];
            Ok((line, col))
        } else {
            Err(Error::OffsetOutOfBounds(offset))
        }
    }

    /// Attempts to fetch the text corresponding to a Span within this file.
    pub fn get_text(&self, span: &Span) -> (r: Result<String, Error>)
        ensures
            match r {
                Ok(text) => span.start <= span.end && text@ == text_between(
                    self.contents@,
                    span.start,
                    span.end,
                ),
                Err(e) => span.end < span.start && e == Error::SpanOutOfBounds(*span),
            },
    {
        if span.end < span.start {
            Err(Error::SpanOutOfBounds(*span))
        } else {
            let len = self.contents.as_str().unicode_len();
            let from = if span.start <= len {
                span.start
            } else {
                len
            };
            let to = if span.end < len {
                span.end + 1
            } else {
                len
            };
            Ok(self.contents.as_str().substring_char(from, to).to_owned())
        }
    }
}

} // verus!
