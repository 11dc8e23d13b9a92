use vstd::prelude::*;

use crate::source::errors::Error;
use crate::source::location::Span;
use crate::source::source_file::text_between;
use crate::source::source_file::SourceFile;

verus! {

/// The text that `span` denotes among `files`, or why it denotes none.
pub open spec fn span_text(files: Seq<SourceFile>, span: Span) -> Result<Seq<char>, Error> {
    if span.file_id >= files.len() || span.end < span.start {
        Err(Error::SpanOutOfBounds(span))
    } else {
        Ok(text_between(files[span.file_id as int].contents@, span.start, span.end))
    }
}

/// The source files of one run, each known by its position.
pub struct SourceManager {
    pub files: Vec<SourceFile>,
}

impl Default for SourceManager {
    fn default() -> (r: Self)
        ensures
            r.files@.len() == 0,
    {
        Self::new()
    }
}

impl SourceManager {
    /// Every file is well formed and stands at the position that is its id.
    pub open spec fn well_formed(&self) -> bool {
        forall|i: int|
            0 <= i < self.files@.len() ==> (#[trigger] self.files@[i]).well_formed()
                && self.files@[i].file_id == i
    }

    /// A manager without files.
    pub fn new() -> (r: Self)
        ensures
            r.files@.len() == 0,
            r.well_formed(),
    {
        SourceManager { files: Vec::new() }
    }

    /// Attempt to retrieve the SourceFile with the given file_id.
    pub fn get_file(&self, id: usize) -> (r: Result<&SourceFile, Error>)
        ensures
            id < self.files@.len() ==> r == Ok::<&SourceFile, Error>(&self.files@[id as int]),
            id >= self.files@.len() ==> r == Err::<&SourceFile, Error>(
                Error::SourceManagerFileIndexNotFound(id),
            ),
    {
        if id < self.files.len() {
            Ok(&self.files[id])
        } else {
            Err(Error::SourceManagerFileIndexNotFound(id))
        }
    }

    /// Load a new file into the file manager, given its text. Its id is
    /// its position among the files.
    pub fn load_file(&mut self, text: String)
        ensures
            final(self).files@.len() == old(self).files@.len() + 1,
            forall|i: int|
                0 <= i < old(self).files@.len() ==> final(self).files@[i] == old(self).files@[i],
            final(self).files@.last().well_formed(),
            final(self).files@.last().file_id == old(self).files@.len(),
            final(self).files@.last().contents@ == crate::source::source_file::line_terminated(
                text@,
            ),
            old(self).well_formed() ==> final(self).well_formed(),
    {
        let source_file = SourceFile::from(self.files.len(), text);
        self.files.push(source_file);
    }

    /// Attempts to fetch the text corresponding to the Span.
    pub fn get_text(&self, span: &Span) -> (r: Result<String, Error>)
        ensures
            match r {
                Ok(text) => span_text(self.files@, *span) == Ok::<Seq<char>, Error>(text@),
                Err(e) => span_text(self.files@, *span) == Err::<Seq<char>, Error>(e),
            },
    {
        if span.file_id < self.files.len() {
            self.files[span.file_id].get_text(span)
        } else {
            Err(Error::SpanOutOfBounds(*span))
        }
    }
}

} // verus!
