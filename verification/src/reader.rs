//! Which kind of reader extracts the text of a file.

use vstd::prelude::*;
use crate::chars::str_eq;

verus! {

/// The kinds of files whose text can be extracted.
#[derive(Clone, Copy, Debug, PartialEq, Eq, Structural)]
pub enum ReaderKind {
    /// The file holds its text as it is.
    PlainText,
    /// The file is a PDF document.
    Pdf,
}

/// The reader for files with the extension `extension`, if there is one.
pub open spec fn reader_of(extension: Option<Seq<char>>) -> Option<ReaderKind> {
    match extension {
        Some(e) => if e == "txt"@ {
            Some(ReaderKind::PlainText)
        } else if e == "pdf"@ {
            Some(ReaderKind::Pdf)
        } else {
            None
        },
        None => None,
    }
}

/// The reader for a file by the extension of its name: `txt` is plain text,
/// `pdf` is PDF; no other extension has a reader, nor has a name without one.
pub fn select_reader(extension: Option<&str>) -> (kind: Option<ReaderKind>)
    ensures
        kind == reader_of(
            match extension {
                Some(e) => Some(e@),
                None => None,
            },
        ),
{
    match extension {
        Some(e) => {
            if str_eq(e, "txt") {
                Some(ReaderKind::PlainText)
            } else if str_eq(e, "pdf") {
                Some(ReaderKind::Pdf)
            } else {
                None
            }
        },
        None => None,
    }
}

} // verus!
