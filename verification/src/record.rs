//! The executable record and error types, with their views into the model.

use vstd::prelude::*;

use crate::model::{ParseErrorView, RecordView};

verus! {

/// One entry of the input: the first whitespace-delimited word of its
/// header line, the rest of that header line, and the concatenation of the
/// sequence lines that followed it.
///
/// Every record the parser emits has a non-empty `identifier`; `sequence`
/// may legally be empty (a header immediately followed by another header
/// or by the end of the input).
#[derive(Debug)]
pub struct Record {
    pub identifier: String,
    pub description: String,
    pub sequence: String,
}

impl View for Record {
    type V = RecordView;

    open spec fn view(&self) -> RecordView {
        RecordView {
            identifier: self.identifier@,
            description: self.description@,
            sequence: self.sequence@,
        }
    }
}

impl DeepView for Record {
    type V = RecordView;

    open spec fn deep_view(&self) -> RecordView {
        self@
    }
}

/// Why a parse failed; `line` is the 1-based number of the offending
/// input line. A failed parse yields no records: partial results are
/// never returned.
#[derive(Debug, Clone, Copy, PartialEq, Eq, Structural)]
pub enum ParseError {
    /// A header line whose identifier is empty: nothing but whitespace
    /// follows the marker character.
    MalformedHeader { line: usize },
    /// A line with sequence content before any header line, so the data
    /// has no record to belong to.
    OrphanSequenceData { line: usize },
}

impl View for ParseError {
    type V = ParseErrorView;

    open spec fn view(&self) -> ParseErrorView {
        match self {
            ParseError::MalformedHeader { line } => ParseErrorView::MalformedHeader {
                line: *line as int,
            },
            ParseError::OrphanSequenceData { line } => ParseErrorView::OrphanSequenceData {
                line: *line as int,
            },
        }
    }
}

} // verus!
