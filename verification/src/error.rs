use vstd::prelude::*;

verus! {

/// Why decoding stopped.
#[derive(Debug, PartialEq, Eq, Clone, Copy, Structural)]
pub enum ErrorKind {
    /// The byte source could not satisfy a read: the input ended, or the
    /// store failed.
    IoError,
    /// A well-formed token stands where the grammar does not allow it.
    SyntaxError,
    /// The input at this place is no token at all.
    UnrecognizedTokenError,
    /// Arrays and objects are nested deeper than the decoder follows.
    NestingTooDeepError,
}

/// A failure of the decoder, with the place in the input where it arose.
#[derive(Debug, PartialEq, Eq, Clone, Copy, Structural)]
pub struct JsonError {
    /// What went wrong.
    pub kind: ErrorKind,
    /// The number of line feeds before `offset`.
    pub line: usize,
    /// The offset, counted from zero, of the byte that could not be
    /// accepted; the length of the input where the input ended too early.
    pub offset: usize,
    /// The character at `offset`: the one that could not be accepted.
    /// `None` where the input ended there.
    pub found: Option<char>,
}

/// A failure in the mathematical model: its kind and the offending offset.
pub struct Fault {
    pub kind: ErrorKind,
    pub offset: int,
}

/// The number of line feeds among the first `end` characters of `text`.
pub open spec fn lines_before(text: Seq<char>, end: int) -> nat
    decreases end,
{
    if end <= 0 || end > text.len() {
        0
    } else if text[end - 1] == '\n' {
        lines_before(text, end - 1) + 1
    } else {
        lines_before(text, end - 1)
    }
}

/// There are no more line feeds than characters.
pub proof fn lemma_lines_bounded(text: Seq<char>, end: int)
    ensures
        lines_before(text, end) <= end || end < 0,
        lines_before(text, end) <= text.len(),
    decreases end,
{
    if end <= 0 || end > text.len() {
    } else {
        lemma_lines_bounded(text, end - 1);
    }
}

/// The character of `text` at `offset`, if there is one.
pub open spec fn char_at(text: Seq<char>, offset: int) -> Option<char> {
    if 0 <= offset < text.len() {
        Some(text[offset])
    } else {
        None
    }
}

impl JsonError {
    /// Whether this error reports `fault` as found in `text`.
    pub open spec fn reports(self, fault: Fault, text: Seq<char>) -> bool {
        &&& self.kind == fault.kind
        &&& self.offset == fault.offset
        &&& self.line == lines_before(text, fault.offset)
        &&& self.found == char_at(text, fault.offset)
    }
}

} // verus!
