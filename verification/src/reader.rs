use crate::error::{ErrorKind, Fault, JsonError, lemma_lines_bounded, lines_before};
use crate::source::ByteSource;
use vstd::prelude::*;

verus! {

/// The size of the window that a reader keeps of its source.
pub const BUFFER_LEN: usize = 8;

/// The character that ends a line.
pub const NEW_LINE: char = '\n';

/// A character-at-a-time view of a byte source, with a cursor that consumes
/// and a second one that only looks ahead.
pub struct BufferedReader<'a> {
    source: &'a ByteSource,
    read_buffer: Vec<u8>,
    prev_char: char,
    curr_char: char,
    buff_index: usize,
    read_index: usize,
    look_ahead_index: usize,
    line: usize,
}

impl<'a> BufferedReader<'a> {
    /// The whole input, one character per byte of the source.
    pub closed spec fn text(&self) -> Seq<char> {
        self.source.text()
    }

    /// The number of characters consumed so far.
    pub closed spec fn cursor(&self) -> int {
        self.read_index + self.buff_index
    }

    /// The number of characters looked at beyond the cursor since the
    /// lookahead was last reset.
    pub closed spec fn ahead(&self) -> int {
        self.look_ahead_index as int
    }

    /// The number of line feeds consumed so far.
    pub closed spec fn lines(&self) -> int {
        self.line as int
    }

    /// The character consumed last, or NUL before the first.
    pub closed spec fn current(&self) -> char {
        self.curr_char
    }

    /// The character consumed before the last one, or NUL.
    pub closed spec fn previous(&self) -> char {
        self.prev_char
    }

    /// The window holds the bytes of the source that it stands for.
    pub closed spec fn window_ok(&self) -> bool {
        &&& self.source@.len() <= usize::MAX
        &&& self.read_buffer@.len() <= BUFFER_LEN
        &&& self.buff_index <= self.read_buffer@.len()
        &&& self.read_index + self.read_buffer@.len() <= self.source@.len()
        &&& self.read_buffer@ == self.source@.subrange(
            self.read_index as int,
            self.read_index + self.read_buffer@.len(),
        )
    }

    /// The reader's invariant: both cursors lie within the input, the line
    /// count is that of the consumed part, and the window is in step.
    pub open spec fn wf(&self) -> bool {
        &&& self.window_ok()
        &&& 0 <= self.cursor()
        &&& 0 <= self.ahead()
        &&& self.cursor() + self.ahead() <= self.text().len()
        &&& self.lines() == lines_before(self.text(), self.cursor())
    }

    /// A reader at the start of `source`.
    pub fn new(source: &'a ByteSource) -> (reader: BufferedReader<'a>)
        ensures
            reader.wf(),
            reader.text() == source.text(),
            reader.cursor() == 0,
            reader.ahead() == 0,
            reader.current() == '\0',
            reader.previous() == '\0',
    {
        let _ = source.len();
        let reader = BufferedReader {
            source,
            read_buffer: Vec::new(),
            prev_char: '\0',
            curr_char: '\0',
            buff_index: 0,
            read_index: 0,
            look_ahead_index: 0,
            line: 0,
        };
        assert(reader.read_buffer@ =~= source@.subrange(0, 0));
        reader
    }

    /// The number of characters consumed so far.
    pub fn offset(&self) -> (offset: usize)
        requires
            self.wf(),
        ensures
            offset == self.cursor(),
    {
        self.read_index + self.buff_index
    }

    /// The number of line feeds consumed so far.
    pub fn line(&self) -> (line: usize)
        ensures
            line == self.lines(),
    {
        self.line
    }

    /// The character consumed last, or NUL before the first.
    pub fn curr_char(&self) -> (c: char)
        ensures
            c == self.current(),
    {
        self.curr_char
    }

    /// The character consumed before the last one, or NUL.
    pub fn prev_char(&self) -> (c: char)
        ensures
            c == self.previous(),
    {
        self.prev_char
    }

    /// Forgets what was looked at: the next `peek_next_char` starts again at
    /// the cursor.
    pub fn reset_lookahead(&mut self)
        requires
            old(self).wf(),
        ensures
            final(self).wf(),
            final(self).ahead() == 0,
            final(self).text() == old(self).text(),
            final(self).cursor() == old(self).cursor(),
            final(self).current() == old(self).current(),
            final(self).previous() == old(self).previous(),
    {
        self.look_ahead_index = 0;
    }

    /// Consumes one character and returns it. The lookahead is reset, the
    /// line count grows with a line feed, and the character before becomes
    /// the previous one. At the end of the input nothing is consumed and the
    /// result is an `IoError` at that place.
    pub fn get_next_char(&mut self) -> (next: Result<char, JsonError>)
        requires
            old(self).wf(),
        ensures
            final(self).wf(),
            final(self).text() == old(self).text(),
            final(self).ahead() == 0,
            old(self).cursor() < old(self).text().len() ==> {
                &&& next == Ok::<char, JsonError>(old(self).text()[old(self).cursor()])
                &&& final(self).cursor() == old(self).cursor() + 1
                &&& final(self).current() == old(self).text()[old(self).cursor()]
                &&& final(self).previous() == old(self).current()
            },
            old(self).cursor() >= old(self).text().len() ==> {
                &&& next.is_err()
                &&& next.unwrap_err().reports(
                    Fault { kind: ErrorKind::IoError, offset: old(self).cursor() },
                    old(self).text(),
                )
                &&& final(self).cursor() == old(self).cursor()
                &&& final(self).current() == old(self).current()
                &&& final(self).previous() == old(self).previous()
            },
    {
        self.reset_lookahead();
        let total = self.source.len();
        if self.buff_index >= self.read_buffer.len() {
            let start = self.read_index + self.buff_index;
            let wanted = if total - start < BUFFER_LEN {
                total - start
            } else {
                BUFFER_LEN
            };
            if wanted == 0 {
                return Err(
                    JsonError { kind: ErrorKind::IoError, line: self.line, offset: start, found: None },
                );
            }
            match self.source.read(start, wanted) {
                Ok(bytes) => {
                    self.read_index = start;
                    self.buff_index = 0;
                    self.read_buffer = bytes;
                },
                Err(kind) => {
                    return Err(JsonError { kind, line: self.line, offset: start, found: None });
                },
            }
        }
        let c = self.read_buffer[self.buff_index] as char;
        proof {
            lemma_lines_bounded(self.text(), self.cursor() + 1);
        }
        self.prev_char = self.curr_char;
        self.curr_char = c;
        self.buff_index += 1;
        if c == NEW_LINE {
            self.line += 1;
        }
        Ok(c)
    }

    /// Looks at the next character beyond those already looked at, without
    /// consuming anything: the first call after a reset gives the character
    /// at the cursor, the next call the one after it. Past the end of the
    /// input the result is `None` and nothing changes.
    pub fn peek_next_char(&mut self) -> (next: Option<char>)
        requires
            old(self).wf(),
        ensures
            final(self).wf(),
            final(self).text() == old(self).text(),
            final(self).cursor() == old(self).cursor(),
            final(self).current() == old(self).current(),
            final(self).previous() == old(self).previous(),
            old(self).cursor() + old(self).ahead() < old(self).text().len() ==> {
                &&& next == Some(old(self).text()[old(self).cursor() + old(self).ahead()])
                &&& final(self).ahead() == old(self).ahead() + 1
            },
            old(self).cursor() + old(self).ahead() >= old(self).text().len() ==> {
                &&& next.is_none()
                &&& final(self).ahead() == old(self).ahead()
            },
    {
        let total = self.source.len();
        let place = self.read_index + self.buff_index + self.look_ahead_index;
        if place >= total {
            return None;
        }
        let within = self.buff_index + self.look_ahead_index;
        let byte = if within < self.read_buffer.len() {
            self.read_buffer[within]
        } else {
            match self.source.read(place, 1) {
                Ok(bytes) => bytes[0],
                Err(_) => {
                    return None;
                },
            }
        };
        self.look_ahead_index += 1;
        Some(byte as char)
    }
}

} // verus!
