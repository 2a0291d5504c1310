use crate::error::ErrorKind;
use vstd::prelude::*;

verus! {

/// A random-access store of bytes: the input of a decoder.
pub struct ByteSource {
    bytes: Vec<u8>,
}

/// The characters that a run of bytes stands for, one per byte.
pub open spec fn chars_of(bytes: Seq<u8>) -> Seq<char> {
    Seq::new(bytes.len(), |i: int| bytes[i] as char)
}

/// Whether every character of a text has the value of a byte.
pub open spec fn byte_text(text: Seq<char>) -> bool {
    forall|i: int| 0 <= i < text.len() ==> (#[trigger] text[i]) as int <= 0xFF
}

/// The bytes that the characters of a text stand for, one per character.
pub open spec fn bytes_of(text: Seq<char>) -> Seq<u8> {
    Seq::new(text.len(), |i: int| (text[i] as int) as u8)
}

/// The characters that bytes stand for have the values of bytes.
pub proof fn lemma_chars_of_bytes(bytes: Seq<u8>)
    ensures
        byte_text(chars_of(bytes)),
        bytes_of(chars_of(bytes)) == bytes,
{
    assert(bytes_of(chars_of(bytes)) =~= bytes);
}

/// A character with the value of a byte is the character of that byte.
pub proof fn lemma_char_of_byte(c: char)
    requires
        c as int <= 0xFF,
    ensures
        ((c as int) as u8) as char == c,
{
}

/// A text of characters with the values of bytes is the text of its bytes.
pub proof fn lemma_bytes_of_text(text: Seq<char>)
    requires
        byte_text(text),
    ensures
        chars_of(bytes_of(text)) == text,
{
    let bytes = bytes_of(text);
    assert(bytes.len() == text.len());
    assert forall|i: int| 0 <= i < text.len() implies chars_of(bytes)[i] == text[i] by {
        let c = text[i];
        assert(c as int <= 0xFF);
        lemma_char_of_byte(c);
    }
    assert(chars_of(bytes_of(text)) =~= text);
}

impl ByteSource {
    /// The bytes in the store.
    pub closed spec fn view(&self) -> Seq<u8> {
        self.bytes@
    }

    /// The store read as text, one character per byte.
    pub open spec fn text(&self) -> Seq<char> {
        chars_of(self@)
    }

    /// A store that holds `bytes`.
    pub fn new(bytes: Vec<u8>) -> (source: ByteSource)
        ensures
            source@ == bytes@,
    {
        ByteSource { bytes }
    }

    /// The number of bytes in the store.
    pub fn len(&self) -> (len: usize)
        ensures
            len == self@.len(),
    {
        self.bytes.len()
    }

    /// The `length` bytes from `offset` on. A range that reaches past the
    /// end of the store is an `IoError`: there are no short reads.
    pub fn read(&self, offset: usize, length: usize) -> (bytes: Result<Vec<u8>, ErrorKind>)
        ensures
            offset + length <= self@.len() ==> bytes.is_ok() && bytes.unwrap()@
                == self@.subrange(offset as int, offset + length),
            offset + length > self@.len() ==> bytes == Err::<Vec<u8>, ErrorKind>(
                ErrorKind::IoError,
            ),
    {
        let total = self.bytes.len();
        if offset > total || length > total - offset {
            return Err(ErrorKind::IoError);
        }
        let mut out: Vec<u8> = Vec::new();
        let mut taken: usize = 0;
        while taken < length
            invariant
                offset + length <= total,
                total == self.bytes@.len(),
                taken <= length,
                out@ == self.bytes@.subrange(offset as int, offset + taken),
            decreases length - taken,
        {
            out.push(self.bytes[offset + taken]);
            taken += 1;
            assert(out@ =~= self.bytes@.subrange(offset as int, offset + taken));
        }
        Ok(out)
    }
}

} // verus!
