//! Handling of the *strings* block.

use vstd::prelude::*;
use crate::fdt::encoding::{find_zero, first_zero_from, lemma_first_zero_from_bounds, utf8_chars, utf8_to_string};
use vstd::slice::slice_subrange;

verus! {

/// A collection of NUL-terminated strings that are referenced throughout the fdt.
#[derive(Debug, Eq, PartialEq)]
pub struct Strings {
    buf: Vec<u8>,
}

/// The error which can occur when looking up strings.
#[derive(Debug, Eq, PartialEq, Clone, Copy)]
pub enum StringsError {
    /// No string at the given offset because it lies past the end of a buffer of the given size.
    OutOfBounds(usize, usize),
    /// The data at the given offset had no zero-terminator.
    Unterminated(usize),
    /// The string data was not valid UTF-8.
    InvalidUtf8,
}

/// The outcome of looking up the string at `offset` in the strings block `s`.
pub open spec fn strings_lookup(s: Seq<u8>, offset: int) -> Result<Seq<char>, StringsError> {
    if offset > s.len() {
        Err(StringsError::OutOfBounds(offset as usize, s.len() as usize))
    } else {
        match first_zero_from(s, offset) {
            None => Err(StringsError::Unterminated(offset as usize)),
            Some(k) => match utf8_chars(s.subrange(offset, k)) {
                Some(chars) => Ok(chars),
                None => Err(StringsError::InvalidUtf8),
            },
        }
    }
}

impl View for Strings {
    type V = Seq<u8>;

    closed spec fn view(&self) -> Seq<u8> {
        self.buf@
    }
}

/// Copy a byte slice into a new vector.
pub fn copy_bytes(buf: &[u8]) -> (r: Vec<u8>)
    ensures
        r@ == buf@,
{
    let mut v: Vec<u8> = Vec::new();
    let mut i: usize = 0;
    while i < buf.len()
        invariant
            i <= buf@.len(),
            v@ == buf@.subrange(0, i as int),
        decreases buf.len() - i,
    {
        v.push(buf[i]);
        i = i + 1;
        assert(v@ =~= buf@.subrange(0, i as int));
    }
    assert(buf@.subrange(0, buf@.len() as int) =~= buf@);
    v
}

impl Clone for Strings {
    fn clone(&self) -> (r: Strings)
        ensures
            r@ == self@,
    {
        Strings { buf: copy_bytes(self.buf.as_slice()) }
    }
}

impl Strings {
    /// Use a buffer as strings block.
    pub fn from_buffer(buf: &[u8]) -> (r: Strings)
        ensures
            r@ == buf@,
    {
        Strings { buf: copy_bytes(buf) }
    }

    /// Look up the NUL-terminated string starting at `offset`.
    pub fn get_string(&self, offset: usize) -> (r: Result<String, StringsError>)
        ensures
            match r {
                Ok(s) => strings_lookup(self@, offset as int) == Ok::<Seq<char>, StringsError>(s@),
                Err(e) => strings_lookup(self@, offset as int) == Err::<Seq<char>, StringsError>(e),
            },
    {
        let len = self.buf.len();
        if offset > len {
            return Err(StringsError::OutOfBounds(offset, len));
        }
        match find_zero(self.buf.as_slice(), offset) {
            None => Err(StringsError::Unterminated(offset)),
            Some(k) => {
                proof {
                    lemma_first_zero_from_bounds(self@, offset as int);
                }
                let bytes = slice_subrange(self.buf.as_slice(), offset, k);
                match utf8_to_string(bytes) {
                    Some(s) => Ok(s),
                    None => Err(StringsError::InvalidUtf8),
                }
            },
        }
    }
}

} // verus!
