//! Interpretation of raw property values as integers, strings and string lists.

use vstd::prelude::*;
use crate::fdt::encoding::{
    be_u32_at, be_u64_at, find_zero, first_zero_from, lemma_first_zero_from_bounds, read_be_u32,
    read_be_u64, utf8_chars, utf8_to_string,
};
use crate::fdt::strings::copy_bytes;
use vstd::utf8::{decode_utf8, decode_utf8_encode_utf8, encode_scalar, encode_utf8, valid_utf8};
use crate::fdt::structure::property::NodeProperty;
use vstd::slice::slice_subrange;

verus! {

/// The raw property value had an invalid length for the requested interpretation.
#[derive(Debug, Eq, PartialEq, Clone, Copy)]
pub struct InvalidValueLength;

/// The error which can occur when interpreting a property value as string.
#[derive(Debug, Eq, PartialEq, Clone, Copy)]
pub enum StringError {
    /// The raw value is not NUL-terminated (or holds a NUL before its end).
    NoNullTerminator,
    /// The raw value is not valid UTF-8.
    Utf8Error,
}

/// The string that a value holding exactly one NUL-terminated string encodes.
pub open spec fn single_string(v: Seq<u8>) -> Result<Seq<char>, StringError> {
    if v.len() >= 1 && first_zero_from(v, 0) == Some(v.len() - 1) {
        match utf8_chars(v.subrange(0, v.len() - 1)) {
            Some(c) => Ok(c),
            None => Err(StringError::Utf8Error),
        }
    } else {
        Err(StringError::NoNullTerminator)
    }
}

/// A sequence of characters whose UTF-8 encoding holds no zero byte holds no NUL character.
proof fn lemma_no_zero_byte_no_nul(c: Seq<char>)
    requires
        forall|k: int| 0 <= k < encode_utf8(c).len() ==> encode_utf8(c)[k] != 0,
    ensures
        forall|j: int| 0 <= j < c.len() ==> c[j] != '\0',
    decreases c.len(),
{
    if c.len() > 0 {
        let head = encode_scalar(c[0] as u32);
        let rest = encode_utf8(c.drop_first());
        assert(encode_utf8(c) == head + rest);
        if c[0] == '\0' {
            assert(c[0] as u32 == 0);
            assert((0u32 & 0x7F) as u8 == 0) by (bit_vector);
            assert(head == seq![0u8]);
            assert(encode_utf8(c)[0] == 0);
        }
        assert forall|k: int| 0 <= k < rest.len() implies rest[k] != 0 by {
            assert(encode_utf8(c)[head.len() + k] == rest[k]);
        }
        lemma_no_zero_byte_no_nul(c.drop_first());
        assert forall|j: int| 0 <= j < c.len() implies c[j] != '\0' by {
            if j > 0 {
                assert(c.drop_first()[j - 1] == c[j]);
            }
        }
    }
}

/// A value read as a single string is exactly the UTF-8 encoding of the string followed by one
/// terminating zero byte, and the string holds no NUL character.
pub proof fn lemma_single_string_encoding(v: Seq<u8>)
    requires
        single_string(v) is Ok,
    ensures
        encode_utf8(single_string(v)->Ok_0) + seq![0u8] == v,
        forall|j: int|
            0 <= j < single_string(v)->Ok_0.len() ==> single_string(v)->Ok_0[j] != '\0',
{
    let b = v.subrange(0, v.len() - 1);
    let c = single_string(v)->Ok_0;
    lemma_first_zero_from_bounds(v, 0);
    assert(valid_utf8(b) && c == decode_utf8(b));
    decode_utf8_encode_utf8(b);
    assert(encode_utf8(c) + seq![0u8] =~= v);
    assert forall|k: int| 0 <= k < encode_utf8(c).len() implies encode_utf8(c)[k] != 0 by {
        assert(encode_utf8(c)[k] == v[k]);
    }
    lemma_no_zero_byte_no_nul(c);
}

impl NodeProperty {
    /// Interpret the value as a single big-endian `u32`.
    pub fn as_u32(&self) -> (r: Result<u32, InvalidValueLength>)
        ensures
            self.value@.len() == 4 ==> r == Ok::<u32, InvalidValueLength>(
                be_u32_at(self.value@, 0),
            ),
            self.value@.len() != 4 ==> r == Err::<u32, InvalidValueLength>(InvalidValueLength),
    {
        if self.value.len() == 4 {
            Ok(read_be_u32(self.value.as_slice(), 0))
        } else {
            Err(InvalidValueLength)
        }
    }

    /// Assuming the value encodes a list of big-endian `u32`, read the `n`th one.
    pub fn nth_u32(&self, n: usize) -> (r: Result<u32, InvalidValueLength>)
        requires
            (n + 1) * 4 <= usize::MAX,
        ensures
            (n + 1) * 4 <= self.value@.len() ==> r == Ok::<u32, InvalidValueLength>(
                be_u32_at(self.value@, n * 4),
            ),
            (n + 1) * 4 > self.value@.len() ==> r == Err::<u32, InvalidValueLength>(
                InvalidValueLength,
            ),
    {
        let end: usize = (n + 1) * 4;
        if end <= self.value.len() {
            Ok(read_be_u32(self.value.as_slice(), n * 4))
        } else {
            Err(InvalidValueLength)
        }
    }

    /// Interpret the value as a phandle, a single big-endian `u32`.
    pub fn as_phandle(&self) -> (r: Result<u32, InvalidValueLength>)
        ensures
            self.value@.len() == 4 ==> r == Ok::<u32, InvalidValueLength>(
                be_u32_at(self.value@, 0),
            ),
            self.value@.len() != 4 ==> r == Err::<u32, InvalidValueLength>(InvalidValueLength),
    {
        self.as_u32()
    }

    /// Interpret the value as a single big-endian `u64`.
    pub fn as_u64(&self) -> (r: Result<u64, InvalidValueLength>)
        ensures
            self.value@.len() == 8 ==> r == Ok::<u64, InvalidValueLength>(
                be_u64_at(self.value@, 0),
            ),
            self.value@.len() != 8 ==> r == Err::<u64, InvalidValueLength>(InvalidValueLength),
    {
        if self.value.len() == 8 {
            Ok(read_be_u64(self.value.as_slice(), 0))
        } else {
            Err(InvalidValueLength)
        }
    }

    /// Assuming the value encodes a list of big-endian `u64`, read the `n`th one.
    pub fn nth_u64(&self, n: usize) -> (r: Result<u64, InvalidValueLength>)
        requires
            (n + 1) * 8 <= usize::MAX,
        ensures
            (n + 1) * 8 <= self.value@.len() ==> r == Ok::<u64, InvalidValueLength>(
                be_u64_at(self.value@, n * 8),
            ),
            (n + 1) * 8 > self.value@.len() ==> r == Err::<u64, InvalidValueLength>(
                InvalidValueLength,
            ),
    {
        let end: usize = (n + 1) * 8;
        if end <= self.value.len() {
            Ok(read_be_u64(self.value.as_slice(), n * 8))
        } else {
            Err(InvalidValueLength)
        }
    }

    /// Interpret the value as a single NUL-terminated string.
    pub fn as_string(&self) -> (r: Result<String, StringError>)
        ensures
            match r {
                Ok(s) => single_string(self.value@) == Ok::<Seq<char>, StringError>(s@),
                Err(e) => single_string(self.value@) == Err::<Seq<char>, StringError>(e),
            },
            r matches Ok(s) ==> encode_utf8(s@) + seq![0u8] == self.value@ && forall|j: int|
                0 <= j < s@.len() ==> s@[j] != '\0',
    {
        proof {
            if single_string(self.value@) is Ok {
                lemma_single_string_encoding(self.value@);
            }
        }
        let len: usize = self.value.len();
        if len == 0 {
            return Err(StringError::NoNullTerminator);
        }
        match find_zero(self.value.as_slice(), 0) {
            Some(k) => {
                if k != len - 1 {
                    return Err(StringError::NoNullTerminator);
                }
                match utf8_to_string(slice_subrange(self.value.as_slice(), 0, k)) {
                    Some(s) => Ok(s),
                    None => Err(StringError::Utf8Error),
                }
            },
            None => Err(StringError::NoNullTerminator),
        }
    }

    /// Interpret the value as a list of NUL-terminated strings.
    pub fn as_string_list(&self) -> (r: StringListIterator)
        ensures
            r@ == self.value@,
    {
        StringListIterator { buf: copy_bytes(self.value.as_slice()) }
    }
}

/// An iterator over a property value that is `<stringlist>` encoded.
pub struct StringListIterator {
    buf: Vec<u8>,
}

impl View for StringListIterator {
    type V = Seq<u8>;

    /// The bytes that are still to be read.
    closed spec fn view(&self) -> Seq<u8> {
        self.buf@
    }
}

impl StringListIterator {
    /// Read the next string from the list.
    ///
    /// When the string is not valid UTF-8 an error is returned but the iterator still moves
    /// past it, so that later strings can be read.
    pub fn next_str(&mut self) -> (r: Result<String, StringError>)
        ensures
            match first_zero_from(old(self)@, 0) {
                None => r == Err::<String, StringError>(StringError::NoNullTerminator)
                    && final(self)@ == old(self)@,
                Some(k) => final(self)@ == old(self)@.subrange(k + 1, old(self)@.len() as int)
                    && match r {
                    Ok(s) => utf8_chars(old(self)@.subrange(0, k)) == Some(s@),
                    Err(e) => e == StringError::Utf8Error && utf8_chars(
                        old(self)@.subrange(0, k),
                    ) is None,
                },
            },
    {
        match find_zero(self.buf.as_slice(), 0) {
            None => Err(StringError::NoNullTerminator),
            Some(k) => {
                proof {
                    lemma_first_zero_from_bounds(self.buf@, 0);
                }
                let len: usize = self.buf.len();
                let text = utf8_to_string(slice_subrange(self.buf.as_slice(), 0, k));
                self.buf = copy_bytes(slice_subrange(self.buf.as_slice(), k + 1, len));
                match text {
                    Some(s) => Ok(s),
                    None => Err(StringError::Utf8Error),
                }
            },
        }
    }
}

} // verus!
