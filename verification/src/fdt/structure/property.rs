//! Properties inside nodes of the structure block.

use vstd::prelude::*;
use crate::fdt::encoding::{be_u32_at, read_be_u32};
use crate::fdt::strings::{copy_bytes, strings_lookup, Strings, StringsError};
use crate::fdt::structure::buf_tools::{
    align4, has_token_at_start, starts_with_token, FDT_PROP,
};
use vstd::slice::slice_subrange;

verus! {

/// The error which can occur when parsing a property.
#[derive(Debug, Eq, PartialEq, Clone, Copy)]
pub enum PropertyParseError {
    /// The name of the property could not be looked up in the strings block.
    NameError(StringsError),
    /// The buffer (of the given size) cannot hold the property header (12 bytes) plus its value
    /// (of the given length, when the header could be read).
    BufferTooSmall(usize, Option<usize>),
    /// The buffer does not start with an FDT_PROP token.
    NotAProp,
}

/// A single property inside a node.
#[derive(Debug, Eq, PartialEq)]
pub struct NodeProperty {
    /// Name of the property, looked up from the strings block.
    pub name: String,
    /// Raw value of the property.
    pub value: Vec<u8>,
}

impl View for NodeProperty {
    type V = (Seq<char>, Seq<u8>);

    open spec fn view(&self) -> (Seq<char>, Seq<u8>) {
        (self.name@, self.value@)
    }
}

/// The outcome of parsing a property at the start of `s`: the number of bytes it uses and its
/// (name, value).
pub open spec fn prop_parse(s: Seq<u8>, strings: Seq<u8>) -> Result<
    (int, (Seq<char>, Seq<u8>)),
    PropertyParseError,
> {
    if !starts_with_token(s, FDT_PROP) {
        Err(PropertyParseError::NotAProp)
    } else if s.len() < 12 {
        Err(PropertyParseError::BufferTooSmall(s.len() as usize, None))
    } else {
        let value_len = be_u32_at(s, 4) as int;
        match strings_lookup(strings, be_u32_at(s, 8) as int) {
            Err(e) => Err(PropertyParseError::NameError(e)),
            Ok(name) => if 12 + value_len <= s.len() {
                Ok((12 + value_len, (name, s.subrange(12, 12 + value_len))))
            } else {
                Err(PropertyParseError::BufferTooSmall(s.len() as usize, Some(value_len as usize)))
            },
        }
    }
}

/// The properties that iterating over the property encodings in `s` yields: iteration stops at
/// the first buffer that does not parse as a property.
pub open spec fn props_from(s: Seq<u8>, strings: Seq<u8>) -> Seq<(Seq<char>, Seq<u8>)>
    decreases s.len(),
{
    match prop_parse(s, strings) {
        Err(_) => seq![],
        Ok((n, p)) => if 12 <= n && align4(n) <= s.len() {
            seq![p] + props_from(s.subrange(align4(n), s.len() as int), strings)
        } else {
            seq![p]
        },
    }
}

impl NodeProperty {
    /// Parse a property at the start of the buffer; returns the number of bytes it uses and the
    /// property. The buffer must start with the `FDT_PROP` token but may be longer.
    pub fn from_buffer(buf: &[u8], strings: &Strings) -> (r: Result<
        (usize, NodeProperty),
        PropertyParseError,
    >)
        ensures
            match r {
                Ok((n, p)) => prop_parse(buf@, strings@) == Ok::<
                    (int, (Seq<char>, Seq<u8>)),
                    PropertyParseError,
                >((n as int, p@)),
                Err(e) => prop_parse(buf@, strings@) == Err::<
                    (int, (Seq<char>, Seq<u8>)),
                    PropertyParseError,
                >(e),
            },
    {
        if !has_token_at_start(buf, FDT_PROP) {
            return Err(PropertyParseError::NotAProp);
        }
        let len: usize = buf.len();
        if len < 12 {
            return Err(PropertyParseError::BufferTooSmall(len, None));
        }
        let value_len: u32 = read_be_u32(buf, 4);
        let name_offset: u32 = read_be_u32(buf, 8);
        let name = match strings.get_string(name_offset as usize) {
            Ok(name) => name,
            Err(e) => {
                return Err(PropertyParseError::NameError(e));
            },
        };
        if (value_len as u64) <= (len - 12) as u64 {
            let end: usize = 12 + value_len as usize;
            let value = copy_bytes(slice_subrange(buf, 12, end));
            Ok((end, NodeProperty { name, value }))
        } else {
            Err(PropertyParseError::BufferTooSmall(len, Some(value_len as usize)))
        }
    }
}

/// An iterator over node properties that are encoded one after the other in a buffer.
#[derive(Debug, Eq, PartialEq)]
pub struct PropertyIter {
    buf: Option<Vec<u8>>,
    strings: Strings,
}

impl View for PropertyIter {
    type V = Seq<(Seq<char>, Seq<u8>)>;

    /// The properties that are still to be iterated.
    closed spec fn view(&self) -> Seq<(Seq<char>, Seq<u8>)> {
        match self.buf {
            None => seq![],
            Some(b) => props_from(b@, self.strings@),
        }
    }
}

impl Clone for PropertyIter {
    fn clone(&self) -> (r: PropertyIter)
        ensures
            r@ == self@,
    {
        let buf = match &self.buf {
            None => None,
            Some(b) => Some(copy_bytes(b.as_slice())),
        };
        PropertyIter { buf, strings: self.strings.clone() }
    }
}

impl PropertyIter {
    /// Iterate over the properties encoded in `buf`, with names from `strings`.
    pub fn new(buf: &[u8], strings: Strings) -> (r: PropertyIter)
        ensures
            r@ == props_from(buf@, strings@),
    {
        if buf.len() == 0 {
            proof {
                assert(!starts_with_token(buf@, FDT_PROP));
            }
            PropertyIter { buf: None, strings }
        } else {
            PropertyIter { buf: Some(copy_bytes(buf)), strings }
        }
    }

    /// Yield the next property, or `None` once a buffer part does not parse as a property.
    pub fn next(&mut self) -> (r: Option<NodeProperty>)
        ensures
            old(self)@.len() == 0 ==> r is None && final(self)@.len() == 0,
            old(self)@.len() > 0 ==> (r matches Some(p) && p@ == old(self)@[0] && final(self)@
                == old(self)@.drop_first()),
    {
        let (n, prop) = match &self.buf {
            None => {
                return None;
            },
            Some(b) => match NodeProperty::from_buffer(b.as_slice(), &self.strings) {
                Ok(res) => res,
                Err(_) => {
                    return None;
                },
            },
        };
        let ghost old_buf = self.buf->Some_0@;
        let len: usize = match &self.buf {
            Some(b) => b.len(),
            None => 0,
        };
        assert(12 <= n <= len);
        let rem: usize = n % 4;
        if rem == 0 || len - n >= 4 - rem {
            let next_start: usize = if rem == 0 {
                n
            } else {
                n + (4 - rem)
            };
            let rest = match &self.buf {
                Some(b) => copy_bytes(slice_subrange(b.as_slice(), next_start, len)),
                None => Vec::new(),
            };
            self.buf = Some(rest);
            proof {
                assert(old(self)@.drop_first() =~= self@);
            }
        } else {
            self.buf = None;
            proof {
                assert(old(self)@.drop_first() =~= Seq::<(Seq<char>, Seq<u8>)>::empty());
            }
        }
        Some(prop)
    }
}

} // verus!
