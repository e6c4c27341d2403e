//! The memory reservation block: a list of reserved physical memory regions.

use vstd::prelude::*;
use crate::fdt::encoding::{be_u64_at, read_be_u64};
use crate::address::slice_address;
use crate::fdt::strings::copy_bytes;
use vstd::slice::slice_subrange;

verus! {

/// A single entry of the memory reservation block: the physical address and size in bytes of a
/// reserved memory region.
#[derive(Debug, Eq, PartialEq, Clone, Copy)]
pub struct MemoryReservationEntry {
    pub address: u64,
    pub size: u64,
}

/// The error which indicates that a buffer is not a valid memory reservation block.
#[derive(Debug, Eq, PartialEq, Clone, Copy)]
pub enum MemoryReservationFormatError {
    /// The block is not aligned to an 8-byte boundary.
    InvalidAlignment,
    /// The block is smaller than 16 bytes.
    BufferTooSmall,
    /// The block does not contain a proper terminator.
    NoTerminator,
}

/// The entries that iterating over `s` from position `pos` yields.
///
/// Each entry is 16 bytes (address, size). Iteration stops at the all-zero terminator entry,
/// and also after an entry that is followed by fewer than 16 bytes.
pub open spec fn rsv_entries_from(s: Seq<u8>, pos: int) -> Seq<(u64, u64)>
    decreases s.len() - pos,
{
    if pos < 0 || pos + 16 > s.len() {
        seq![]
    } else {
        let a = be_u64_at(s, pos);
        let z = be_u64_at(s, pos + 8);
        if a == 0 && z == 0 {
            seq![]
        } else if s.len() - (pos + 16) < 16 {
            seq![(a, z)]
        } else {
            seq![(a, z)] + rsv_entries_from(s, pos + 16)
        }
    }
}

/// The bytes of the memory reservation block found at the start of `s` placed at address
/// `addr`: everything up to and including the terminator entry.
pub open spec fn rsv_block_parse(s: Seq<u8>, addr: int) -> Result<
    Seq<u8>,
    MemoryReservationFormatError,
> {
    if addr % 8 != 0 {
        Err(MemoryReservationFormatError::InvalidAlignment)
    } else if s.len() < 16 {
        Err(MemoryReservationFormatError::BufferTooSmall)
    } else if 16 * (rsv_entries_from(s, 0).len() + 1) <= s.len() {
        Ok(s.subrange(0, 16 * (rsv_entries_from(s, 0).len() + 1) as int))
    } else {
        Err(MemoryReservationFormatError::NoTerminator)
    }
}

/// Cutting the buffer off after the terminator of the reservation block leaves the entries
/// read from `pos` as they were.
pub proof fn lemma_rsv_truncate(s: Seq<u8>, pos: int, m: int)
    requires
        0 <= pos,
        pos + 16 * (rsv_entries_from(s, pos).len() + 1) <= m <= s.len(),
    ensures
        rsv_entries_from(s.subrange(0, m), pos) == rsv_entries_from(s, pos),
    decreases s.len() - pos,
{
    let t = s.subrange(0, m);
    assert(be_u64_at(t, pos) == be_u64_at(s, pos));
    assert(be_u64_at(t, pos + 8) == be_u64_at(s, pos + 8));
    let a = be_u64_at(s, pos);
    let z = be_u64_at(s, pos + 8);
    if !(a == 0 && z == 0) {
        if s.len() - (pos + 16) >= 16 {
            lemma_rsv_truncate(s, pos + 16, m);
        }
    }
}

/// An iterable view of a memory reservation block.
#[derive(Debug, Eq, PartialEq)]
pub struct MemoryReservationBlock {
    bytes: Vec<u8>,
    pos: Option<usize>,
}

impl View for MemoryReservationBlock {
    type V = Seq<(u64, u64)>;

    /// The entries that are still to be iterated.
    closed spec fn view(&self) -> Seq<(u64, u64)> {
        match self.pos {
            None => seq![],
            Some(p) => rsv_entries_from(self.bytes@, p as int),
        }
    }
}

impl MemoryReservationBlock {
    /// The bytes of the block, terminator included.
    pub closed spec fn block_bytes(&self) -> Seq<u8> {
        self.bytes@
    }

    #[verifier::type_invariant]
    spec fn inv(&self) -> bool {
        self.pos matches Some(p) ==> p + 16 <= self.bytes@.len()
    }

    /// Interpret a buffer lying at the given machine address as memory reservation block.
    pub fn from_buffer_at_address(buf: &[u8], address: usize) -> (r: Result<
        MemoryReservationBlock,
        MemoryReservationFormatError,
    >)
        ensures
            match r {
                Ok(b) => rsv_block_parse(buf@, address as int) == Ok::<
                    Seq<u8>,
                    MemoryReservationFormatError,
                >(b.block_bytes()) && b@ == rsv_entries_from(buf@, 0),
                Err(e) => rsv_block_parse(buf@, address as int) == Err::<
                    Seq<u8>,
                    MemoryReservationFormatError,
                >(e),
            },
    {
        if address % 8 != 0 {
            return Err(MemoryReservationFormatError::InvalidAlignment);
        }
        let len: usize = buf.len();
        if len < 16 {
            return Err(MemoryReservationFormatError::BufferTooSmall);
        }
        let ghost s = buf@;
        let mut count: usize = 0;
        let mut pos: usize = 0;
        let mut terminated: bool = false;
        loop
            invariant_except_break
                pos + 16 <= len,
                !terminated,
                len == s.len(),
                s == buf@,
                pos == 16 * count,
                rsv_entries_from(s, 0).len() == count + rsv_entries_from(s, pos as int).len(),
            ensures
                terminated ==> pos + 16 <= len && pos == 16 * count,
                !terminated ==> 16 * (count + 1) > len,
                rsv_entries_from(s, 0).len() == count,
            decreases len - pos,
        {
            let a: u64 = read_be_u64(buf, pos);
            let z: u64 = read_be_u64(buf, pos + 8);
            if a == 0 && z == 0 {
                terminated = true;
                break ;
            }
            count = count + 1;
            if len - (pos + 16) < 16 {
                break ;
            }
            pos = pos + 16;
        }
        if !terminated {
            return Err(MemoryReservationFormatError::NoTerminator);
        }
        let block = slice_subrange(buf, 0, pos + 16);
        proof {
            lemma_rsv_truncate(s, 0, (pos + 16) as int);
        }
        Ok(MemoryReservationBlock { bytes: copy_bytes(block), pos: Some(0) })
    }

    /// Interpret a buffer as memory reservation block; the buffer must lie on an 8-byte
    /// boundary.
    pub fn from_buffer(buf: &[u8]) -> (r: Result<
        MemoryReservationBlock,
        MemoryReservationFormatError,
    >)
        ensures
            r is Ok ==> r->Ok_0@ == rsv_entries_from(buf@, 0),
            match r {
                Ok(b) => exists|addr: usize|
                    rsv_block_parse(buf@, addr as int) == Ok::<
                        Seq<u8>,
                        MemoryReservationFormatError,
                    >(b.block_bytes()),
                Err(e) => exists|addr: usize|
                    rsv_block_parse(buf@, addr as int) == Err::<
                        Seq<u8>,
                        MemoryReservationFormatError,
                    >(e),
            },
    {
        let address: usize = slice_address(buf);
        Self::from_buffer_at_address(buf, address)
    }

    /// Yield the next reserved memory region, or `None` once the terminator was reached.
    pub fn next(&mut self) -> (r: Option<MemoryReservationEntry>)
        ensures
            old(self)@.len() == 0 ==> r is None && final(self)@.len() == 0,
            old(self)@.len() > 0 ==> r == Some(
                MemoryReservationEntry { address: old(self)@[0].0, size: old(self)@[0].1 },
            ) && final(self)@ == old(self)@.drop_first(),
    {
        proof {
            use_type_invariant(&*self);
        }
        match self.pos {
            None => None,
            Some(p) => {
                let len: usize = self.bytes.len();
                let addr: u64 = read_be_u64(self.bytes.as_slice(), p);
                let size: u64 = read_be_u64(self.bytes.as_slice(), p + 8);
                if addr == 0 && size == 0 {
                    self.pos = None;
                    return None;
                } else if len - (p + 16) < 16 {
                    self.pos = None;
                } else {
                    self.pos = Some(p + 16);
                }
                proof {
                    let s = self.bytes@;
                    assert(old(self)@ == rsv_entries_from(s, p as int));
                    if len - (p + 16) >= 16 {
                        assert(old(self)@.drop_first() =~= rsv_entries_from(s, (p + 16) as int));
                    } else {
                        assert(old(self)@.drop_first() =~= Seq::<(u64, u64)>::empty());
                    }
                }
                Some(MemoryReservationEntry { address: addr, size })
            },
        }
    }
}

} // verus!
