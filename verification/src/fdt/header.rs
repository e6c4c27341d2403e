//! The FDT header at the start of every device tree blob.

use vstd::prelude::*;
use crate::fdt::encoding::{be_u32_at, read_be_u32};
use crate::address::slice_address;

verus! {

/// The value of the `magic` field of every FDT header.
pub const HEADER_MAGIC: u32 = 0xd00d_feed;

/// The size in bytes of an encoded FDT header (ten big-endian `u32` fields).
pub const HEADER_SIZE: usize = 40;

/// Errors that can occur when reading the FDT header.
#[derive(Debug, Eq, PartialEq, Clone, Copy)]
pub enum HeaderReadError {
    /// The buffer did not contain the required magic bytes at the start.
    InvalidMagic,
    /// The buffer did not contain enough bytes to read a header from it.
    BufferTooSmall,
    /// The blob is encoded using an unsupported version (version, last compatible version).
    UnsupportedVersion(u32, u32),
    /// The blob is not aligned to an 8-byte boundary.
    InvalidAlignment,
}

/// The FDT header; all fields are stored as big-endian `u32` in the blob.
#[derive(Debug, Eq, PartialEq, Clone, Copy)]
pub struct FdtHeader {
    /// Always `0xd00dfeed`.
    pub magic: u32,
    /// Total size in bytes of the devicetree data structure.
    pub total_size: u32,
    /// Offset in bytes of the structure block from the start of the header.
    pub off_dt_struct: u32,
    /// Offset in bytes of the strings block from the start of the header.
    pub off_dt_strings: u32,
    /// Offset in bytes of the memory reservation block from the start of the header.
    pub off_mem_rsvmap: u32,
    /// Version of the devicetree data structure.
    pub version: u32,
    /// Lowest version with which the used version is backwards compatible (always 16).
    pub last_comp_version: u32,
    /// Physical ID of the system's boot CPU.
    pub boot_cpuid_phys: u32,
    /// Length in bytes of the strings block.
    pub size_dt_strings: u32,
    /// Length in bytes of the structure block.
    pub size_dt_struct: u32,
}

/// The header whose fields are the ten big-endian words at the start of `s`.
pub open spec fn header_fields(s: Seq<u8>) -> FdtHeader {
    FdtHeader {
        magic: be_u32_at(s, 0),
        total_size: be_u32_at(s, 4),
        off_dt_struct: be_u32_at(s, 8),
        off_dt_strings: be_u32_at(s, 12),
        off_mem_rsvmap: be_u32_at(s, 16),
        version: be_u32_at(s, 20),
        last_comp_version: be_u32_at(s, 24),
        boot_cpuid_phys: be_u32_at(s, 28),
        size_dt_strings: be_u32_at(s, 32),
        size_dt_struct: be_u32_at(s, 36),
    }
}

/// The outcome of reading a header from `s` placed at address `addr`.
///
/// Fields are read one after the other, so a buffer that ends early is only reported as too
/// small once the checks on the fields read before succeeded.
pub open spec fn header_parse(s: Seq<u8>, addr: int) -> Result<FdtHeader, HeaderReadError> {
    if addr % 8 != 0 {
        Err(HeaderReadError::InvalidAlignment)
    } else if s.len() < 4 {
        Err(HeaderReadError::BufferTooSmall)
    } else if be_u32_at(s, 0) != HEADER_MAGIC {
        Err(HeaderReadError::InvalidMagic)
    } else if s.len() < 28 {
        Err(HeaderReadError::BufferTooSmall)
    } else if be_u32_at(s, 24) != 16 {
        Err(HeaderReadError::UnsupportedVersion(be_u32_at(s, 20), be_u32_at(s, 24)))
    } else if s.len() < 40 {
        Err(HeaderReadError::BufferTooSmall)
    } else {
        Ok(header_fields(s))
    }
}

/// The number that the four bytes of `s` from `i` on encode, most significant byte first.
pub open spec fn big_endian_word(s: Seq<u8>, i: int) -> int {
    s[i] * 0x100_0000 + s[i + 1] * 0x1_0000 + s[i + 2] * 0x100 + s[i + 3]
}

/// A header read from a buffer takes each field from its fixed place in the layout of the
/// devicetree header: the ten big-endian words at byte offsets 0, 4, ..., 36, in the order
/// magic, total size, structure offset, strings offset, reservation map offset, version, last
/// compatible version, boot CPU, strings size and structure size.
pub proof fn lemma_header_fields_at_offsets(s: Seq<u8>, addr: int)
    requires
        header_parse(s, addr) is Ok,
    ensures
        s.len() >= 40,
        header_parse(s, addr)->Ok_0.magic == big_endian_word(s, 0),
        header_parse(s, addr)->Ok_0.total_size == big_endian_word(s, 4),
        header_parse(s, addr)->Ok_0.off_dt_struct == big_endian_word(s, 8),
        header_parse(s, addr)->Ok_0.off_dt_strings == big_endian_word(s, 12),
        header_parse(s, addr)->Ok_0.off_mem_rsvmap == big_endian_word(s, 16),
        header_parse(s, addr)->Ok_0.version == big_endian_word(s, 20),
        header_parse(s, addr)->Ok_0.last_comp_version == big_endian_word(s, 24),
        header_parse(s, addr)->Ok_0.boot_cpuid_phys == big_endian_word(s, 28),
        header_parse(s, addr)->Ok_0.size_dt_strings == big_endian_word(s, 32),
        header_parse(s, addr)->Ok_0.size_dt_struct == big_endian_word(s, 36),
        big_endian_word(s, 0) == HEADER_MAGIC,
        big_endian_word(s, 24) == 16,
{
}

impl FdtHeader {
    /// Try to read a header from a buffer which lies at the given machine address.
    pub fn read_from_buffer_at_address(buf: &[u8], address: usize) -> (r: Result<
        FdtHeader,
        HeaderReadError,
    >)
        ensures
            r == header_parse(buf@, address as int),
            r matches Ok(h) ==> {
                &&& h.magic == big_endian_word(buf@, 0)
                &&& h.total_size == big_endian_word(buf@, 4)
                &&& h.off_dt_struct == big_endian_word(buf@, 8)
                &&& h.off_dt_strings == big_endian_word(buf@, 12)
                &&& h.off_mem_rsvmap == big_endian_word(buf@, 16)
                &&& h.version == big_endian_word(buf@, 20)
                &&& h.last_comp_version == big_endian_word(buf@, 24)
                &&& h.boot_cpuid_phys == big_endian_word(buf@, 28)
                &&& h.size_dt_strings == big_endian_word(buf@, 32)
                &&& h.size_dt_struct == big_endian_word(buf@, 36)
            },
    {
        if address % 8 != 0 {
            return Err(HeaderReadError::InvalidAlignment);
        }
        let len: usize = buf.len();
        if len < 4 {
            return Err(HeaderReadError::BufferTooSmall);
        }
        let magic: u32 = read_be_u32(buf, 0);
        if magic != HEADER_MAGIC {
            return Err(HeaderReadError::InvalidMagic);
        }
        if len < 28 {
            return Err(HeaderReadError::BufferTooSmall);
        }
        let total_size: u32 = read_be_u32(buf, 4);
        let off_dt_struct: u32 = read_be_u32(buf, 8);
        let off_dt_strings: u32 = read_be_u32(buf, 12);
        let off_mem_rsvmap: u32 = read_be_u32(buf, 16);
        let version: u32 = read_be_u32(buf, 20);
        let last_comp_version: u32 = read_be_u32(buf, 24);
        if last_comp_version != 16 {
            return Err(HeaderReadError::UnsupportedVersion(version, last_comp_version));
        }
        if len < 40 {
            return Err(HeaderReadError::BufferTooSmall);
        }
        let boot_cpuid_phys: u32 = read_be_u32(buf, 28);
        let size_dt_strings: u32 = read_be_u32(buf, 32);
        let size_dt_struct: u32 = read_be_u32(buf, 36);
        Ok(FdtHeader {
            magic,
            total_size,
            off_dt_struct,
            off_dt_strings,
            off_mem_rsvmap,
            version,
            last_comp_version,
            boot_cpuid_phys,
            size_dt_strings,
            size_dt_struct,
        })
    }

    /// Try to read a header from a buffer; the buffer must lie on an 8-byte boundary.
    pub fn read_from_buffer(buf: &[u8]) -> (r: Result<FdtHeader, HeaderReadError>)
        ensures
            exists|addr: usize| r == header_parse(buf@, addr as int),
            r != Err::<FdtHeader, HeaderReadError>(HeaderReadError::InvalidAlignment) ==> r
                == header_parse(buf@, 0),
    {
        let address: usize = slice_address(buf);
        Self::read_from_buffer_at_address(buf, address)
    }
}

} // verus!
