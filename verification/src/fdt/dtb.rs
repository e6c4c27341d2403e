//! Parsing a flattened device tree as a whole.

use vstd::prelude::*;
use crate::address::slice_address;
use crate::fdt::header::{header_parse, FdtHeader, HeaderReadError};
use crate::fdt::memory_reservation::{
    rsv_block_parse, rsv_entries_from, MemoryReservationBlock, MemoryReservationFormatError,
};
use crate::fdt::strings::Strings;
use crate::fdt::structure::node::{parse_node, NodeStructureError, StructParse, StructureNode};
use vstd::slice::slice_subrange;

verus! {

/// The errors that can occur when parsing a flattened device tree.
#[derive(Debug, Eq, PartialEq, Clone, Copy)]
pub enum FdtError {
    /// The header could not be parsed.
    HeaderParseError(HeaderReadError),
    /// The memory reservation block could not be parsed.
    MemoryReservationError(MemoryReservationFormatError),
    /// The structure block could not be parsed.
    StructureError(NodeStructureError),
}

/// A flattened device tree that has been parsed from an underlying buffer.
#[derive(Debug)]
pub struct FlattenedDeviceTree {
    /// Metadata about the device tree.
    pub header: FdtHeader,
    /// Areas of system memory which are reserved.
    pub memory_reservations: MemoryReservationBlock,
    /// Structure information about the device and its hardware.
    pub structure: StructureNode,
}

/// The strings block of a blob with header `h`.
pub open spec fn strings_block(s: Seq<u8>, h: FdtHeader) -> Seq<u8> {
    s.subrange(h.off_dt_strings as int, h.off_dt_strings + h.size_dt_strings)
}

/// The structure block of a blob with header `h`.
pub open spec fn structure_block(s: Seq<u8>, h: FdtHeader) -> Seq<u8> {
    s.subrange(h.off_dt_struct as int, h.off_dt_struct + h.size_dt_struct)
}

/// Whether parsing the blob `s` (lying on an 8-byte boundary) only looks at bytes within it:
/// the blocks that the header names lie inside the buffer and the structure block can be read
/// without running past its end.
pub open spec fn fdt_within_bounds(s: Seq<u8>) -> bool {
    header_parse(s, 0) matches Ok(h) ==> {
        &&& h.off_mem_rsvmap <= s.len()
        &&& rsv_block_parse(
            s.subrange(h.off_mem_rsvmap as int, s.len() as int),
            h.off_mem_rsvmap as int,
        ) is Ok ==> {
            &&& h.off_dt_strings + h.size_dt_strings <= s.len()
            &&& h.off_dt_struct + h.size_dt_struct <= s.len()
            &&& !(parse_node(structure_block(s, h), strings_block(s, h)) is OutOfBounds)
        }
    }
}

/// The address `addr + off`, wrapping around at the end of the address space.
fn offset_address(addr: usize, off: usize) -> (r: usize)
    ensures
        r % 8 == (addr + off) % 8,
{
    if off <= usize::MAX - addr {
        addr + off
    } else {
        assert((usize::MAX as int + 1) % 8 == 0);
        addr - (usize::MAX - off) - 1
    }
}

/// `r` is what parsing the device tree in `buf`, which lies at address `addr`, gives: the
/// header's error, the memory reservation block's error, the structure block's error, or a tree
/// with the header, the reservations and the root node that the buffer holds.
pub open spec fn fdt_parsed(buf: Seq<u8>, addr: int, r: Result<FlattenedDeviceTree, FdtError>) -> bool {
    match header_parse(buf, addr) {
        Err(e) => r == Err::<FlattenedDeviceTree, FdtError>(FdtError::HeaderParseError(e)),
        Ok(h) => {
            let rsv = buf.subrange(h.off_mem_rsvmap as int, buf.len() as int);
            match rsv_block_parse(rsv, h.off_mem_rsvmap as int) {
                Err(e) => r == Err::<FlattenedDeviceTree, FdtError>(
                    FdtError::MemoryReservationError(e),
                ),
                Ok(_) => match parse_node(
                    structure_block(buf, h),
                    strings_block(buf, h),
                ) {
                    StructParse::Node(_, name, pb, pe, ce) => if name.len() == 0 {
                        r matches Ok(t) && t.header == h && t.memory_reservations@
                            == rsv_entries_from(rsv, 0) && t.structure@ == (
                            name,
                            pb,
                            pe,
                            ce,
                        ) && t.structure.block_view() == structure_block(buf, h)
                            && t.structure.strings_view() == strings_block(buf, h)
                    } else {
                        r == Err::<FlattenedDeviceTree, FdtError>(
                            FdtError::StructureError(
                                NodeStructureError::InvalidRootNodeName,
                            ),
                        )
                    },
                    StructParse::Failed(e) => r == Err::<FlattenedDeviceTree, FdtError>(
                        FdtError::StructureError(e),
                    ),
                    _ => false,
                },
            }
        },
    }
}

impl FlattenedDeviceTree {
    /// Parse a flattened device tree from a buffer that lies at the given machine address.
    #[verifier::rlimit(100)]
    pub fn from_buffer_at_address(buf: &[u8], address: usize) -> (r: Result<
        FlattenedDeviceTree,
        FdtError,
    >)
        requires
            fdt_within_bounds(buf@),
        ensures
            fdt_parsed(buf@, address as int, r),
    {
        let header = match FdtHeader::read_from_buffer_at_address(buf, address) {
            Ok(h) => h,
            Err(e) => {
                return Err(FdtError::HeaderParseError(e));
            },
        };
        let len: usize = buf.len();
        let off_mem: usize = header.off_mem_rsvmap as usize;
        let rsv = slice_subrange(buf, off_mem, len);
        let memory_reservations = match MemoryReservationBlock::from_buffer_at_address(
            rsv,
            offset_address(address, off_mem),
        ) {
            Ok(b) => b,
            Err(e) => {
                return Err(FdtError::MemoryReservationError(e));
            },
        };
        let off_str: usize = header.off_dt_strings as usize;
        let size_str: usize = header.size_dt_strings as usize;
        let strings = Strings::from_buffer(slice_subrange(buf, off_str, off_str + size_str));
        let off_struct: usize = header.off_dt_struct as usize;
        let size_struct: usize = header.size_dt_struct as usize;
        let structure = match StructureNode::from_buffer_as_root(
            slice_subrange(buf, off_struct, off_struct + size_struct),
            &strings,
        ) {
            Ok(node) => node,
            Err(e) => {
                return Err(FdtError::StructureError(e));
            },
        };
        Ok(FlattenedDeviceTree { header, memory_reservations, structure })
    }

    /// Parse a flattened device tree from a buffer; the buffer must lie on an 8-byte boundary.
    pub fn from_buffer(buf: &[u8]) -> (r: Result<FlattenedDeviceTree, FdtError>)
        requires
            fdt_within_bounds(buf@),
        ensures
            exists|addr: usize| fdt_parsed(buf@, addr as int, r),
            r != Err::<FlattenedDeviceTree, FdtError>(
                FdtError::HeaderParseError(HeaderReadError::InvalidAlignment),
            ) ==> fdt_parsed(buf@, 0, r),
    {
        let address: usize = slice_address(buf);
        let r = Self::from_buffer_at_address(buf, address);
        proof {
            if address % 8 == 0 {
                assert(header_parse(buf@, address as int) == header_parse(buf@, 0));
            }
        }
        r
    }
}

} // verus!
