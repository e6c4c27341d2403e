use support_crates::fdt::structure::{FDT_BEGIN_NODE, FDT_END, FDT_END_NODE, FDT_PROP};
use support_crates::fdt::{
    FdtHeader, HeaderReadError, MemoryReservationBlock, MemoryReservationEntry, NodeProperty,
    PropertyIter, StructureNode, Strings,
};

/// A buffer on the heap, whose first byte the global allocator places at an address that is a
/// multiple of 8.
/// A zeroed byte buffer whose first byte lies at an address that is a multiple of 8.
pub struct AlignedBuffer {
    mem: Vec<u8>,
    start: usize,
    len: usize,
}

impl AlignedBuffer {
    pub fn new(len: usize) -> Self {
        let mem = vec![0u8; len + 8];
        let start = (8 - mem.as_ptr() as usize % 8) % 8;
        AlignedBuffer { mem, start, len }
    }

    pub fn bytes(&self) -> &[u8] {
        &self.mem[self.start..self.start + self.len]
    }

    pub fn bytes_mut(&mut self) -> &mut [u8] {
        &mut self.mem[self.start..self.start + self.len]
    }
}

const HEADER_MAGIC: u32 = 0xd00dfeed;
const HEADER_SIZE: usize = 40;

fn count_props(mut iter: PropertyIter) -> usize {
    let mut n = 0;
    while iter.next().is_some() {
        n += 1;
    }
    n
}

fn nth_prop(mut iter: PropertyIter, n: usize) -> Option<NodeProperty> {
    for _ in 0..n {
        iter.next()?;
    }
    iter.next()
}

#[test]
fn read_from_buffer_fails_if_buffer_too_small() {
    let buf = AlignedBuffer::new(2);
    assert_eq!(
        FdtHeader::read_from_buffer(buf.bytes()),
        Err(HeaderReadError::BufferTooSmall)
    );
}

#[test]
fn read_from_buffer_fails_with_invalid_magic_bytes() {
    let buf = AlignedBuffer::new(HEADER_SIZE);
    assert_eq!(
        FdtHeader::read_from_buffer(buf.bytes()),
        Err(HeaderReadError::InvalidMagic)
    )
}

#[test]
fn read_from_buffer_fails_with_invalid_version() {
    let mut buf = AlignedBuffer::new(HEADER_SIZE);
    buf.bytes_mut()[0] = 0xd0;
    buf.bytes_mut()[1] = 0x0d;
    buf.bytes_mut()[2] = 0xfe;
    buf.bytes_mut()[3] = 0xed;
    buf.bytes_mut()[5 * 4 + 3] = 0x02;
    buf.bytes_mut()[6 * 4 + 3] = 0x01;
    assert_eq!(
        FdtHeader::read_from_buffer(buf.bytes()),
        Err(HeaderReadError::UnsupportedVersion(0x02, 0x01)),
    )
}

#[test]
fn read_from_buffer_succeeds() {
    let mut buf = AlignedBuffer::new(HEADER_SIZE);
    buf.bytes_mut()[0] = 0xd0;
    buf.bytes_mut()[1] = 0x0d;
    buf.bytes_mut()[2] = 0xfe;
    buf.bytes_mut()[3] = 0xed;
    buf.bytes_mut()[5 * 4 + 3] = 17;
    buf.bytes_mut()[6 * 4 + 3] = 16;
    assert_eq!(
        FdtHeader::read_from_buffer(buf.bytes()),
        Ok(FdtHeader {
            magic: HEADER_MAGIC,
            total_size: 0,
            off_dt_struct: 0,
            off_dt_strings: 0,
            off_mem_rsvmap: 0,
            version: 17,
            last_comp_version: 16,
            boot_cpuid_phys: 0,
            size_dt_strings: 0,
            size_dt_struct: 0,
        }),
    )
}

#[test]
fn read_from_buffer_rejects_misaligned_address() {
    let buf = AlignedBuffer::new(HEADER_SIZE);
    assert_eq!(
        FdtHeader::read_from_buffer_at_address(buf.bytes(), 4),
        Err(HeaderReadError::InvalidAlignment)
    );
}

#[test]
fn memory_reservation_iteration_works_if_valid() {
    let mut buf = AlignedBuffer::new(32);
    buf.bytes_mut()[0..8].copy_from_slice(&1u64.to_be_bytes());
    buf.bytes_mut()[8..16].copy_from_slice(&2u64.to_be_bytes());
    buf.bytes_mut()[16..24].fill(0);
    buf.bytes_mut()[24..32].fill(0);

    let mut block = MemoryReservationBlock::from_buffer(buf.bytes()).unwrap();
    let mut entries = Vec::new();
    while let Some(e) = block.next() {
        entries.push(e);
    }
    assert_eq!(entries, vec![MemoryReservationEntry { address: 1, size: 2 }])
}

#[test]
fn memory_reservation_without_terminator_is_rejected() {
    let mut buf = AlignedBuffer::new(24);
    buf.bytes_mut()[0..8].copy_from_slice(&1u64.to_be_bytes());
    buf.bytes_mut()[8..16].copy_from_slice(&2u64.to_be_bytes());
    assert_eq!(
        MemoryReservationBlock::from_buffer_at_address(buf.bytes(), 0),
        Err(support_crates::fdt::MemoryReservationFormatError::NoTerminator)
    );
}

#[test]
fn from_buffer_as_root_works_with_empty_node() {
    let strings = Strings::from_buffer(&[]);
    let mut buf = [0u8; 16];
    buf[0..4].copy_from_slice(&FDT_BEGIN_NODE.to_be_bytes());
    buf[4..8].copy_from_slice(b"\0\0\0\0");
    buf[8..12].copy_from_slice(&FDT_END_NODE.to_be_bytes());
    buf[12..16].copy_from_slice(&FDT_END.to_be_bytes());

    let node = StructureNode::from_buffer_as_root(&buf, &strings).unwrap();
    assert_eq!(node.name(), "");
    assert_eq!(count_props(node.props()), 0);
}

#[test]
fn from_buffer_as_root_works_with_props_only_node() {
    let strings = Strings::from_buffer(b"test\0");
    let mut buf = [0u8; 36];
    buf[0..4].copy_from_slice(&FDT_BEGIN_NODE.to_be_bytes());
    buf[4..8].copy_from_slice(b"\0\0\0\0");
    buf[8..12].copy_from_slice(&FDT_PROP.to_be_bytes());
    buf[12..16].copy_from_slice(&2u32.to_be_bytes());
    buf[16..20].copy_from_slice(&0u32.to_be_bytes());
    buf[20..22].copy_from_slice(&[0xff, 0xff]);
    buf[22..24].copy_from_slice(&[0, 0]);
    buf[24..28].copy_from_slice(&FDT_END_NODE.to_be_bytes());
    buf[28..32].copy_from_slice(&FDT_END.to_be_bytes());

    let node = StructureNode::from_buffer_as_root(&buf, &strings).unwrap();
    assert_eq!(node.name(), "");
    assert_eq!(count_props(node.props()), 1);
    assert_eq!(nth_prop(node.props(), 0).unwrap().name, "test");
    assert_eq!(nth_prop(node.props(), 0).unwrap().value, &[0xff, 0xff]);
}

#[test]
fn from_buffer_as_root_works_with_children() {
    let strings = Strings::from_buffer(b"");
    let mut buf = [0u8; 64];
    buf[0..4].copy_from_slice(&FDT_BEGIN_NODE.to_be_bytes());
    buf[4..8].copy_from_slice(b"\0\0\0\0");
    buf[8..12].copy_from_slice(&FDT_BEGIN_NODE.to_be_bytes());
    buf[12..20].copy_from_slice(b"child\0\0\0");
    buf[20..24].copy_from_slice(&FDT_END_NODE.to_be_bytes());
    buf[24..28].copy_from_slice(&FDT_END_NODE.to_be_bytes());
    buf[28..32].copy_from_slice(&FDT_END.to_be_bytes());

    let node = StructureNode::from_buffer_as_root(&buf, &strings).unwrap();
    let mut children = node.children();
    let first = children.next().unwrap();
    assert!(children.next().is_none());
    assert_eq!(first.name(), "child");
}

#[test]
fn find_by_path_finds_nested_child() {
    let strings = Strings::from_buffer(b"");
    let mut buf = [0u8; 64];
    buf[0..4].copy_from_slice(&FDT_BEGIN_NODE.to_be_bytes());
    buf[4..8].copy_from_slice(b"\0\0\0\0");
    buf[8..12].copy_from_slice(&FDT_BEGIN_NODE.to_be_bytes());
    buf[12..16].copy_from_slice(b"cpus");
    buf[16..20].copy_from_slice(b"\0\0\0\0");
    buf[20..24].copy_from_slice(&FDT_BEGIN_NODE.to_be_bytes());
    buf[24..32].copy_from_slice(b"cpu@0\0\0\0");
    buf[32..36].copy_from_slice(&FDT_END_NODE.to_be_bytes());
    buf[36..40].copy_from_slice(&FDT_END_NODE.to_be_bytes());
    buf[40..44].copy_from_slice(&FDT_END_NODE.to_be_bytes());
    buf[44..48].copy_from_slice(&FDT_END.to_be_bytes());

    let root = StructureNode::from_buffer_as_root(&buf, &strings).unwrap();
    let cpu0 = root.children().find_by_path("/cpus/cpu@0");
    assert_eq!(cpu0.unwrap().name(), "cpu@0");
    assert!(root.children().find_by_path("/cpus/cpu@1").is_none());
    assert_eq!(root.children().find_by_path("cpus").unwrap().name(), "cpus");
}

#[test]
fn root_with_name_is_rejected() {
    let strings = Strings::from_buffer(b"");
    let mut buf = [0u8; 16];
    buf[0..4].copy_from_slice(&FDT_BEGIN_NODE.to_be_bytes());
    buf[4..8].copy_from_slice(b"ab\0\0");
    buf[8..12].copy_from_slice(&FDT_END_NODE.to_be_bytes());
    buf[12..16].copy_from_slice(&FDT_END.to_be_bytes());
    assert_eq!(
        StructureNode::from_buffer_as_root(&buf, &strings).err(),
        Some(support_crates::fdt::NodeStructureError::InvalidRootNodeName)
    );
}

#[test]
fn from_buffer_works_with_zero_size_value() {
    let strings = Strings::from_buffer(b"/test\0");
    let mut buf = [0u8; 16];
    buf[0..4].copy_from_slice(&FDT_PROP.to_be_bytes());
    buf[4..8].copy_from_slice(&0u32.to_be_bytes());
    buf[8..12].copy_from_slice(&0u32.to_be_bytes());

    let (prop_size, prop) = NodeProperty::from_buffer(&buf, &strings).unwrap();
    assert_eq!(prop_size, 12);
    assert_eq!(prop.name, "/test");
    assert!(prop.value.is_empty());
}

#[test]
fn from_buffer_works_with_u64_value() {
    let strings = Strings::from_buffer(b"/test\0");
    let mut buf = [0u8; 32];
    buf[0..4].copy_from_slice(&FDT_PROP.to_be_bytes());
    buf[4..8].copy_from_slice(&8u32.to_be_bytes());
    buf[8..12].copy_from_slice(&0u32.to_be_bytes());
    buf[12..20].copy_from_slice(&(!0u64).to_be_bytes());

    let (prop_size, prop) = NodeProperty::from_buffer(&buf, &strings).unwrap();
    assert_eq!(prop_size, 20);
    assert_eq!(prop.name, "/test");
    assert_eq!(prop.value, &(!0u64).to_be_bytes());
    assert_eq!(prop.as_u64(), Ok(!0u64));
}

#[test]
fn iterator_works_with_one_prop() {
    let strings = Strings::from_buffer(b"/test\0");
    let mut buf = [0u8; 32];
    buf[0..4].copy_from_slice(&FDT_PROP.to_be_bytes());
    buf[4..8].copy_from_slice(&8u32.to_be_bytes());
    buf[8..12].copy_from_slice(&0u32.to_be_bytes());
    buf[12..20].copy_from_slice(&(!0u64).to_be_bytes());

    let iter = PropertyIter::new(&buf, strings);
    assert_eq!(count_props(iter.clone()), 1);
    assert_eq!(nth_prop(iter.clone(), 0).unwrap().name, "/test");
    assert_eq!(nth_prop(iter.clone(), 0).unwrap().value, &(!0u64).to_be_bytes());
}

#[test]
fn iterator_works_with_two_props() {
    let strings = Strings::from_buffer(b"/test\0");
    let mut buf = [0u8; 64];
    buf[0..4].copy_from_slice(&FDT_PROP.to_be_bytes());
    buf[4..8].copy_from_slice(&8u32.to_be_bytes());
    buf[8..12].copy_from_slice(&0u32.to_be_bytes());
    buf[12..20].copy_from_slice(&(!0u64).to_be_bytes());

    buf[20..24].copy_from_slice(&FDT_PROP.to_be_bytes());
    buf[24..28].copy_from_slice(&8u32.to_be_bytes());
    buf[28..32].copy_from_slice(&0u32.to_be_bytes());
    buf[32..40].copy_from_slice(&0xABABABu64.to_be_bytes());

    let iter = PropertyIter::new(&buf, strings);
    assert_eq!(count_props(iter.clone()), 2);
    assert_eq!(nth_prop(iter.clone(), 0).unwrap().name, "/test");
    assert_eq!(nth_prop(iter.clone(), 0).unwrap().value, &(!0u64).to_be_bytes());
    assert_eq!(nth_prop(iter.clone(), 1).unwrap().name, "/test");
    assert_eq!(
        nth_prop(iter.clone(), 1).unwrap().value,
        &0xABABABu64.to_be_bytes()
    );
}

#[test]
fn property_values_decode() {
    let strings = Strings::from_buffer(b"\0");
    let mut buf = [0u8; 128];
    buf[0..4].copy_from_slice(&FDT_PROP.to_be_bytes());
    buf[4..8].copy_from_slice(&12u32.to_be_bytes());
    buf[8..12].copy_from_slice(&0u32.to_be_bytes());
    buf[12..24].copy_from_slice(b"hello\0world\0");
    let (_, prop) = NodeProperty::from_buffer(&buf, &strings).unwrap();
    let mut list = prop.as_string_list();
    assert_eq!(list.next_str(), Ok("hello".to_string()));
    assert_eq!(list.next_str(), Ok("world".to_string()));
    assert_eq!(
        list.next_str(),
        Err(support_crates::fdt::StringError::NoNullTerminator)
    );
    assert_eq!(
        prop.as_string(),
        Err(support_crates::fdt::StringError::NoNullTerminator)
    );
    assert_eq!(prop.nth_u32(0), Ok(u32::from_be_bytes(*b"hell")));
    assert_eq!(prop.nth_u32(3), Err(support_crates::fdt::InvalidValueLength));

    buf[4..8].copy_from_slice(&4u32.to_be_bytes());
    buf[12..16].copy_from_slice(&42u32.to_be_bytes());
    let (_, prop) = NodeProperty::from_buffer(&buf, &strings).unwrap();
    assert_eq!(prop.as_u32(), Ok(42));
    assert_eq!(prop.as_phandle(), Ok(42));
    assert_eq!(prop.as_u64(), Err(support_crates::fdt::InvalidValueLength));
}

#[test]
fn get_string_reports_errors() {
    let strings = Strings::from_buffer(b"hello world\0ab");
    assert_eq!(strings.get_string(0), Ok("hello world".to_string()));
    assert_eq!(strings.get_string(6), Ok("world".to_string()));
    assert_eq!(
        strings.get_string(12),
        Err(support_crates::fdt::StringsError::Unterminated(12))
    );
    assert_eq!(
        strings.get_string(20),
        Err(support_crates::fdt::StringsError::OutOfBounds(20, 14))
    );
}

#[test]
fn get_string_works() {
    let strings = Strings::from_buffer(b"hello world\0");
    let s2 = strings.get_string(0).unwrap();
    assert_eq!("hello world", s2);
}
