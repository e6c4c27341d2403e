//! Device-Tree-Blob (flattened device tree) handling.
//!
//! A DTB consists of a small header followed by the memory reservation block,
//! the structure block and the strings block.

pub mod dtb;
pub mod encoding;
pub mod header;
pub mod memory_reservation;
pub mod strings;
pub mod structure;

pub use strings::{Strings, StringsError};
pub use header::{FdtHeader, HeaderReadError};
pub use memory_reservation::{MemoryReservationBlock, MemoryReservationEntry, MemoryReservationFormatError};
pub use dtb::{FdtError, FlattenedDeviceTree};
pub use structure::node::{NodeIter, NodeStructureError, StructureNode};
pub use structure::property::{NodeProperty, PropertyIter, PropertyParseError};
pub use structure::property_value_encoding::{InvalidValueLength, StringError, StringListIterator};
