//! The structure block: a linear encoding of the tree of nodes and their properties.

pub mod buf_tools;
pub mod node;
pub mod property;
pub mod property_value_encoding;

pub use buf_tools::{
    FDT_BEGIN_NODE, FDT_END, FDT_END_NODE, FDT_NOP, FDT_PROP, ByteSliceWithTokens,
};
