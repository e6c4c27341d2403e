//! Verified building blocks for a small kernel: allocators, a flattened device
//! tree parser, capability derivation bookkeeping and a few device helpers.

mod address;
pub mod fdt;
pub mod allocators;
pub mod ctors;
pub mod derivation_tree;
pub mod klog;
pub mod ksync;
pub mod memory;
pub mod regs;
pub mod sifive_shutdown;
