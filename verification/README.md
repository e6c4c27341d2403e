# support_crates

Support libraries for a small RISC-V kernel, written in Verus and verified.

- `allocators`: memory layouts, the allocator interface, a boundary tag allocator (chunks
  delimited by begin- and end-tags in the backing memory), bump allocators, a free-list arena
  of same-sized blocks, and boxes whose blocks come from an allocator.
- `memory`: a memory of same-sized blocks handed out one at a time or in runs.
- `derivation_tree`: capabilities derived from each other, kept as one ordered list with a
  depth per node and reached through a fixed set of cursors; linked lists and chains of
  handles that it builds on.
- `fdt`: a parser for flattened device trees (header, memory reservations, strings and the
  structure block).
- `ctors`, `ksync`, `regs`, `klog`, `sifive_shutdown`: constructors into slots, a spin lock,
  typed hardware registers, the kernel logger's settings and the test device's shutdown codes.

The library in `src/` holds the logic and its proofs; `app/` holds what needs the machine or
outside traits: the SBI console, the global allocator and logger glue, and raw pointer entry
points.
