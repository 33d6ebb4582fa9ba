//! Memory-management and program-loading core of a minimal 64-bit kernel:
//! a bitmap allocator for physical frames, an ELF64 image parser, and the
//! address-space and task descriptors that compose them.

pub mod bitops;
pub mod bytes;
pub mod elf;
pub mod pmm;
pub mod task;
