//! The logic of a small RISC-V (Sv32) kernel over an explicit machine state:
//! physical memory and page tables, the process table and its cooperative
//! scheduler, trap and system-call handling, the virtio block driver and the
//! tar-backed file store.

pub mod common;
pub mod fs;
pub mod hart;
pub mod kernel;
pub mod memory;
pub mod process;
pub mod sbi;
pub mod space;
pub mod usermem;
pub mod virtio;
