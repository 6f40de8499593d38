//! Memory management and trap handling logic of a small RISC-V teaching kernel.

pub mod consts;
pub mod context;
pub mod interrupt;
pub mod memory;
pub mod timer;
pub mod init;
