//! A small RISC-V (Sv39) teaching kernel's core logic: page numbers, a bitmap
//! page-frame allocator, the three-level page table, the trap and task state,
//! and the decisions the kernel takes on each trap.
use vstd::prelude::*;

pub mod addr;
pub mod ppn_manager;
pub mod register;
pub mod trap;
pub mod ecall;
pub mod syscall;
pub mod serial_io;
pub mod logger;
pub mod switch;
pub mod time;
pub mod elf;
pub mod task;
pub mod task_manager;
pub mod kernel_map;
pub mod physical_mm_manager;
pub mod user;
pub mod sv39;
pub mod page_table;
pub mod raw_page;
pub mod section;
pub mod programs;
