//! A teaching kernel's core logic, with its behaviour stated in contracts:
//! address arithmetic, physical frame allocation, page tables, address spaces,
//! pipes, mailboxes, stride scheduling and the system-call front end.

pub mod config;
pub mod console;
pub mod batch;
pub mod memory;
pub mod fs;
pub mod task;
pub mod timer;
pub mod syscall;
pub mod trap;
