pub mod fs;
pub mod mem;
pub mod process;
pub mod dispatch;
