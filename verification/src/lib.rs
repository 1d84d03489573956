pub mod file_handler;
pub mod fs;
pub mod journal;
pub mod laws;
pub mod mem;
pub mod page_list;
pub mod page_rw;
