pub mod binary;
pub mod content;
pub mod global;
pub mod proc_heap;
