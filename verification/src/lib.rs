pub mod helpers;
pub mod fs;
pub mod text;
pub mod library;
pub mod gpt;
pub mod syscalls;
pub mod scheduling;
pub mod loader;
pub mod memory;
pub mod lemoncc;
