pub mod free_space_manager;
pub mod format;
pub mod metadata;
pub mod write_buffer;
pub mod blocks;
