pub mod allocator;
pub mod commit_diff_util;
pub mod ids;
pub mod layout;
pub mod refs;
pub mod repository_manager;
pub mod text;
pub mod railway;
pub mod laws;
