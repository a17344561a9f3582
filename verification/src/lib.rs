pub mod file_tree;
pub mod git_status;
pub mod path;
pub mod text;
