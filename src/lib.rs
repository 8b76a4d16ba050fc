//! A small task list: tasks with monotonically allocated ids, kept in a
//! store that reads and writes a line-oriented text file.
pub mod text;
pub mod timestamp;
pub mod task;
pub mod store;
pub mod command;
pub mod table;
