//! Keyword search over the lines of text files, with the paging and
//! navigation state of a terminal viewer for the results.

pub mod config;
pub mod search;
pub mod data_struct;
pub mod content_check;
pub mod show;
pub mod highlight;
pub mod file_read;
