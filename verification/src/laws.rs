//! What holds of the library as a whole.

pub mod content;
pub mod dir_runs;
pub mod file_runs;
pub mod names;
pub mod shown;
