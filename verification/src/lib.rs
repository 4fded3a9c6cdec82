//! Index of OS development specifications: the `data.md` format, its parser,
//! and the generated HTML index, download script and hash index.

pub mod download;
pub mod index;
pub mod laws;
pub mod links;
pub mod model;
pub mod order;
pub mod parse;
pub mod render;
pub mod report;
pub mod sort;
pub mod text;
pub mod watch;
