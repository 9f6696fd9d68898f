//! Conversion of `mega-ls -l -r` listings into `path,size,date time` records.

pub mod number;
pub mod text;
pub mod listing;
pub mod target;
pub mod rows;
