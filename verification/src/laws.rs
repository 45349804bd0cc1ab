//! What holds of every Secretfile, of every line and of every path, stated
//! over the functions that say what reading gives.

pub mod interpolation;
pub mod line;
pub mod source;
pub mod table;
