//! What every heap shares: names, and the compiled core library.

pub mod core_image;
pub mod symbols;
