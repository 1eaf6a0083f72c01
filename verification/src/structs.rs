//! The data model: sizes, materials, colours, records and parse failures.

pub mod color;
pub mod dimensions;
pub mod material;
pub mod order;
pub mod parse_stcker_error;
pub mod sticker;
