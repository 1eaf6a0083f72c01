//! Catalogue of printed label designs, derived from the free-form names of
//! design files.
//!
//! A name is read field by field: the code, the sizes held against the
//! approved sizes, the description, the material and the colour. A name
//! with several sizes yields one record for each. A name without a code
//! is recovered from the records whose description is like its own. The
//! records are then grouped by code, each design once, and held against
//! the order list.

pub mod catalog;
pub mod configs;
pub mod excel;
pub mod parser;
pub mod round_trip;
pub mod similarity;
pub mod structs;
pub mod text;
