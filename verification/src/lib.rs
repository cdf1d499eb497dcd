//! Conversion between the `.ngt` text grammar format and the `.ngj` JSON
//! format of name generators, with validation and weighted sampling.

pub mod text;
pub mod model;
pub mod ngt;
pub mod json;
pub mod ngj;
pub mod sample;
pub mod cli;
pub mod ngt_roundtrip;
pub mod ngt_reading;
pub mod json_roundtrip;
pub mod ngj_roundtrip;
pub mod reload;
