use vstd::prelude::*;

pub mod args;
pub mod base64_encode;
pub mod common_prefix;
pub mod execute;
pub mod line_transform_writer;
pub mod parse;
pub mod source;
pub mod text;
pub mod utils;

verus! {
} // verus!
