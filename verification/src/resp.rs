//! The wire protocol: tokens, typed values and their encoding.

pub mod constant;
pub mod data;
pub mod data_type;
pub mod error;
pub mod token;
pub mod util;
pub mod value;
