//! A small gateway core that answers "how much power did device X use on
//! day D": it decodes request parameters into a query, prepares two
//! point-in-time backend lookups (the requested instant and 24 hours
//! earlier), orders and groups the returned samples per instance, pairs the
//! two days positionally, and renders the result as delimited text.

pub mod align;
pub mod backend;
pub mod decode;
pub mod errors;
pub mod floatlit;
pub mod gateway;
pub mod numeric;
pub mod render;
