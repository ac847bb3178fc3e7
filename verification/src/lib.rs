//! Natural-order comparison of text: a run of ASCII decimal digits counts as
//! one number, so that "item2" comes before "item12". Of two digit runs the
//! longer one is the greater, leading zeros included, and runs of one length
//! go by their digits; all other bytes are compared by value.
//!
//! - [`natural_cmp`] compares in a single pass over both texts;
//! - [`natural_cmp_old`] compares chunk by chunk, with [`natural_chunk`]
//!   cutting the chunks;
//! - `order` defines the two orders that these compute, `laws` proves what
//!   holds of them and on which texts they are one.

pub mod by_chunks;
pub mod chunk;
pub mod laws;
pub mod order;
pub mod rank;
pub mod scan;
pub mod single_pass;

pub use crate::by_chunks::natural_cmp_old;
pub use crate::chunk::{natural_chunk, Chunk};
pub use crate::single_pass::natural_cmp;
