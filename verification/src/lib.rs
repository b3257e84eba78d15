//! A binary codec for a length-prefixed wire format built from variable-width
//! integers, together with a framer that cuts a byte stream into packets.
//!
//! Every function in this crate carries a contract that is checked by Verus.

pub mod de;
pub mod diagnostic;
pub mod error;
pub mod frame;
pub mod laws;
pub mod mon;
pub mod player;
pub mod ser;
pub mod shape;
pub mod source;
pub mod types;
pub mod util;
pub mod varnum;
