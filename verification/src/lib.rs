//! A decoder and length-prefix codec for RLP (recursive length prefix),
//! the binary encoding in which every value is either a byte string or a
//! list of further values, each preceded by a compact length header.

pub mod error;
pub mod de;
pub mod rlp;
