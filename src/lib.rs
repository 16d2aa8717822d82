//! Length-prefixed framing: each payload travels behind its byte length,
//! written as an unsigned LEB128 varint.

use vstd::prelude::*;

pub mod buf;
pub mod codec;
pub mod varint;

pub use codec::{CodecError, UviCodec};
