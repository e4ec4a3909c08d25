//! Unsigned varint encoding (base 128, little-endian groups of seven bits,
//! high bit set on every byte but the last) and length-prefixed framing
//! built on it.

use vstd::prelude::*;

pub mod decode;
pub mod encode;
pub mod codec;
