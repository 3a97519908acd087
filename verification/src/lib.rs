//! A framing protocol that carries UTF-8 text over a byte stream in frames of
//! bounded size. A frame boundary may fall inside a grapheme cluster only when
//! the earlier frame says so: it raises its continuation flag and states how
//! many bytes of the cluster are still to come.

pub mod clusters;
pub mod frame;
pub mod hex;
pub mod reader;
pub mod reassembly;
pub mod round_trip;
pub mod splitter;
pub mod writer;
