//! Finding the longest mission in a noisy pipe-delimited space mission log,
//! with the pieces that a host and a WebAssembly skill share: line parsing,
//! the selection rule, the result encoding, and the packing of result
//! buffers.
pub mod bench;
pub mod host;
pub mod mission;
pub mod number;
pub mod run;
pub mod skill;
pub mod text;

pub use mission::{find_longest, parse_line, Best, Mission};
