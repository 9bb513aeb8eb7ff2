//! Decoder for recorded game replays: the file envelope, the cipher chain
//! and deflate stage of its binary segment, and the framed packet stream.

pub mod definitions;
pub mod encryption;
pub mod error;
pub mod inflate;
pub mod json;
pub mod labels;
pub mod packet_stream;
pub mod parser;
pub mod reader;
pub mod sources;
pub mod types;

pub use parser::Parser;
pub use types::Replay;
