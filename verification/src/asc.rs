//! Vector ASC text logs: parsing lines into events, counting frames,
//! reading whole logs and writing events as lines.

pub mod syntax;
pub mod timestamp;
pub mod seconds;
pub mod parse;
pub mod scan;
pub mod reader;
pub mod writer;
pub mod laws;
pub mod readback;
pub mod counting;
