//! Vector BLF reader and writer for CAN and CAN FD log objects.
//!
//! A BLF file is a file header (`LOGG`) followed by objects (`LOBJ`). Log
//! container objects hold, possibly zlib-compressed, a stream of further
//! objects; CAN, CAN FD and CAN FD 64 message objects become events. An
//! object may be split across two containers: the unparsed end of one
//! container (its tail) is parsed together with the next one.

pub mod codec;
pub mod objects;
pub mod reader;
pub mod scan;
pub mod writer;
pub mod laws;
