//! CAN bus data model, acceptance filters, bit timing and ASC / BLF log
//! readers and writers, with their behaviour stated as contracts.

pub mod about;
pub mod protocol;
pub mod registry;
pub mod text;
pub mod binary64;
pub mod bit_timing;
pub mod asc;
pub mod bench;
pub mod cyclic;
pub mod dispatch;
pub mod blf;
pub mod error;
pub mod message;
pub mod event;
mod external;
pub mod filter;
pub mod frame;
pub mod listener;
pub mod log_format;
pub mod player;
pub mod prof;
pub mod virtual_bus;
