//! Protocol levels and bus states.
use vstd::prelude::*;

verus! {

/// The CAN protocol type supported by a bus instance.
///
/// The protocol is set at bus initialization time and does not change
/// during the lifetime of a bus instance.
#[derive(Debug, Clone, Copy, PartialEq, Eq, Structural, Hash)]
pub enum CanProtocol {
    /// Classical CAN 2.0: up to 8 data bytes.
    Can20,
    /// CAN FD, ISO mode: up to 64 data bytes.
    CanFd,
    /// CAN FD, non-ISO (original Bosch) mode: up to 64 data bytes.
    CanFdNonIso,
    /// CAN XL: up to 2048 data bytes.
    CanXl,
}

/// The operational state of a CAN bus controller.
#[derive(Debug, Clone, Copy, PartialEq, Eq, Structural, Hash)]
pub enum BusState {
    /// Fully operational.
    Active,
    /// Listen-only / passive.
    Passive,
    /// Error state (bus-off or warning).
    Error,
}

impl CanProtocol {
    /// Maximum payload size of a protocol, in bytes.
    pub open spec fn spec_max_data_length(self) -> nat {
        match self {
            CanProtocol::Can20 => 8,
            CanProtocol::CanFd | CanProtocol::CanFdNonIso => 64,
            CanProtocol::CanXl => 2048,
        }
    }

    /// Returns the maximum data payload size in bytes for this protocol.
    pub fn max_data_length(&self) -> (n: usize)
        ensures
            n == self.spec_max_data_length(),
    {
        match self {
            CanProtocol::Can20 => 8,
            CanProtocol::CanFd | CanProtocol::CanFdNonIso => 64,
            CanProtocol::CanXl => 2048,
        }
    }

    /// Returns whether this protocol supports CAN FD or higher.
    pub fn is_fd_or_higher(&self) -> (b: bool)
        ensures
            b == !(*self is Can20),
    {
        match self {
            CanProtocol::Can20 => false,
            _ => true,
        }
    }

    /// Returns whether this protocol is CAN XL.
    pub fn is_xl(&self) -> (b: bool)
        ensures
            b == (*self is CanXl),
    {
        match self {
            CanProtocol::CanXl => true,
            _ => false,
        }
    }
}

} // verus!
