//! The strip's wire format and the connection to the broker.

use vstd::prelude::*;

pub mod fake;
pub mod laws;
pub mod mqtt;
pub mod protocol;

verus! {

/// The state of the connection.
#[derive(Clone, Copy, Debug, PartialEq, Eq, Structural)]
pub enum OutputState {
    Connecting,
    Connected,
    Disconnected,
    Failed,
}

} // verus!
