//! Error type for lattice-bridge.

use vstd::prelude::*;

verus! {

/// The errors of the library; each carries its message.
#[derive(Debug)]
pub enum BridgeError {
    Io(String),
    OwlParse(String),
    Json(String),
    Registry(String),
    Other(String),
}

} // verus!
