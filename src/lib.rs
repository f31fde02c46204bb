//! A chat relay: envelopes and their line form, a broadcast bus with lag
//! detection, the registry of live connections, and the steps of a
//! connection's life on the relay, with the text selection of the client's
//! transcript.
use vstd::prelude::*;

pub mod bus;
pub mod codec;
pub mod files;
pub mod message;
pub mod registry;
pub mod relay;
pub mod selection;

verus! {

} // verus!
