use vstd::prelude::*;

pub mod env_action;
pub mod env_process_interface;
pub mod laws;
pub mod responses;
pub mod wire;

verus! {

/// An opaque domain value (an observation, action, reward, state, state
/// metrics blob, or action-associated learning data). The coordinator never
/// looks inside such a value: it is produced by a codec, carried through
/// shadow state, and handed back out to the caller.
pub type Payload = Vec<u8>;

/// Identifier of one agent within a worker's episode.
pub type AgentId = u64;

/// Stable identifier of one emitted timestep record.
pub type TimestepId = u128;

/// The error kinds the coordinator reports. Errors are surfaced to the
/// caller unchanged; nothing is retried internally.
#[derive(Clone, Copy, Debug, PartialEq, Eq, Structural)]
pub enum EpiError {
    /// The initial byte exchange or the shared-memory open failed.
    HandshakeFailed,
    /// Event attachment or shared-memory slice access failed.
    ShmAccessFailed,
    /// A wire-level append or retrieve could not complete.
    CodecFailed,
    /// A slot had no outstanding action, a proc id was unknown, or a
    /// header tag was unexpected.
    ProtocolState,
    /// A required optional codec is missing for the chosen feature flags.
    ConfigInvalid,
}

} // verus!
