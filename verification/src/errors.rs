use vstd::prelude::*;

verus! {

/// Fault taxonomy of the storage engine.
///
/// `NotFound` is deliberately not a variant: an absent value is a normal
/// result and is reported as `None` by the lookup functions.
#[derive(Clone, Copy, Debug, PartialEq, Eq, Structural)]
pub enum ChainStoreError {
    /// An underlying storage operation could not complete.
    StorageFault,
    /// A record could not be encoded or decoded.
    SerializationFault,
    /// An event references state inconsistent with prior history, for
    /// example deploying an already-deployed contract identifier or burning
    /// a token that was never minted.
    DataIntegrityFault,
}

} // verus!
