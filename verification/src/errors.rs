use vstd::prelude::*;

verus! {

/// Recoverable failures returned by the coordinator and receptacle entry
/// points.  Callers are expected to branch on the kind.
#[derive(Clone, Copy, Debug, PartialEq, Eq, Structural)]
pub enum ContractError {
    /// The coordinator already has a bound admin.
    AlreadyInitialized,
    /// The operator already owns a receptacle.
    AlreadyRegisteredOperator,
    /// No receptacle is registered under the operator.
    OperatorNotFound,
    /// The chain id is already present in the chain registry.
    ChainAlreadyAdded,
    /// The chain id is absent from the chain registry.
    ChainNotFound,
    /// The token has no destination mapping on any chain.
    TokenNotSupported,
    /// The (token, chain) pair has no destination mapping.
    TokenChainMappingNotFound,
    /// No bridge endpoint has been configured.
    BridgeEndpointNotConfigured,
    /// The operator has no receptacle entry.
    ReceptacleNotFound,
}

} // verus!
