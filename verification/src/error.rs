//! What can go wrong, by the component that reports it.

use vstd::prelude::*;

verus! {

/// A fault in what the operator configured. Nothing is ingested after one.
#[derive(Debug, Clone, Copy, PartialEq, Eq, Structural)]
pub enum ConfigError {
    /// No chain of the catalog has the name asked for.
    UnknownChain,
    /// The provider is unknown, does not serve the chain, or the key is empty.
    UnusableProvider,
    /// A batch must hold at least one height.
    ZeroBatchSize,
    /// A pool must have at least one worker.
    ZeroWorkers,
    /// Heights start at zero.
    NegativeHeight,
    /// The provider and the store are of different chains.
    ChainMismatch,
    /// A chain cannot be reorganised by fewer than no blocks.
    NegativeReorgDepth,
}

/// A failed call to the provider. Each is retried before it becomes fatal.
#[derive(Debug, Clone, Copy, PartialEq, Eq, Structural)]
pub enum RpcError {
    /// The connection or the transport failed, or the call timed out.
    Unavailable,
    /// The answer could not be decoded, or did not hold what was asked for.
    MalformedResponse,
    /// The provider does not have the height yet.
    NotFound,
}

/// A fault that ends a backfill worker or the head subscriber.
#[derive(Debug, Clone, Copy, PartialEq, Eq, Structural)]
pub enum PipelineError {
    /// The run was configured wrongly, and has changed nothing.
    Config(ConfigError),
    /// A call to the provider failed on every attempt; this was the last failure.
    Rpc(RpcError),
    /// The store refused a write.
    Persistence,
    /// The stored chain and the provider's still disagree after walking back
    /// the chain's whole reorg depth.
    ReconciliationExhausted,
}

} // verus!
