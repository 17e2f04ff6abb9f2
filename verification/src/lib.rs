//! Block ingestion for EVM chains: which endpoint to ask, how a range of
//! heights is cut into batches and handed to workers, and how newly announced
//! heads are reconciled with what is already stored.

pub mod backfill;
pub mod batch;
pub mod block;
pub mod chains;
pub mod error;
pub mod fetcher;
pub mod reconcile;
pub mod retry;
pub mod snapshot;
pub mod store;
pub mod subscriber;
