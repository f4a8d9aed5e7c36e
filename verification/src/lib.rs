//! Incremental aggregation of the lifecycle events of a dataflow engine's
//! batches into per-operator, per-worker summary tables.
//!
//! The stages, leaves first: [`window`] rounds event times up to bucket
//! boundaries, [`translate`] turns events into signed deltas, [`aggregate`]
//! keeps one running total per key, [`record`] packs totals into flat
//! records, [`index`] keys the records by a choice of their columns, and
//! [`pipeline`] chains the stages for each log that a [`config`] asks for.
//!
//! What holds of the stages together is proved in [`causal`] (the totals
//! when each key's events arrive in the order of their times), in
//! [`lifecycle`] (creation and drop cancel) and in [`freshness`] (an index
//! by operator and worker reads the current totals).

pub mod wrap;
pub mod window;
pub mod event;
pub mod variant;
pub mod translate;
pub mod aggregate;
pub mod record;
pub mod index;
pub mod config;
pub mod pipeline;
pub mod causal;
pub mod lifecycle;
pub mod freshness;
