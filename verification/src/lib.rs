//! Online anomaly detection for process-execution events.
//!
//! The library keeps a per-command baseline of embedding vectors, scores each
//! newly observed command against its baseline entry by cosine similarity,
//! and records low-similarity events in an append-only anomaly store that a
//! small request/response control protocol can query.
//!
//! Embedding vectors are held in fixed-point form: every component and every
//! similarity score is an integer number of millionths, so the whole scoring
//! path is exact integer arithmetic.
//!
//! - [`vector`]: fixed-point vectors and cosine similarity
//! - [`baseline`]: the per-command baseline with last-write-wins updates
//! - [`engine`]: event-line parsing and the scoring pipeline
//! - [`event`]: checked decoding of raw kernel records
//! - [`report`], [`anomalies`]: anomaly records and the append-only log
//! - [`ipc`], [`codec`], [`cli`]: the control protocol, its wire text, and
//!   the client's side of it
//! - [`numfmt`]: exact decimal text for the integers that cross the wire

pub mod anomalies;
pub mod baseline;
pub mod cli;
pub mod codec;
pub mod engine;
pub mod event;
pub mod ipc;
pub mod numfmt;
pub mod report;
pub mod vector;
