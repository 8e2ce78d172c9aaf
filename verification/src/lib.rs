//! Ranking and statistics query engine for a ranked-choice poll: a boolean
//! filter language, a one-pass ballot aggregator, a ranker with tie handling,
//! a cache-aside protocol and a pairwise co-occurrence analyzer.
//!
//! The engine computes on plain values. Whoever runs it reads the ballots
//! from the store, feeds them in, and performs what the cache protocol
//! decides.

// Texts and their order.
pub mod text;
pub mod order;
pub mod frame;

// The filter language.
pub mod filter;
pub mod parser;
pub mod query;
pub mod list_order;

// Ballots and what is counted of them.
pub mod ballot;
pub mod pairing;
pub mod tally;
pub mod totals;

// Rankings.
pub mod models;
pub mod catalog;
pub mod rank;
pub mod ranking;
pub mod ranked;
pub mod cps;

// Pairwise tables, questionnaire, summaries.
pub mod covote;
pub mod paper;
pub mod stats;

// Requests, errors, the cache.
pub mod service_error;
pub mod handlers;
pub mod cache;
pub mod rows;

// Payloads of the services around the engine.
pub mod pvrustlib;
pub mod gateway;
pub mod user_manager;
pub mod submit_handler;
