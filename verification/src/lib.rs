//! Verified coin selection for a Bitcoin wallet.
//!
//! Given a set of spendable transaction outputs, a target amount, a fee rate
//! and a change script, the library picks a subset of outputs to fund a
//! transaction and decides whether a change output is worth creating.
//!
//! Amounts are satoshi counts (`u64`, or `i64` where effective values may go
//! negative), fee rates are satoshis per 1000 weight units, weights are
//! weight units, and scripts are plain byte vectors.
//!
//! Every policy implements [`selection::CoinSelectionAlgorithm`] and comes
//! with its guarantee: [`policies`] holds the greedy policies over the
//! shared [`driver`], [`bnb`] the branch-and-bound search, [`grouping`] the
//! partial-spend grouping, [`change`] the change decision, and [`dedup`]
//! the duplicate filter. What is relied on from the Bitcoin primitives
//! layer stands in [`primitives`]; [`laws`] states the properties that
//! span the policies.

pub mod bnb;
pub mod change;
pub mod dedup;
pub mod driver;
pub mod fees;
pub mod grouping;
pub mod laws;
pub mod policies;
pub mod primitives;
pub mod selection;
pub mod sorting;
pub mod sums;
pub mod types;
