//! A leaderless, DAG-based Byzantine-fault-tolerant ordering engine together
//! with the committee primitives and the signature aggregation it relies on.
//!
//! Every component is a plain state machine: it is handed events as values and
//! answers with the values to send onward, so that its behaviour can be stated
//! and proved without reference to tasks, channels or clocks.

pub mod agreement;
pub mod committee;
pub mod consensus;
pub mod creator;
pub mod crypto;
pub mod dag;
pub mod extender;
pub mod interpreter;
pub mod order;
pub mod order_lemmas;
pub mod primitives;
pub mod reach;
pub mod rmc;
pub mod staking;
pub mod stream_laws;
pub mod terminal;
pub mod terminator;
pub mod traits;
pub mod unit;
