//! A single-choice polling ledger.
//!
//! A topic has a fixed list of options and a quota of participants. Every
//! participant casts at most one vote; the topic closes when it has as many
//! participants as its quota says, or when it is closed by hand.
//!
//! - [`contract`] holds the ledger, [`Contract`], with its operations:
//!   `create_topic`, `vote`, `over`, `show` and `list_topic`.
//! - [`topic`] holds one poll, [`Topic`], and what holds of it at all times.
//! - [`ident`] makes the identifier of a topic from its owner and from the
//!   sequence number and timestamp of the call that makes it.
//! - [`state`] says what each operation makes of the ledger, as a
//!   mathematical value.
//! - [`laws`] proves what holds of every ledger that calls can lead to.
//! - [`text`] holds what the others need of lists of strings, and the order
//!   of strings by which listings are sorted.
//! - [`error`] holds the errors, [`VoteError`].
//!
//! The ledger reads nothing from its surroundings: who calls, and at which
//! sequence number and timestamp, are arguments of the operations.

pub mod contract;
pub mod error;
pub mod ident;
pub mod laws;
pub mod state;
pub mod text;
pub mod topic;

pub use contract::Contract;
pub use error::{InputFault, VoteError};
pub use topic::Topic;
