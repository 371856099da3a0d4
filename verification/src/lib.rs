//! A CBC-Casper-style fork-choice library: messages that reference earlier
//! messages form a DAG, and a GHOST-style greedy descent over a justification
//! set and a validator-weight table selects the canonical head block.
//!
//! All messages live in an [`model::Arena`] that owns them by value and hands
//! out integer handles; handles strictly decrease along every reference edge,
//! which makes the message DAG acyclic by construction.

pub mod fork_choice;
pub mod laws;
pub mod model;
pub mod weights;

pub use fork_choice::estimator;
pub use fork_choice::latest_message_per_validator;
pub use model::Arena;
pub use model::Error;
pub use model::Message;
pub use model::Validator;
pub use model::Weight;
pub use weights::Weights;
