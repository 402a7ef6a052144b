//! A verified model of a rotating savings and credit association (ROSCA).
//!
//! A fixed group of participants contributes a fixed amount each round;
//! exactly one participant per round receives the pooled contributions,
//! rotating until every participant has received exactly once. The crate
//! models the claim-rotation and round-advancement state machine together
//! with default handling via security deposits. The surrounding runtime
//! (persistent storage, transaction dispatch, the randomness beacon and
//! account management) is treated as an external collaborator: the clock
//! and shuffle entropy are injected values, and value transfer is modelled
//! by an explicit in-memory ledger.

pub mod laws;
pub mod ledger;
pub mod model;
pub mod pallet;
pub mod rotation;
pub mod state;
pub mod types;
pub mod umap;

pub use types::AccountId;
pub use types::Balance;
pub use types::Error;
pub use types::Event;
pub use types::Moment;
pub use types::PaymentAssets;
pub use types::Phase;
pub use types::RoscaDetails;
pub use types::RoscaId;
pub use types::RoundInfo;
pub use types::MAX_INVITED_PARTICIPANTS;
pub use types::MAX_PARTICIPANTS;
pub use types::ROSCA_ACCOUNT_BASE;
