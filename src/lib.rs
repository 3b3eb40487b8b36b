//! Three-party secure shuffle with differential privacy: prime-field
//! arithmetic, Shamir sharing, party state, and the offline and online
//! phases of the protocol, with contracts proved by Verus.

pub mod field;
pub mod sharing;
pub mod protocol;
pub mod online;
pub mod offline;
pub mod correctness;
pub mod server;
pub mod run;
pub mod multi_party;
pub mod shuffle_types;

pub use field::{FieldElement, FieldError, FiniteField};
pub use offline::OfflinePhase;
pub use online::{OnlinePhase, PartyShares, RevealMessage};
pub use protocol::{ProtocolConfig, ProtocolError, ProtocolStats, UserData};
pub use server::{Server, ServerRole, ServerState, ServerStats};
pub use sharing::{SecretShare, ShamirSecretSharing, ShareDistributor};
