//! Protocol configuration and errors.

use crate::field::{FieldElement, FieldError};
use vstd::prelude::*;

verus! {

/// Parameters of the sharing layer.
#[derive(Debug, Clone, Copy)]
pub struct ProtocolConfig {
    pub num_servers: usize,
    pub threshold: usize,
    pub field_modulus: u64,
}

/// The recommended prime modulus, 2^64 - 59.
pub const DEFAULT_MODULUS: u64 = 0xFFFF_FFFF_FFFF_FFC5;

impl Default for ProtocolConfig {
    /// Three servers, threshold two, modulus 2^64 - 59.
    fn default() -> (r: ProtocolConfig)
        ensures
            r.num_servers == 3,
            r.threshold == 2,
            r.field_modulus == DEFAULT_MODULUS,
    {
        ProtocolConfig { num_servers: 3, threshold: 2, field_modulus: DEFAULT_MODULUS }
    }
}

/// Errors of a protocol run.
#[derive(Debug, Clone, PartialEq, Eq)]
pub enum ProtocolError {
    FieldOperationFailed,
    DimensionMismatch,
    EmptyInput,
    ServerNotFound,
    SharingFailed,
    InsufficientShares,
    Timeout,
    InvalidConfiguration { message: String },
    NetworkError { message: String },
    InternalError { message: String },
}

/// The protocol error that a field error becomes.
pub open spec fn protocol_error_of(e: FieldError) -> ProtocolError {
    match e {
        FieldError::DimensionMismatch => ProtocolError::DimensionMismatch,
        FieldError::EmptyInput => ProtocolError::EmptyInput,
        FieldError::InsufficientShares => ProtocolError::InsufficientShares,
        _ => ProtocolError::FieldOperationFailed,
    }
}

impl From<FieldError> for ProtocolError {
    fn from(e: FieldError) -> (r: ProtocolError)
        ensures
            r == protocol_error_of(e),
    {
        match e {
            FieldError::DimensionMismatch => ProtocolError::DimensionMismatch,
            FieldError::EmptyInput => ProtocolError::EmptyInput,
            FieldError::InsufficientShares => ProtocolError::InsufficientShares,
            _ => ProtocolError::FieldOperationFailed,
        }
    }
}

impl vstd::std_specs::convert::FromSpecImpl<FieldError> for ProtocolError {
    open spec fn obeys_from_spec() -> bool {
        true
    }

    open spec fn from_spec(e: FieldError) -> ProtocolError {
        protocol_error_of(e)
    }
}

impl ProtocolError {
    pub fn invalid_configuration(message: String) -> (r: ProtocolError)
        ensures
            r == (ProtocolError::InvalidConfiguration { message }),
    {
        ProtocolError::InvalidConfiguration { message }
    }

    pub fn network_error(message: String) -> (r: ProtocolError)
        ensures
            r == (ProtocolError::NetworkError { message }),
    {
        ProtocolError::NetworkError { message }
    }

    pub fn internal_error(message: String) -> (r: ProtocolError)
        ensures
            r == (ProtocolError::InternalError { message }),
    {
        ProtocolError::InternalError { message }
    }

}

/// A contributor's record: its features and the seed it shares with the auxiliary party.
#[derive(Debug, Clone)]
pub struct UserData {
    pub user_id: usize,
    pub data: Vec<FieldElement>,
    pub seed: u64,
}

impl UserData {
    pub fn new(user_id: usize, data: Vec<FieldElement>, seed: u64) -> (r: UserData)
        ensures
            r.user_id == user_id,
            r.data == data,
            r.seed == seed,
    {
        UserData { user_id, data, seed }
    }

    /// The number of features.
    pub fn len(&self) -> (r: usize)
        ensures
            r == self.data@.len(),
    {
        self.data.len()
    }

    pub fn is_empty(&self) -> (r: bool)
        ensures
            r == (self.data@.len() == 0),
    {
        self.data.len() == 0
    }
}

/// Timings and counts of a run.
#[derive(Debug, Clone, Copy)]
pub struct ProtocolStats {
    pub offline_time_ms: u64,
    pub online_time_ms: u64,
    pub total_communication_bytes: usize,
    pub field_operations: usize,
}

impl Default for ProtocolStats {
    fn default() -> (r: ProtocolStats)
        ensures
            r.offline_time_ms == 0 && r.online_time_ms == 0 && r.total_communication_bytes == 0
                && r.field_operations == 0,
    {
        ProtocolStats { offline_time_ms: 0, online_time_ms: 0, total_communication_bytes: 0, field_operations: 0 }
    }
}

/// Timings of the offline phase.
#[derive(Debug, Clone, Copy)]
pub struct OfflineStats {
    pub permutation_time_ms: u64,
    pub mask_time_ms: u64,
    pub noise_time_ms: u64,
    pub distribution_time_ms: u64,
    pub total_communication_bytes: usize,
}

impl Default for OfflineStats {
    fn default() -> (r: OfflineStats)
        ensures
            r.permutation_time_ms == 0 && r.mask_time_ms == 0 && r.noise_time_ms == 0 && r.distribution_time_ms == 0
                && r.total_communication_bytes == 0,
    {
        OfflineStats { permutation_time_ms: 0, mask_time_ms: 0, noise_time_ms: 0, distribution_time_ms: 0, total_communication_bytes: 0 }
    }
}

/// Timings and counts of the online phase; it sends nothing.
#[derive(Debug, Clone, Copy)]
pub struct OnlineStats {
    pub submission_time_ms: u64,
    pub shuffle_time_ms: u64,
    pub randomization_time_ms: u64,
    pub reconstruction_time_ms: u64,
    pub field_operations: usize,
    pub communication_bytes: usize,
}

impl Default for OnlineStats {
    fn default() -> (r: OnlineStats)
        ensures
            r.submission_time_ms == 0 && r.shuffle_time_ms == 0 && r.randomization_time_ms == 0
                && r.reconstruction_time_ms == 0 && r.field_operations == 0 && r.communication_bytes == 0,
    {
        OnlineStats {
            submission_time_ms: 0,
            shuffle_time_ms: 0,
            randomization_time_ms: 0,
            reconstruction_time_ms: 0,
            field_operations: 0,
            communication_bytes: 0,
        }
    }
}

} // verus!
