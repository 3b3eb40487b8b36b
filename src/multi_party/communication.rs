//! Messages exchanged between the parties of the query service.

use vstd::prelude::*;

verus! {

/// The kind of a message.
#[derive(Debug, Clone, PartialEq, Eq)]
pub enum MessageType {
    Init,
    Share,
    Shuffle,
    Reconstruct,
    Query,
    QueryResponse,
    Heartbeat,
    Error(String),
    Ack,
}

/// What a message carries.
#[derive(Debug, Clone, PartialEq, Eq)]
pub enum MessagePayload {
    Empty,
    /// Serialized shares.
    Shares(Vec<Vec<u8>>),
    /// A permutation of record positions.
    Permutation(Vec<usize>),
    Error(String),
    Heartbeat,
}

/// A message between two parties, stamped with its creation time in seconds since the Unix epoch.
#[derive(Debug, Clone)]
pub struct NetworkMessage {
    pub message_type: MessageType,
    pub source_id: usize,
    pub target_id: usize,
    pub sequence: u64,
    pub payload: MessagePayload,
    pub timestamp: u64,
}

/// Settings of the message layer.
#[derive(Debug, Clone, Copy)]
pub struct NetworkConfig {
    pub heartbeat_interval: u64,
    pub max_heartbeat_age: u64,
    pub message_timeout_ms: u64,
    pub max_retries: usize,
    pub enable_encryption: bool,
}

impl Default for NetworkConfig {
    /// Heartbeats every 30 s, stale after 90 s, 5 s timeout, 3 retries, encryption on.
    fn default() -> (r: NetworkConfig)
        ensures
            r.heartbeat_interval == 30 && r.max_heartbeat_age == 90 && r.message_timeout_ms == 5000
                && r.max_retries == 3 && r.enable_encryption,
    {
        NetworkConfig {
            heartbeat_interval: 30,
            max_heartbeat_age: 90,
            message_timeout_ms: 5000,
            max_retries: 3,
            enable_encryption: true,
        }
    }
}

/// Relies on std's `SystemTime::now`, read as whole seconds since the Unix
/// epoch (0 for a clock set before it). Nothing is promised of the value.
#[verifier::external_body]
fn now_seconds() -> (r: u64) {
    match std::time::SystemTime::now().duration_since(std::time::UNIX_EPOCH) {
        Ok(d) => d.as_secs(),
        Err(_) => 0,
    }
}

impl NetworkMessage {
    /// A message stamped with the given time.
    pub fn with_timestamp(
        message_type: MessageType,
        source_id: usize,
        target_id: usize,
        sequence: u64,
        payload: MessagePayload,
        timestamp: u64,
    ) -> (r: NetworkMessage)
        ensures
            r == (NetworkMessage { message_type, source_id, target_id, sequence, payload, timestamp }),
    {
        NetworkMessage { message_type, source_id, target_id, sequence, payload, timestamp }
    }

    /// A message stamped with the current time.
    pub fn new(message_type: MessageType, source_id: usize, target_id: usize, sequence: u64, payload: MessagePayload) -> (r: NetworkMessage)
        ensures
            r.message_type == message_type && r.source_id == source_id && r.target_id == target_id
                && r.sequence == sequence && r.payload == payload,
    {
        let now = now_seconds();
        NetworkMessage::with_timestamp(message_type, source_id, target_id, sequence, payload, now)
    }

    pub fn init(source_id: usize, target_id: usize, sequence: u64) -> (r: NetworkMessage)
        ensures
            r.message_type == MessageType::Init && r.source_id == source_id && r.target_id == target_id
                && r.sequence == sequence && r.payload == MessagePayload::Empty,
    {
        NetworkMessage::new(MessageType::Init, source_id, target_id, sequence, MessagePayload::Empty)
    }

    pub fn share(source_id: usize, target_id: usize, sequence: u64, shares: Vec<Vec<u8>>) -> (r: NetworkMessage)
        ensures
            r.message_type == MessageType::Share && r.source_id == source_id && r.target_id == target_id
                && r.sequence == sequence && r.payload == MessagePayload::Shares(shares),
    {
        NetworkMessage::new(MessageType::Share, source_id, target_id, sequence, MessagePayload::Shares(shares))
    }

    pub fn shuffle(source_id: usize, target_id: usize, sequence: u64, permutation: Vec<usize>) -> (r: NetworkMessage)
        ensures
            r.message_type == MessageType::Shuffle && r.source_id == source_id && r.target_id == target_id
                && r.sequence == sequence && r.payload == MessagePayload::Permutation(permutation),
    {
        NetworkMessage::new(MessageType::Shuffle, source_id, target_id, sequence, MessagePayload::Permutation(permutation))
    }

    pub fn heartbeat(source_id: usize, target_id: usize, sequence: u64) -> (r: NetworkMessage)
        ensures
            r.message_type == MessageType::Heartbeat && r.source_id == source_id && r.target_id == target_id
                && r.sequence == sequence && r.payload == MessagePayload::Heartbeat,
    {
        NetworkMessage::new(MessageType::Heartbeat, source_id, target_id, sequence, MessagePayload::Heartbeat)
    }

    pub fn error(source_id: usize, target_id: usize, sequence: u64, error: String) -> (r: NetworkMessage)
        ensures
            r.message_type == MessageType::Error(error) && r.source_id == source_id && r.target_id == target_id
                && r.sequence == sequence && r.payload == MessagePayload::Error(error),
    {
        let kind = MessageType::Error(error.clone());
        NetworkMessage::new(kind, source_id, target_id, sequence, MessagePayload::Error(error))
    }

    pub fn ack(source_id: usize, target_id: usize, sequence: u64) -> (r: NetworkMessage)
        ensures
            r.message_type == MessageType::Ack && r.source_id == source_id && r.target_id == target_id
                && r.sequence == sequence && r.payload == MessagePayload::Empty,
    {
        NetworkMessage::new(MessageType::Ack, source_id, target_id, sequence, MessagePayload::Empty)
    }

    /// The message's age at time `now`; zero if `now` precedes its stamp.
    pub fn age_at(&self, now: u64) -> (r: u64)
        ensures
            r == if now >= self.timestamp { (now - self.timestamp) as u64 } else { 0u64 },
    {
        if now >= self.timestamp {
            now - self.timestamp
        } else {
            0
        }
    }

    /// Whether the message is older than `max_age_seconds` at time `now`.
    pub fn is_expired_at(&self, now: u64, max_age_seconds: u64) -> (r: bool)
        ensures
            r == (now > self.timestamp && now - self.timestamp > max_age_seconds),
    {
        self.age_at(now) > max_age_seconds
    }

    /// The message's age now, in seconds.
    pub fn age_seconds(&self) -> (r: u64) {
        let now = now_seconds();
        self.age_at(now)
    }

    /// Whether the message is now older than `max_age_seconds`.
    pub fn is_expired(&self, max_age_seconds: u64) -> (r: bool) {
        let now = now_seconds();
        self.is_expired_at(now, max_age_seconds)
    }
}

} // verus!
