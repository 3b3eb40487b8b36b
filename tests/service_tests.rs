use shuffle_dp::multi_party::communication::{MessagePayload, MessageType, NetworkConfig, NetworkMessage};
use shuffle_dp::multi_party::server::ServerRole;
use shuffle_dp::multi_party::share::{DataPointShares, DataShare, ShareDistribution, ShareManager, ShareType};
use shuffle_dp::shuffle_types::{BatchConfig, ShuffleStatistics};

#[test]
fn test_server_role() {
    let first = ServerRole::First;
    assert!(first.holds_data());
    assert!(first.participates_in_shuffle());

    let third = ServerRole::Third;
    assert!(!third.holds_data());
    assert!(third.participates_in_shuffle());
}

#[test]
fn server_role_rotation() {
    assert_eq!(ServerRole::First.next(), ServerRole::First);
    assert_eq!(ServerRole::Second.next(), ServerRole::Third);
    assert_eq!(ServerRole::Third.next(), ServerRole::Second);
    assert_eq!(ServerRole::Helper.next(), ServerRole::Helper);
    assert!(!ServerRole::Helper.participates_in_shuffle());
    assert!(ServerRole::Second.holds_data());
}

#[test]
fn test_batch_config() {
    let config = BatchConfig::default();
    assert_eq!(config.max_batch_size, 1000);
    assert!(config.parallel_processing);
    assert_eq!(config.timeout_ms, Some(30000));
}

#[test]
fn shuffle_statistics_setters() {
    let mut stats = ShuffleStatistics { data_count: 4, feature_count: 2, processing_time_ms: 0, memory_usage_bytes: 0, shuffle_rounds: 0 };
    stats.set_processing_time(15);
    stats.set_shuffle_rounds(3);
    assert_eq!(stats.processing_time_ms, 15);
    assert_eq!(stats.shuffle_rounds, 3);
    assert_eq!(stats.data_count, 4);
}

#[test]
fn test_data_share_creation() {
    let share = DataShare::feature(0, 1, 42, 97);
    assert_eq!(share.server_id, 0);
    assert_eq!(share.feature_index, 1);
    assert!(share.is_feature());
    assert_eq!(share.value, 42);
    assert_eq!(share.modulus, 97);
}

#[test]
fn test_data_share_metadata() {
    let mut share = DataShare::feature(0, 1, 42, 97);
    share.add_metadata("source".to_string(), "test".to_string());
    share.add_metadata("version".to_string(), "1.0".to_string());

    assert_eq!(share.get_metadata("source"), Some(&"test".to_string()));
    assert_eq!(share.get_metadata("version"), Some(&"1.0".to_string()));
    assert_eq!(share.get_metadata("nonexistent"), None);
}

#[test]
fn data_share_kinds_and_overwrite() {
    assert!(DataShare::noise(1, 0, 3, 7).is_noise());
    assert!(DataShare::metadata(1, 0, 3, 7).is_metadata());
    assert!(DataShare::permutation(1, 0, 3, 7).is_permutation());
    assert!(!DataShare::permutation(1, 0, 3, 7).is_feature());
    assert_eq!(DataShare::new(2, 5, ShareType::QueryResult, 1, 7).share_type, ShareType::QueryResult);
    let mut share = DataShare::feature(0, 0, 1, 7);
    share.add_metadata("k".to_string(), "a".to_string());
    share.add_metadata("k".to_string(), "b".to_string());
    assert_eq!(share.get_metadata("k"), Some(&"b".to_string()));
}

#[test]
fn test_network_message_creation() {
    let message = NetworkMessage::init(0, 1, 1);
    assert_eq!(message.source_id, 0);
    assert_eq!(message.target_id, 1);
    assert_eq!(message.sequence, 1);
    assert!(matches!(message.message_type, MessageType::Init));
}

#[test]
fn test_network_message_expiration() {
    let message = NetworkMessage::init(0, 1, 1);
    assert!(!message.is_expired(60));
}

#[test]
fn message_age_at_given_times() {
    let m = NetworkMessage::with_timestamp(MessageType::Ack, 2, 0, 7, MessagePayload::Empty, 1000);
    assert_eq!(m.age_at(1030), 30);
    assert_eq!(m.age_at(900), 0);
    assert!(m.is_expired_at(1061, 60));
    assert!(!m.is_expired_at(1060, 60));
    assert!(m.age_seconds() > 1000);
    let e = NetworkMessage::error(1, 2, 3, "boom".to_string());
    assert_eq!(e.message_type, MessageType::Error("boom".to_string()));
    assert_eq!(e.payload, MessagePayload::Error("boom".to_string()));
    let s = NetworkMessage::shuffle(0, 1, 2, vec![2, 0, 1]);
    assert_eq!(s.payload, MessagePayload::Permutation(vec![2, 0, 1]));
    assert_eq!(NetworkConfig::default().max_retries, 3);
    assert!(matches!(NetworkMessage::heartbeat(0, 1, 5).payload, MessagePayload::Heartbeat));
    assert!(matches!(NetworkMessage::share(0, 1, 5, vec![vec![1u8]]).message_type, MessageType::Share));
    assert!(matches!(NetworkMessage::ack(0, 1, 5).message_type, MessageType::Ack));
}

#[test]
fn test_data_point_shares() {
    let mut shares = DataPointShares::new("test_id".to_string());

    let share1 = DataShare::feature(0, 0, 10, 97);
    let share2 = DataShare::feature(1, 0, 20, 97);

    shares.add_feature_share(0, share1);
    shares.add_feature_share(0, share2);

    assert_eq!(shares.get_feature_shares(0).unwrap().len(), 2);
    assert_eq!(shares.feature_indices(), vec![0]);
}

#[test]
fn data_point_share_groups() {
    let mut shares = DataPointShares::new("p".to_string());
    shares.add_feature_share(3, DataShare::feature(0, 3, 1, 97));
    shares.add_feature_share(1, DataShare::feature(0, 1, 2, 97));
    shares.add_feature_share(3, DataShare::feature(1, 3, 3, 97));
    shares.add_metadata_share("age".to_string(), DataShare::metadata(0, 0, 4, 97));
    shares.add_noise_share(1, DataShare::noise(0, 1, 5, 97));
    shares.add_permutation_share(DataShare::permutation(0, 0, 6, 97));
    assert_eq!(shares.feature_indices(), vec![3, 1]);
    assert_eq!(shares.get_feature_shares(3).unwrap().iter().map(|s| s.value).collect::<Vec<_>>(), vec![1, 3]);
    assert!(shares.get_feature_shares(2).is_none());
    assert_eq!(shares.get_metadata_shares("age").unwrap()[0].value, 4);
    assert!(shares.get_metadata_shares("height").is_none());
    assert_eq!(shares.get_noise_shares(1).unwrap().len(), 1);
    assert_eq!(shares.metadata_keys(), vec!["age".to_string()]);
    assert_eq!(shares.total_shares(), 6);
}

#[test]
fn test_share_manager() {
    let manager = ShareManager::new(ShareDistribution::Even, 3, 2);

    let shares = vec![
        DataShare::feature(0, 0, 10, 97),
        DataShare::feature(1, 0, 20, 97),
        DataShare::feature(2, 0, 30, 97),
    ];

    let distribution = manager.distribute_shares(shares);
    assert_eq!(distribution.len(), 3);
    assert!(manager.validate_distribution(&distribution));
}

fn values_per_server(d: &std::collections::HashMap<usize, Vec<DataShare>>, k: usize) -> Vec<u64> {
    d.get(&k).map(|v| v.iter().map(|s| s.value).collect()).unwrap_or_default()
}

#[test]
fn distribution_strategies() {
    let shares: Vec<DataShare> = (0..5u64).map(|v| DataShare::feature(0, 0, v, 97)).collect();

    let weighted = ShareManager::new(ShareDistribution::Weighted, 3, 2).distribute_shares(shares.clone());
    assert_eq!(values_per_server(&weighted, 0), vec![0, 3]);
    assert_eq!(values_per_server(&weighted, 1), vec![2]);
    assert_eq!(values_per_server(&weighted, 2), vec![1, 4]);

    let redundant = ShareManager::new(ShareDistribution::Redundant { redundancy_factor: 2 }, 3, 2).distribute_shares(shares.clone());
    assert_eq!(values_per_server(&redundant, 0), vec![0, 2, 3]);
    assert_eq!(values_per_server(&redundant, 1), vec![0, 1, 3, 4]);
    assert_eq!(values_per_server(&redundant, 2), vec![1, 2, 4]);

    let custom = ShareManager::new(ShareDistribution::Custom(vec![2, 0, 1]), 3, 2).distribute_shares(shares);
    assert_eq!(values_per_server(&custom, 0), vec![0, 1, 3, 4]);
    assert_eq!(values_per_server(&custom, 2), vec![2]);
    assert!(!custom.contains_key(&1));
    let manager = ShareManager::new(ShareDistribution::Custom(vec![2, 0, 1]), 3, 2);
    assert!(!manager.validate_distribution(&custom));
}

#[test]
fn share_manager_cache() {
    let mut manager = ShareManager::new(ShareDistribution::default(), 3, 2);
    manager.cache_shares("a".to_string(), DataPointShares::new("a".to_string()));
    manager.cache_shares("b".to_string(), DataPointShares::new("b".to_string()));
    manager.cache_shares("a".to_string(), DataPointShares::new("a2".to_string()));
    assert_eq!(manager.cache_size(), 2);
    assert_eq!(manager.get_cached_shares("a").unwrap().data_point_id, "a2");
    manager.remove_cached_shares("a");
    assert!(manager.get_cached_shares("a").is_none());
    assert_eq!(manager.cache_size(), 1);
    manager.clear_cache();
    assert_eq!(manager.cache_size(), 0);
}
