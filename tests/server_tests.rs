use shuffle_dp::field::FiniteField;
use shuffle_dp::online::PartyShares;
use shuffle_dp::protocol::ProtocolError;
use shuffle_dp::server::{Server, ServerRole, ServerState};

fn empty_shares() -> PartyShares {
    let field = FiniteField::new(7).unwrap();
    PartyShares { point: field.element(2), permutation: Vec::new(), masks: Vec::new(), noise: Vec::new() }
}

#[test]
fn server_test_server_creation() {
    let server = Server::new(0, ServerRole::Auxiliary);
    assert_eq!(server.id(), 0);
    assert!(server.is_auxiliary());
    assert!(!server.is_computational());
    assert_eq!(server.state(), &ServerState::Offline);
}

#[test]
fn server_test_server_initialization() {
    let mut server = Server::new(1, ServerRole::Computational);
    server.initialize();
    assert_eq!(server.state(), &ServerState::Online);
    assert!(server.is_available());
}

#[test]
fn test_server_role_checking() {
    let auxiliary = Server::new(0, ServerRole::Auxiliary);
    let computational = Server::new(1, ServerRole::Computational);
    assert!(auxiliary.is_auxiliary());
    assert!(!auxiliary.is_computational());
    assert!(computational.is_computational());
    assert!(!computational.is_auxiliary());
}

#[test]
fn test_server_state_management() {
    let mut server = Server::new(0, ServerRole::Auxiliary);
    server.set_state(ServerState::Participating);
    assert!(server.is_available());
    assert!(!server.is_failed());
    server.set_state(ServerState::Failed("Network error".to_string()));
    assert!(!server.is_available());
    assert!(server.is_failed());
}

#[test]
fn auxiliary_party_refuses_shares() {
    let mut aux = Server::new(0, ServerRole::Auxiliary);
    aux.initialize();
    assert!(matches!(aux.receive_shares(empty_shares()), Err(ProtocolError::InvalidConfiguration { .. })));
    assert!(aux.get_shares().is_none());
    assert!(aux.set_final_result(Vec::new()).is_err());
}

#[test]
fn barrier_before_the_online_phase() {
    let mut comp = Server::new(1, ServerRole::Computational);
    assert!(comp.begin_run().is_err());
    comp.initialize();
    assert!(comp.begin_run().is_err());
    comp.receive_shares(empty_shares()).unwrap();
    assert!(comp.set_final_result(Vec::new()).is_err());
    comp.begin_run().unwrap();
    assert_eq!(comp.state(), &ServerState::Participating);
    assert_eq!(comp.reveal_message().unwrap_err(), ProtocolError::InsufficientShares);
    comp.set_final_result(Vec::new()).unwrap();
    let stats = comp.get_stats();
    assert!(stats.has_shares && stats.has_final_result);
    assert_eq!(stats.state, ServerState::Completed);
    let msg = comp.reveal_message().unwrap();
    assert_eq!(msg.point.value(), 2);
    assert_eq!(comp.reveal_message().unwrap_err(), ProtocolError::InsufficientShares);
    comp.cancel_run();
    assert_eq!(comp.state(), &ServerState::Online);
    assert!(comp.get_shares().is_none());
}
