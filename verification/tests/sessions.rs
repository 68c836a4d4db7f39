use metastore::exception::ErrorKind;
use metastore::sessions::{Config, SessionManager, SessionState, ShutdownStep};

fn conf(max: u64) -> Config {
    Config { max_active_sessions: max, tenant_id: "tenant".to_string(), cluster_id: "cluster".to_string() }
}

#[test]
fn create_session_gives_a_fresh_uuid() {
    let mut m = SessionManager::from_conf(conf(8));
    assert_eq!(m.get_conf().max_active_sessions, 8);
    let s = m.create_session("MySQL".to_string()).unwrap();
    let id = s.get_id();
    assert_eq!(id.len(), 36);
    for (i, c) in id.chars().enumerate() {
        if i == 8 || i == 13 || i == 18 || i == 23 {
            assert_eq!(c, '-');
        } else {
            assert!(c.is_ascii_digit() || ('a'..='f').contains(&c));
        }
    }
    assert_eq!(id.chars().nth(14), Some('4'));
    assert!(matches!(id.chars().nth(19), Some('8') | Some('9') | Some('a') | Some('b')));
    assert_eq!(s.get_type(), "MySQL");
    assert_eq!(s.get_state(), SessionState::Active);
    assert_eq!(m.session_count(), 1);
    let t = m.create_session("MySQL".to_string()).unwrap();
    assert_ne!(t.get_id(), id);
    assert_eq!(m.get_session(&id).unwrap().get_id(), id);
}

#[test]
fn create_session_stops_at_the_limit() {
    let mut m = SessionManager::from_conf(conf(2));
    m.create_session_with_id("a".to_string(), "x".to_string()).unwrap();
    m.create_session_with_id("b".to_string(), "x".to_string()).unwrap();
    let e = m.create_session("x".to_string()).unwrap_err();
    assert_eq!(e.kind(), ErrorKind::TooManyUserConnections);
    assert_eq!(
        e.message().as_str(),
        "The current accept connection has exceeded mysql_handler_thread_num config"
    );
    assert_eq!(m.session_count(), 2);
    m.destroy_session(&"a".to_string());
    assert_eq!(m.session_count(), 1);
    assert!(m.get_session(&"a".to_string()).is_none());
    assert!(m.create_session("x".to_string()).is_ok());
}

#[test]
fn create_session_with_id_replaces() {
    let mut m = SessionManager::from_conf(conf(4));
    m.create_session_with_id("a".to_string(), "first".to_string()).unwrap();
    m.create_session_with_id("a".to_string(), "second".to_string()).unwrap();
    assert_eq!(m.session_count(), 1);
    assert_eq!(m.get_session(&"a".to_string()).unwrap().get_type(), "second");
}

#[test]
fn rpc_session_is_found_or_made() {
    let mut m = SessionManager::from_conf(conf(1));
    let s = m.create_rpc_session("rpc-1".to_string(), false).unwrap();
    assert_eq!(s.get_id(), "rpc-1");
    assert_eq!(s.get_type(), "RPCSession");
    let again = m.create_rpc_session("rpc-1".to_string(), true).unwrap();
    assert_eq!(again.get_id(), "rpc-1");
    assert_eq!(m.session_count(), 1);
    let e = m.create_rpc_session("rpc-2".to_string(), true).unwrap_err();
    assert_eq!(e.kind(), ErrorKind::AbortedSession);
    assert_eq!(e.message().as_str(), "Aborting server.");
    // The limit does not hold rpc sessions back.
    assert!(m.create_rpc_session("rpc-3".to_string(), false).is_ok());
    assert_eq!(m.session_count(), 2);
}

#[test]
fn destroy_idle_sessions_asks_all_to_close() {
    let mut m = SessionManager::from_conf(conf(4));
    assert!(m.destroy_idle_sessions());
    m.create_session_with_id("a".to_string(), "x".to_string()).unwrap();
    m.create_session_with_id("b".to_string(), "x".to_string()).unwrap();
    assert!(!m.destroy_idle_sessions());
    assert_eq!(m.get_session(&"a".to_string()).unwrap().get_state(), SessionState::Aborted);
    assert_eq!(m.get_session(&"b".to_string()).unwrap().get_state(), SessionState::Aborted);
}

#[test]
fn graceful_shutdown_waits_then_forces() {
    let mut m = SessionManager::from_conf(conf(4));
    m.create_session_with_id("a".to_string(), "x".to_string()).unwrap();
    assert_eq!(m.graceful_shutdown(2, false), ShutdownStep::Wait { remaining: 1 });
    assert_eq!(m.get_session(&"a".to_string()).unwrap().get_state(), SessionState::Aborted);
    assert_eq!(m.graceful_shutdown(1, false), ShutdownStep::Wait { remaining: 0 });
    assert_eq!(m.graceful_shutdown(0, false), ShutdownStep::Forced);
    assert_eq!(m.get_session(&"a".to_string()).unwrap().get_state(), SessionState::Killed);
}

#[test]
fn graceful_shutdown_ends_when_all_closed_or_signalled() {
    let mut m = SessionManager::from_conf(conf(4));
    assert_eq!(m.graceful_shutdown(5, false), ShutdownStep::Closed);
    m.create_session_with_id("a".to_string(), "x".to_string()).unwrap();
    assert_eq!(m.graceful_shutdown(5, true), ShutdownStep::Forced);
    assert_eq!(m.get_session(&"a".to_string()).unwrap().get_state(), SessionState::Killed);
    assert_eq!(m.graceful_shutdown(-1, false), ShutdownStep::Forced);
}
