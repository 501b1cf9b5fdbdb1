use netproxy::addr::{parse_socket_addr, SocketAddress};
use netproxy::state::{ControlInfo, Registry, ServerState};

fn addr(t: &str) -> SocketAddress {
    parse_socket_addr(t).unwrap()
}

#[test]
fn hold_then_list() {
    let mut reg = Registry::new();
    assert_eq!(reg.list(), "ok");
    let (tx, _rx) = tokio::sync::oneshot::channel::<ControlInfo>();
    reg.hold(addr("127.0.0.1:9001"), tx);
    assert_eq!(reg.list(), "ok 127.0.0.1:9001,velocity:0");
}

#[test]
fn samples_show_up_in_reports() {
    let mut reg = Registry::new();
    let (tx, _rx) = tokio::sync::oneshot::channel::<ControlInfo>();
    let a = addr("127.0.0.1:9001");
    reg.hold(a, tx);
    reg.update_state(&a, 17, "2020-01-02 03:04:05".to_string());
    assert_eq!(reg.state_string(&a), "ok 127.0.0.1:9001,velocity:17 [2020-01-02 03:04:05]");
    assert_eq!(reg.list(), "ok 127.0.0.1:9001,velocity:17 [2020-01-02 03:04:05]");
    // a sample for an unknown address changes nothing
    reg.update_state(&addr("127.0.0.1:1"), 5, String::new());
    assert_eq!(reg.state_string(&addr("127.0.0.1:1")), "ok ");
}

#[test]
fn state_of_an_absent_address_has_an_empty_body() {
    let reg = Registry::new();
    assert_eq!(reg.state_string(&addr("127.0.0.1:9999")), "ok ");
}

#[test]
fn shutdown_removes_and_signals() {
    let mut reg = Registry::new();
    let (tx, mut rx) = tokio::sync::oneshot::channel::<ControlInfo>();
    let a = addr("127.0.0.1:9001");
    reg.hold(a, tx);
    assert!(reg.shutdown(&a));
    assert!(matches!(rx.try_recv(), Ok(ControlInfo::Close)));
    // the record is gone: a second shutdown fails and the body is empty
    assert!(!reg.shutdown(&a));
    assert_eq!(reg.state_string(&a), "ok ");
    assert_eq!(reg.list(), "ok");
}

#[test]
fn shutdown_of_an_absent_address_fails() {
    let mut reg = Registry::new();
    assert!(!reg.shutdown(&addr("127.0.0.1:9999")));
}

#[test]
fn shutdown_fails_when_the_server_is_gone() {
    let mut reg = Registry::new();
    let (tx, rx) = tokio::sync::oneshot::channel::<ControlInfo>();
    let a = addr("127.0.0.1:9001");
    reg.hold(a, tx);
    drop(rx);
    // the record goes, but the close signal finds nobody
    assert!(!reg.shutdown(&a));
    assert_eq!(reg.state_string(&a), "ok ");
}

#[test]
fn replacing_a_record_keeps_one_entry_per_address() {
    let mut reg = Registry::new();
    let a = addr("127.0.0.1:9001");
    let (tx1, _rx1) = tokio::sync::oneshot::channel::<ControlInfo>();
    let (tx2, _rx2) = tokio::sync::oneshot::channel::<ControlInfo>();
    reg.add_state(ServerState::new(a, tx1));
    reg.add_state(ServerState::new(a, tx2));
    assert_eq!(reg.list(), "ok 127.0.0.1:9001,velocity:0");
}
