use netproxy::dispatch::{ControlPlane, StartAction, Step};

fn reply(step: Step) -> String {
    match step {
        Step::Reply(t) => t,
        Step::Start(t, _) => t,
        Step::NeedFile(_, _) => panic!("expected a reply, not a file request"),
    }
}

#[test]
fn a_route_sentence_starts_a_server() {
    let mut cp = ControlPlane::new(false);
    let step = cp.handle_cfg("tcp 127.0.0.1:0 127.0.0.1:9001,127.0.0.1:9002 1:1".to_string());
    match step {
        Step::Start(t, StartAction::Route(o)) => {
            assert_eq!(t, "server is starting up...");
            assert_eq!(o.remote_addrs.len(), 2);
            assert_eq!(o.proportion, [1, 1]);
        },
        _ => panic!("expected a started route"),
    }
}

#[test]
fn a_visit_sentence_starts_a_server() {
    let mut cp = ControlPlane::new(false);
    let step = cp.handle_cfg("http_pt 127.0.0.1:0".to_string());
    assert!(matches!(step, Step::Start(_, StartAction::Visit(_))));
}

#[test]
fn nonsense_is_a_configuration_error() {
    let mut cp = ControlPlane::new(false);
    assert_eq!(reply(cp.handle_cfg("foo bar".to_string())), "configuration sentences error");
}

#[test]
fn a_bad_target_is_an_address_error() {
    let mut cp = ControlPlane::new(false);
    assert_eq!(
        reply(cp.handle_cfg("tcp 127.0.0.1:1 127.0.0.1:not-an-addr".to_string())),
        "SocketAddr error"
    );
}

#[test]
fn an_unknown_second_protocol_is_a_protocol_error() {
    let mut cp = ControlPlane::new(false);
    assert_eq!(reply(cp.handle_cfg("tcp-xyz 127.0.0.1:1".to_string())), "protocol error");
}

#[test]
fn shutdown_of_an_unknown_server_is_an_error() {
    let mut cp = ControlPlane::new(false);
    assert_eq!(reply(cp.handle_cfg("shutdown 127.0.0.1:9999".to_string())), "shutdown error");
    assert_eq!(reply(cp.handle_cfg("shutdown not-an-addr".to_string())), "shutdown error");
}

#[test]
fn state_reports_the_registry() {
    let mut cp = ControlPlane::new(false);
    assert_eq!(reply(cp.handle_cfg("state".to_string())), "ok");
    assert_eq!(reply(cp.handle_cfg("state 127.0.0.1:9999".to_string())), "ok ");
    // an unreadable address falls back to the whole list
    assert_eq!(reply(cp.handle_cfg("state what".to_string())), "ok");
}

#[test]
fn safe_mode_refuses_everything_but_certificates() {
    let mut cp = ControlPlane::new(true);
    for sentence in [
        "tcp 127.0.0.1:0 127.0.0.1:9001",
        "http 127.0.0.1:0",
        "state",
        "shutdown 127.0.0.1:9999",
        "foo bar",
    ] {
        assert_eq!(reply(cp.handle_cfg(sentence.to_string())), "must be certificate sentence");
    }
    assert!(cp.safe);
}

#[test]
fn a_certificate_file_sentence_asks_for_the_file() {
    let mut cp = ControlPlane::new(true);
    match cp.handle_cfg("certificate f ./cert.pfx secret".to_string()) {
        Step::NeedFile(path, pwd) => {
            assert_eq!(path, "./cert.pfx");
            assert_eq!(pwd, "secret");
        },
        _ => panic!("expected a file request"),
    }
}

#[test]
fn a_bad_archive_is_a_certificate_error() {
    let mut cp = ControlPlane::new(true);
    let r = cp.handle_cert_file(Some(vec![1, 2, 3]), "secret");
    assert_eq!(r, "certificate error");
    assert!(cp.safe);
    let r = cp.handle_cert_file(None, "secret");
    assert_eq!(r, "certificate error");
    assert!(cp.safe);
}

#[test]
fn the_socket_certificate_stub_succeeds_and_opens_the_plane() {
    let mut cp = ControlPlane::new(true);
    assert_eq!(reply(cp.handle_cfg("certificate s 127.0.0.1:1 secret".to_string())), "ok");
    assert!(!cp.safe);
    // afterwards ordinary sentences go through
    assert_eq!(reply(cp.handle_cfg("state".to_string())), "ok");
}

#[test]
fn the_lifecycle_of_one_route() {
    let mut cp = ControlPlane::new(false);
    let step = cp.handle_cfg("tcp 127.0.0.1:0 127.0.0.1:9001,127.0.0.1:9002 1:1".to_string());
    let o = match step {
        Step::Start(_, StartAction::Route(o)) => o,
        _ => panic!("expected a started route"),
    };
    // the surroundings bind the listener and hand the registry its record
    let bound = netproxy::addr::parse_socket_addr(&o.server_addr).unwrap();
    let (tx, mut rx) = tokio::sync::oneshot::channel();
    cp.registry.hold(bound, tx);
    assert_eq!(reply(cp.handle_cfg("state 127.0.0.1:0".to_string())), "ok 127.0.0.1:0,velocity:0");
    assert_eq!(reply(cp.handle_cfg("shutdown 127.0.0.1:0".to_string())), "ok");
    assert!(matches!(rx.try_recv(), Ok(netproxy::state::ControlInfo::Close)));
    assert_eq!(reply(cp.handle_cfg("state 127.0.0.1:0".to_string())), "ok ");
}

#[test]
fn an_empty_store_has_no_acceptor() {
    let store = netproxy::cert::CertStore::new();
    assert!(matches!(
        store.get_tls_acceptor(),
        Err(netproxy::cert::CertError::NotFound)
    ));
}

#[test]
fn a_bad_archive_leaves_the_store_empty() {
    let mut store = netproxy::cert::CertStore::new();
    assert!(matches!(
        store.build_identity(&[0u8, 1, 2], "pwd"),
        Err(netproxy::cert::CertError::InvalidCertificate)
    ));
    assert!(store.valid_identity().is_none());
}
