use netproxy::protoc::{to_protoc, Protoc};
use netproxy::route::RouteAlg;
use netproxy::rule::{some_addr_proportion, RuleType};
use netproxy::weights::get_index;

#[test]
fn protocol_tokens() {
    assert_eq!(to_protoc("tcp"), Some(Protoc::TCP));
    assert_eq!(to_protoc("tls"), Some(Protoc::TLS));
    assert_eq!(to_protoc("udp"), Some(Protoc::UDP));
    assert_eq!(to_protoc("http"), Some(Protoc::HTTP));
    assert_eq!(to_protoc("http_pt"), Some(Protoc::HTTPPT));
    assert_eq!(to_protoc("smtp"), None);
    assert_eq!(to_protoc(""), None);
}

#[test]
fn proportion_padding_and_truncation() {
    // fewer weights than targets: one trailing entry with the leftover count
    let (addrs, prop) = some_addr_proportion("x,y,z", Some("1"));
    assert_eq!(addrs, ["x", "y", "z"]);
    assert_eq!(prop, [1, 2]);
    // more weights than targets: cut to the target count
    let (addrs, prop) = some_addr_proportion("x", Some("1:2:3"));
    assert_eq!(addrs, ["x"]);
    assert_eq!(prop, [1]);
    // no weights: one entry carrying the whole target count
    let (addrs, prop) = some_addr_proportion("x,y,z", None);
    assert_eq!(addrs.len(), 3);
    assert_eq!(prop, [3]);
    // an unreadable weight becomes zero
    let (_, prop) = some_addr_proportion("x,y", Some("1:b"));
    assert_eq!(prop, [1, 0]);
}

#[test]
fn route_sentence_parses_and_normalizes() {
    let r = RuleType::from("tcp 127.0.0.1:0 127.0.0.1:9001,127.0.0.1:9002 2:2".to_string());
    match r {
        RuleType::Route(o) => {
            assert_eq!(o.server_protoc, Protoc::TCP);
            assert_eq!(o.remote_protoc, Protoc::TCP);
            assert_eq!(o.server_addr, "127.0.0.1:0");
            assert_eq!(o.remote_addrs, ["127.0.0.1:9001", "127.0.0.1:9002"]);
            assert_eq!(o.proportion, [1, 1]);
        },
        _ => panic!("expected a route"),
    }
}

#[test]
fn route_targets_alternate_by_schedule() {
    let r = RuleType::from("tcp 127.0.0.1:0 127.0.0.1:9001,127.0.0.1:9002 1:1".to_string());
    let o = match r {
        RuleType::Route(o) => o,
        _ => panic!("expected a route"),
    };
    let schedule = get_index(o.proportion.clone());
    assert_eq!(schedule, [0, 1]);
    let mut alg = RouteAlg::new(o.remote_addrs.clone(), schedule);
    let (first, host1) = alg.addr().unwrap();
    let (second, host2) = alg.addr().unwrap();
    let (third, _) = alg.addr().unwrap();
    assert_eq!(first, "127.0.0.1:9001");
    assert_eq!(second, "127.0.0.1:9002");
    assert_eq!(third, "127.0.0.1:9001");
    assert_eq!(host1, "127.0.0.1");
    assert_eq!(host2, "127.0.0.1");
}

#[test]
fn empty_schedule_is_inert() {
    let mut alg = RouteAlg::new(vec!["127.0.0.1:9001".to_string()], vec![]);
    assert!(alg.addr().is_none());
}

#[test]
fn dashed_pair_splits_the_protocols() {
    let r = RuleType::from("tcp-tls 127.0.0.1:1 127.0.0.1:9001".to_string());
    match r {
        RuleType::Route(o) => {
            assert_eq!(o.server_protoc, Protoc::TCP);
            assert_eq!(o.remote_protoc, Protoc::TLS);
        },
        _ => panic!("expected a route"),
    }
}

#[test]
fn visit_sentence_parses() {
    let r = RuleType::from("http 127.0.0.1:1".to_string());
    match r {
        RuleType::Visit(o) => {
            assert_eq!(o.server_protoc, Protoc::HTTP);
            assert_eq!(o.remote_protoc, Protoc::HTTP);
            assert_eq!(o.server_addr, "127.0.0.1:1");
        },
        _ => panic!("expected a visit"),
    }
}

#[test]
fn malformed_sentences_fail_with_their_codes() {
    assert!(matches!(RuleType::from("foo bar".to_string()), RuleType::Fail(1)));
    assert!(matches!(RuleType::from("".to_string()), RuleType::Fail(1)));
    assert!(matches!(RuleType::from("tcp".to_string()), RuleType::Fail(1)));
    assert!(matches!(RuleType::from("tcp-xyz 127.0.0.1:1".to_string()), RuleType::Fail(2)));
    assert!(matches!(RuleType::from("tcp not-an-addr".to_string()), RuleType::Fail(3)));
    assert!(matches!(
        RuleType::from("tcp 127.0.0.1:1 127.0.0.1:not-an-addr".to_string()),
        RuleType::Fail(3)
    ));
    assert!(matches!(RuleType::from("certificate x a b".to_string()), RuleType::Fail(5)));
    assert!(matches!(RuleType::from("certificate f x".to_string()), RuleType::Fail(1)));
    assert!(matches!(RuleType::from("shutdown".to_string()), RuleType::Fail(1)));
}

#[test]
fn control_sentences_parse() {
    match RuleType::from("certificate f ./cert.pfx secret".to_string()) {
        RuleType::CertificateF(p, w) => {
            assert_eq!(p, "./cert.pfx");
            assert_eq!(w, "secret");
        },
        _ => panic!("expected a file certificate"),
    }
    assert!(matches!(RuleType::from("certificate s a b".to_string()), RuleType::CertificateS(_, _)));
    match RuleType::from("state 127.0.0.1:9001".to_string()) {
        RuleType::State(Some(a)) => assert_eq!(a, "127.0.0.1:9001"),
        _ => panic!("expected a state query"),
    }
    assert!(matches!(RuleType::from("state".to_string()), RuleType::State(None)));
    match RuleType::from("shutdown 127.0.0.1:9999".to_string()) {
        RuleType::Shutdown(a) => assert_eq!(a, "127.0.0.1:9999"),
        _ => panic!("expected a shutdown"),
    }
}

#[test]
fn format_reproduces_canonical_sentences() {
    let texts = [
        "tcp 127.0.0.1:1 127.0.0.1:9001,127.0.0.1:9002 1:1",
        "tcp-tls 127.0.0.1:1 127.0.0.1:9001 1",
        "http 127.0.0.1:1",
        "certificate f ./cert.pfx secret",
        "certificate s 127.0.0.1:1 secret",
        "state 127.0.0.1:9001",
        "state",
        "shutdown 127.0.0.1:9999",
    ];
    for t in texts {
        assert_eq!(RuleType::from(t.to_string()).format(), t);
    }
}

#[test]
fn format_collapses_whitespace() {
    let r = RuleType::from("  tcp \t 127.0.0.1:1   127.0.0.1:9001 \n 1 ".to_string());
    assert_eq!(r.format(), "tcp 127.0.0.1:1 127.0.0.1:9001 1");
}
