use netproxy::args::{init, Args};
use netproxy::addr::{parse_ip, IpAddress, Ipv4Addr};
use netproxy::pd::pump_chunk;
use netproxy::protoc::Protoc;
use netproxy::route::RouteR;
use netproxy::server::{Client, IpScope, TickCounter};
use netproxy::visit::{VisitFinder, VisitR};

#[test]
fn visit_derives_the_target_from_the_host_header() {
    let buf = b"GET / HTTP/1.1\r\nHost: example.com\r\n\r\n".to_vec();
    let rem = VisitFinder(Protoc::HTTP).get(&buf).unwrap();
    assert_eq!(rem.protoc(), Protoc::HTTP);
    assert_eq!(rem.host(), "example.com");
    assert_eq!(rem.target(), "example.com:443");
}

#[test]
fn visit_keeps_an_explicit_port_and_knows_plain_http() {
    let buf = b"GET / HTTP/1.1\r\nhost: example.com:8443\r\n\r\n".to_vec();
    let rem = VisitFinder(Protoc::HTTP).get(&buf).unwrap();
    assert_eq!(rem.target(), "example.com:8443");
    let buf = b"GET / HTTP/1.1\r\nHOST: example.com\r\n\r\n".to_vec();
    let rem = VisitFinder(Protoc::HTTPPT).get(&buf).unwrap();
    assert_eq!(rem.target(), "example.com:80");
}

#[test]
fn visit_refuses_what_it_cannot_route() {
    let no_host = b"GET / HTTP/1.1\r\nAccept: */*\r\n\r\n".to_vec();
    assert!(VisitFinder(Protoc::HTTP).get(&no_host).is_none());
    let junk = b"not an http request".to_vec();
    assert!(VisitFinder(Protoc::HTTP).get(&junk).is_none());
    let empty_host = b"GET / HTTP/1.1\r\nHost:   \r\n\r\n".to_vec();
    assert!(VisitFinder(Protoc::HTTP).get(&empty_host).is_none());
    // a well-formed request does not route over a non-visit protocol
    let buf = b"GET / HTTP/1.1\r\nHost: example.com\r\n\r\n".to_vec();
    assert!(VisitFinder(Protoc::TCP).get(&buf).is_none());
}

#[test]
fn hooks_pass_bytes_through_and_count_them() {
    let mut hook = RouteR::new();
    let mut buf = vec![1u8, 2, 3];
    hook.data(&mut buf);
    assert_eq!(buf, [1, 2, 3]);
    hook.enddata(&mut buf);
    assert_eq!(hook.sum(), 6);
    let mut vhook = VisitR::new();
    let mut vbuf = vec![0u8; 10];
    pump_chunk(&mut vhook, &mut vbuf, false);
    pump_chunk(&mut vhook, &mut vbuf, true);
    assert_eq!(vbuf.len(), 10);
    assert_eq!(vhook.sum(), 20);
}

#[test]
fn empty_allow_set_admits_all() {
    let scope = IpScope::new();
    assert!(!scope.reject_ip(parse_ip("10.1.2.3").unwrap()));
    assert!(!scope.reject_ip(parse_ip("::1").unwrap()));
}

#[test]
fn nonempty_allow_set_admits_exactly_its_members() {
    let mut scope = IpScope::new();
    scope.set_ip_scope(&vec![parse_ip("127.0.0.1").unwrap(), parse_ip("::1").unwrap()]);
    assert!(!scope.reject_ip(parse_ip("127.0.0.1").unwrap()));
    assert!(!scope.reject_ip(parse_ip("::1").unwrap()));
    assert!(scope.reject_ip(parse_ip("10.1.2.3").unwrap()));
    scope.add_ip_scope(parse_ip("10.1.2.3").unwrap());
    assert!(!scope.reject_ip(parse_ip("10.1.2.3").unwrap()));
}

#[test]
fn the_tick_counter_accumulates_until_a_sample_is_taken() {
    let mut c = TickCounter::new();
    assert!(!c.should_sample());
    c.on_accept();
    c.on_accept();
    assert!(c.should_sample());
    assert_eq!(c.n, 2);
    // a full channel leaves the count for the next tick
    c.on_sample(false);
    assert_eq!(c.n, 2);
    c.on_sample(true);
    assert_eq!(c.n, 0);
}

#[test]
fn a_client_makes_at_least_one_attempt() {
    let rem = netproxy::remote::Remote::new(
        Protoc::TCP,
        "127.0.0.1:9001".to_string(),
        "127.0.0.1".to_string(),
    );
    let mut client = Client::new(rem);
    assert_eq!(client.attempts(), 1);
    client.set_send_count(3);
    assert_eq!(client.attempts(), 3);
}

#[test]
fn arguments_and_their_readings() {
    let args = init();
    assert_eq!(args.socket(), "127.0.0.1:0");
    assert!(!args.is_tool());
    assert!(!args.is_safe());
    assert_eq!(
        args.ipscope(),
        [
            IpAddress::V4(Ipv4Addr { a: 127, b: 0, c: 0, d: 1 }),
            parse_ip("::1").unwrap()
        ]
    );
    let custom = Args {
        socket: "0.0.0.0:7000".to_string(),
        ipscope: "10.0.0.1,garbage,::1".to_string(),
        cfgtool: "yes".to_string(),
        socsafe: "yes".to_string(),
    };
    assert!(custom.is_tool());
    assert!(custom.is_safe());
    // tokens that name no address are dropped
    assert_eq!(custom.ipscope().len(), 2);
}

#[test]
fn lossy_host_bytes_are_marked_with_the_replacement_character() {
    // the host text comes out of the byte-to-text conversion: bad bytes are
    // replaced, good ones kept
    let buf = b"GET / HTTP/1.1\r\nHost: a\xffb\r\n\r\n".to_vec();
    let rem = VisitFinder(Protoc::HTTPPT).get(&buf).unwrap();
    assert_eq!(rem.host(), "a\u{fffd}b");
    assert_eq!(rem.target(), "a\u{fffd}b:80");
}
