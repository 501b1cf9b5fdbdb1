#[test]
fn listener_reports_the_assigned_port() {
    let rt = tokio::runtime::Builder::new_current_thread()
        .enable_all()
        .build()
        .unwrap();
    rt.block_on(async {
        let listener = tokio::net::TcpListener::bind("127.0.0.1:0").await.unwrap();
        let bound = listener.local_addr().unwrap();
        assert_ne!(bound.port(), 0);
        // the library's grammar reads the reported address back
        let lib = netproxy::addr::parse_socket_addr(&bound.to_string()).unwrap();
        assert_eq!(lib.port, bound.port());
        assert_eq!(netproxy::addr::format_socket_addr(&lib), bound.to_string());
    });
}
