use redis_clone::server::Server;

#[test]
fn test_server_keeps_address() {
    let server = Server::new(String::from("127.0.0.1:8080"));
    assert_eq!(server.addr().as_str(), "127.0.0.1:8080");
}
