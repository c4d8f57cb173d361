use norman::client::{request, Target, RESPONSE_PORT};
use norman::packet::{RequestType, Service, Status};
use norman::server::REQUEST_PORT;

fn args(list: &[&str]) -> Vec<String> {
    list.iter().map(|arg| arg.to_string()).collect()
}

#[test]
fn the_two_ports_are_fixed_and_distinct() {
    assert_eq!(REQUEST_PORT, 7878);
    assert_eq!(RESPONSE_PORT, 7575);
}

#[test]
fn the_server_takes_a_thread_count() {
    let options = norman::server::UserOptions::new(args(&["norman-server", "4"])).ok().unwrap();
    assert_eq!(options.thread_count, 4);
    let options = norman::server::UserOptions::new(args(&["norman-server", " 12\n", "more"])).ok().unwrap();
    assert_eq!(options.thread_count, 12);
    let options = norman::server::UserOptions::new(args(&["norman-server", "0"])).ok().unwrap();
    assert_eq!(options.thread_count, 0);
}

#[test]
fn the_server_refuses_a_missing_thread_count() {
    let expected =
        "No thread count provided. \n This is the number of threads the application should create";
    assert_eq!(norman::server::UserOptions::new(args(&["norman-server"])).err(), Some(expected));
    assert_eq!(norman::server::UserOptions::new(args(&[])).err(), Some(expected));
}

#[test]
fn the_server_refuses_a_thread_count_that_is_no_number() {
    for text in ["four", "", "-1", "4.5", "4 threads", "99999999999999999999999"] {
        assert_eq!(
            norman::server::UserOptions::new(args(&["norman-server", text])).err(),
            Some("Thread count must be a number")
        );
    }
}

#[test]
fn the_client_takes_a_target() {
    let options =
        norman::client::UserOptions::new(args(&["norman", "10.0.0.7", "7878"])).ok().unwrap();
    assert_eq!(options.target.ip, "10.0.0.7");
    assert_eq!(options.target.port, "7878");
    assert_eq!(options.target.address(), "10.0.0.7:7878");
}

#[test]
fn the_client_refuses_a_missing_target() {
    assert_eq!(
        norman::client::UserOptions::new(args(&["norman"])).err(),
        Some("No ip provided. \n Syntax: norman <ip> <port>")
    );
    assert_eq!(
        norman::client::UserOptions::new(args(&[])).err(),
        Some("No ip provided. \n Syntax: norman <ip> <port>")
    );
    assert_eq!(
        norman::client::UserOptions::new(args(&["norman", "localhost"])).err(),
        Some("No port provided \n Syntax: norman <ip> <port>")
    );
}

#[test]
fn an_address_joins_host_and_port() {
    let target = Target { ip: "::1".to_string(), port: "80".to_string() };
    assert_eq!(target.address(), "::1:80");
    let target = Target { ip: String::new(), port: String::new() };
    assert_eq!(target.address(), ":");
}

#[test]
fn a_request_asks_the_shell() {
    let packet = request("echo \"Hello World\"".to_string());
    assert_eq!(packet.header.version, "NORMAN/0.1");
    assert!(packet.header.return_output);
    assert_eq!(packet.header.service, Service::SHELL);
    assert_eq!(packet.meta.req_type, RequestType::REQUEST);
    assert_eq!(packet.meta.status, Status::FINE { code: 200 });
    assert_eq!(packet.encryption.encoding_type, "None");
    assert!(!packet.terminator.multi_packet);
    assert_eq!(
        packet.as_string(),
        "NORMAN/0.1|true|SHELL|REQUEST|200 OK|0|None| |echo \"Hello World\"|false|NORMAN/END"
    );
}
