use proto_server::codec::{decode_response, encode_request};
use proto_server::message::{Request, Response};
use proto_server::session::{Action, Client, ReadEvent};
use proto_server::shutdown::Coordinator;

/// Hands one message to a running handler and returns what it writes back.
fn exchange(client: &mut Client, req: &Request) -> Option<Response> {
    match client.handle(true, ReadEvent::Data(encode_request(req))) {
        Action::Reply(out) => decode_response(&out),
        _ => None,
    }
}

fn echo(text: &str) -> Request {
    Request::Echo(text.to_string())
}

fn started() -> Coordinator<u32> {
    let mut c = Coordinator::new();
    c.start();
    assert!(c.is_running());
    c
}

fn disconnect(client: &mut Client) {
    assert_eq!(client.handle(true, ReadEvent::Closed), Action::Finish);
}

#[test]
fn test_client_connection() {
    let mut server = started();
    let mut client = Client::new();
    server.register(1);
    disconnect(&mut client);
    assert_eq!(server.stop(), Some(vec![1]));
    assert!(!server.is_running());
}

#[test]
fn test_client_echo_message() {
    let mut server = started();
    let mut client = Client::new();
    server.register(1);
    assert_eq!(
        exchange(&mut client, &echo("Hello, World!")),
        Some(Response::Echo("Hello, World!".to_string()))
    );
    disconnect(&mut client);
    assert_eq!(server.stop(), Some(vec![1]));
}

#[test]
fn test_multiple_echo_messages() {
    let mut server = started();
    let mut client = Client::new();
    server.register(1);
    for text in ["Hello, World!", "How are you?", "Goodbye!"] {
        assert_eq!(exchange(&mut client, &echo(text)), Some(Response::Echo(text.to_string())));
    }
    disconnect(&mut client);
    assert_eq!(server.stop(), Some(vec![1]));
}

#[test]
fn test_multiple_clients() {
    let mut server = started();
    let mut clients = vec![Client::new(), Client::new(), Client::new()];
    for id in 0..3u32 {
        server.register(id);
    }
    for text in ["Hello, World!", "How are you?", "Goodbye!"] {
        for client in clients.iter_mut() {
            assert_eq!(exchange(client, &echo(text)), Some(Response::Echo(text.to_string())));
        }
    }
    for client in clients.iter_mut() {
        disconnect(client);
    }
    assert_eq!(server.stop(), Some(vec![0, 1, 2]));
}

#[test]
fn test_client_add_request() {
    let mut server = started();
    let mut client = Client::new();
    server.register(1);
    assert_eq!(exchange(&mut client, &Request::Add(10, 20)), Some(Response::Sum(30)));
    disconnect(&mut client);
    assert_eq!(server.stop(), Some(vec![1]));
}

#[test]
fn test_client_add_request_with_negative_numbers() {
    let mut server = started();
    let mut client = Client::new();
    server.register(1);
    assert_eq!(exchange(&mut client, &Request::Add(-10, -20)), Some(Response::Sum(-30)));
    disconnect(&mut client);
    assert_eq!(server.stop(), Some(vec![1]));
}

#[test]
fn test_client_send_message_after_disconnect() {
    let mut server = started();
    let mut client = Client::new();
    server.register(1);
    disconnect(&mut client);
    let late = client.handle(true, ReadEvent::Data(encode_request(&echo("Hello, Server!"))));
    assert_eq!(late, Action::Finish);
    assert_eq!(server.stop(), Some(vec![1]));
}

#[test]
fn test_server_handling_large_number_of_messages() {
    let mut server = started();
    let mut client = Client::new();
    server.register(1);
    let num_messages = 500;
    let mut success_count = 0;
    for i in 0..num_messages {
        let text = format!("Test Message {}", i);
        match exchange(&mut client, &Request::Echo(text.clone())) {
            Some(Response::Echo(back)) => {
                if back == text {
                    success_count += 1;
                }
            }
            _ => panic!("Expected EchoMessage, but received a different message"),
        }
    }
    assert_eq!(success_count, num_messages, "Not all messages were echoed correctly");
    disconnect(&mut client);
    assert_eq!(server.stop(), Some(vec![1]));
}
