use polly::chat::{
    Accepted, Broadcast, ChatClient, ChatServer, ReadAction, Received, READ_BUFFER_SIZE,
};
use polly::pollable::{EventType, OsError, OwnedFD, Pollable, PollableOp};

const LISTENER: i32 = 3;

fn source(fd: i32) -> Pollable {
    OwnedFD::from(fd, fd + 100, OsError { code: 0 }).unwrap()
}

fn client(fd: i32, addr: &str) -> ChatClient {
    ChatClient::new(fd, String::from(addr))
}

fn connect(server: &mut ChatServer, fd: i32, addr: &str, greeted: Result<usize, OsError>) {
    let outcome = Accepted { client: client(fd, addr), pollable: source(fd), greeted };
    let ops = server.accept_finished(Ok(outcome)).unwrap();
    assert_eq!(ops.len(), 1);
    match &ops[0] {
        PollableOp::Register((pollable, event_type)) => {
            assert_eq!(pollable.as_raw_fd(), fd);
            assert_eq!(pollable.dup_fd(), fd + 100);
            assert_eq!(event_type.bits(), 5);
        }
        _ => panic!("not a registration"),
    }
}

fn room() -> ChatServer {
    let mut server = ChatServer::new(LISTENER);
    connect(&mut server, 10, "a:1", Ok(0));
    connect(&mut server, 11, "b:2", Ok(0));
    server
}

#[test]
fn a_server_listens_on_this_machine() {
    assert_eq!(ChatServer::address(1984), "127.0.0.1:1984");
    assert_eq!(ChatServer::address(0), "127.0.0.1:0");
    assert_eq!(ChatServer::address(65535), "127.0.0.1:65535");
    assert_eq!(ChatServer::new(LISTENER).listener_fd(), LISTENER);
}

#[test]
fn a_server_starts_with_its_listener() {
    let ops = ChatServer::new(LISTENER).init(9, OsError { code: 0 }).unwrap();
    assert_eq!(ops.len(), 1);
    match &ops[0] {
        PollableOp::Register((pollable, event_type)) => {
            assert_eq!(pollable.as_raw_fd(), LISTENER);
            assert_eq!(pollable.dup_fd(), 9);
            assert!(*event_type == EventType::read());
        }
        _ => panic!("not a registration"),
    }
}

#[test]
fn a_client_is_greeted() {
    let guest = client(10, "127.0.0.1:5000");
    assert_eq!(
        guest.greet(),
        "Welcome 127.0.0.1:5000 to the example Polly chatserver\r\n"
    );
    assert_eq!(guest.display(), "127.0.0.1:5000");
    assert_eq!(guest.as_raw_fd(), 10);
}

#[test]
fn what_was_sent_in_greeting_counts() {
    let mut server = ChatServer::new(LISTENER);
    connect(&mut server, 10, "a:1", Ok(45));
    connect(&mut server, 11, "b:2", Err(OsError { code: 32 }));
    assert_eq!(server.tx(), 45);
    assert_eq!(server.rx(), 0);
    assert_eq!(server.stats(), "Total Rx: 0, total Tx: 45");
}

#[test]
fn failed_connections_change_nothing() {
    let mut server = ChatServer::new(LISTENER);
    assert!(server.accept_finished(Err(OsError { code: 11 })).is_none());
    assert_eq!(server.handle_read(&source(10)), ReadAction::Ignore);
}

#[test]
fn reading_depends_on_the_source() {
    let server = room();
    assert_eq!(server.handle_read(&source(LISTENER)), ReadAction::Accept);
    assert_eq!(READ_BUFFER_SIZE, 128);
    assert_eq!(
        server.handle_read(&source(11)),
        ReadAction::Receive { client: 1, limit: 128 }
    );
    assert_eq!(server.handle_read(&source(12)), ReadAction::Ignore);
}

#[test]
fn the_first_of_two_clients_is_found() {
    let mut server = room();
    connect(&mut server, 10, "c:3", Ok(0));
    assert_eq!(
        server.handle_read(&source(10)),
        ReadAction::Receive { client: 0, limit: 128 }
    );
    assert_eq!(server.handle_close(&source(10)).unwrap().client.display(), "a:1");
    assert_eq!(server.handle_close(&source(10)).unwrap().client.display(), "c:3");
    assert!(server.handle_close(&source(10)).is_none());
}

#[test]
fn what_one_says_goes_to_all() {
    let mut server = room();
    match server.read_finished(1, Ok(b"hi\n".to_vec())) {
        Received::Message(Broadcast { message, recipients }) => {
            assert_eq!(message, "b:2 said hi\n");
            assert_eq!(recipients, vec![10, 11]);
        }
        _ => panic!("no message"),
    }
    assert_eq!(server.rx(), 3);
    assert_eq!(server.tx(), 24);
    assert_eq!(server.stats(), "Total Rx: 3, total Tx: 24");
}

#[test]
fn bytes_that_are_no_text_are_replaced() {
    let mut server = room();
    match server.read_finished(0, Ok(vec![b'x', 0xff, b'y'])) {
        Received::Message(broadcast) => assert_eq!(broadcast.message, "a:1 said x\u{fffd}y"),
        _ => panic!("no message"),
    }
    assert_eq!(server.rx(), 3);
    assert_eq!(server.tx(), 2 * 14);
    match server.read_finished(0, Ok("\u{e9}".as_bytes().to_vec())) {
        Received::Message(broadcast) => assert_eq!(broadcast.message, "a:1 said \u{e9}"),
        _ => panic!("no message"),
    }
}

#[test]
fn nothing_read_is_nothing_said() {
    let mut server = room();
    assert_eq!(server.read_finished(0, Ok(vec![])), Received::Nothing);
    assert_eq!(server.read_finished(0, Err(OsError { code: 104 })), Received::Nothing);
    assert_eq!(server.rx(), 0);
    assert_eq!(server.tx(), 0);
}

#[test]
fn given_text_is_relayed() {
    let mut server = room();
    assert!(server.has_room(0, 5, "hello"));
    let broadcast = server.relay(0, 5, "hello");
    assert_eq!(broadcast.message, "a:1 said hello");
    assert_eq!(broadcast.recipients, vec![10, 11]);
    assert_eq!(server.rx(), 5);
    assert_eq!(server.tx(), 28);
}

#[test]
fn counts_do_not_overflow() {
    let mut server = ChatServer::new(LISTENER);
    connect(&mut server, 10, "a:1", Ok(usize::MAX - 10));
    assert!(!server.has_room(0, 2, "hi"));
    assert_eq!(server.read_finished(0, Ok(b"hi".to_vec())), Received::Overflow);
    assert_eq!(server.tx(), u64::MAX - 10);
    assert_eq!(server.rx(), 0);
    assert!(server.has_room(0, 1, "h"));
    assert!(matches!(server.read_finished(0, Ok(b"h".to_vec())), Received::Message(_)));
    assert_eq!(server.tx(), u64::MAX);
}

#[test]
fn a_client_that_closes_is_taken_out() {
    let mut server = room();
    let departure = server.handle_close(&source(10)).unwrap();
    assert_eq!(departure.client.display(), "a:1");
    assert_eq!(departure.ops.len(), 1);
    match &departure.ops[0] {
        PollableOp::Unregister((pollable, event_type)) => {
            assert_eq!(pollable.as_raw_fd(), 10);
            assert_eq!(pollable.dup_fd(), 110);
            assert!(*event_type == EventType::none());
        }
        _ => panic!("not an unregistration"),
    }
    assert_eq!(
        server.handle_read(&source(11)),
        ReadAction::Receive { client: 0, limit: 128 }
    );
    assert!(server.handle_close(&source(10)).is_none());
}

#[test]
fn a_client_that_fails_is_taken_out() {
    let mut server = room();
    let departure = server.handle_error(&source(11)).unwrap();
    assert_eq!(departure.client.display(), "b:2");
    assert_eq!(departure.ops.len(), 1);
    assert!(server.handle_error(&source(11)).is_none());
    assert_eq!(
        server.handle_read(&source(10)),
        ReadAction::Receive { client: 0, limit: 128 }
    );
}

#[test]
fn leaving_undoes_connecting() {
    let mut server = room();
    connect(&mut server, 12, "c:3", Ok(0));
    assert_eq!(server.handle_close(&source(12)).unwrap().client.display(), "c:3");
    match server.read_finished(0, Ok(b"hi".to_vec())) {
        Received::Message(broadcast) => assert_eq!(broadcast.recipients, vec![10, 11]),
        _ => panic!("no message"),
    }
}
