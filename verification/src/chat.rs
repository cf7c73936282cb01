//! A chat server that runs on an event manager: it greets whoever connects,
//! and passes on what each client says to all of them.
//!
//! Sockets are not dealt with here. A client is known by the number of its
//! descriptor and by the text of its address.
use crate::pollable::{
    EventType, OsError, OwnedFD, Pollable, PollableOp, PollableOpBuilder, share,
};
use crate::text::{decimal, push_decimal};
use vstd::prelude::*;
use vstd::string::*;
use vstd::utf8::{decode_utf8, encode_utf8, valid_utf8};

verus! {

/// How many bytes are read from a client at a time.
pub const READ_BUFFER_SIZE: usize = 128;

/// The text of some bytes, with a replacement character wherever they are not
/// UTF-8.
pub uninterp spec fn lossy_text(bytes: Seq<u8>) -> Seq<char>;

/// `String::from_utf8_lossy`: the text depends on the bytes alone, and if they
/// are UTF-8 it is the text that they encode.
#[verifier::external_body]
fn from_utf8_lossy(bytes: &[u8]) -> (text: String)
    ensures
        text@ == lossy_text(bytes@),
        valid_utf8(bytes@) ==> text@ == decode_utf8(bytes@),
{
    String::from_utf8_lossy(bytes).into_owned()
}

/// The address that a server listens on.
pub open spec fn address_text(port: u16) -> Seq<char> {
    "127.0.0.1:"@ + decimal(port as nat)
}

/// What a client is told when it connects.
pub open spec fn greeting(addr: Seq<char>) -> Seq<char> {
    "Welcome "@ + addr + " to the example Polly chatserver\r\n"@
}

/// What all clients are told when one of them has said something.
pub open spec fn said(addr: Seq<char>, text: Seq<char>) -> Seq<char> {
    addr + " said "@ + text
}

/// How much has been received and sent.
pub open spec fn stats_text(rx: u64, tx: u64) -> Seq<char> {
    "Total Rx: "@ + decimal(rx as nat) + ", total Tx: "@ + decimal(tx as nat)
}

/// A client, by its descriptor and its address.
#[verifier::ext_equal]
pub struct ClientView {
    pub fd: i32,
    pub addr: Seq<char>,
}

/// A server: its clients in the order in which they came, the descriptor that
/// it listens on, and how many bytes it has received and sent.
#[verifier::ext_equal]
pub struct ServerView {
    pub clients: Seq<ClientView>,
    pub listener: i32,
    pub rx: u64,
    pub tx: u64,
}

/// Whether the `i`-th client is the first one with this descriptor.
pub open spec fn is_first(clients: Seq<ClientView>, fd: i32, i: int) -> bool {
    &&& 0 <= i < clients.len()
    &&& clients[i].fd == fd
    &&& forall|j: int| 0 <= j < i ==> (#[trigger] clients[j]).fd != fd
}

/// Whether some client has this descriptor.
pub open spec fn has_client(clients: Seq<ClientView>, fd: i32) -> bool {
    exists|i: int| 0 <= i < clients.len() && (#[trigger] clients[i]).fd == fd
}

/// The descriptors of clients, in order.
pub open spec fn descriptors(clients: Seq<ClientView>) -> Seq<i32> {
    clients.map_values(|client: ClientView| client.fd)
}

impl ServerView {
    /// How many bytes go out when all clients are told `text` in the name of
    /// one of them.
    pub open spec fn outgoing(self, client: int, text: Seq<char>) -> nat {
        self.clients.len() * encode_utf8(said(self.clients[client].addr, text)).len()
    }

    /// Whether the counts have room for `count` bytes that a client has sent
    /// and for what goes out in turn.
    pub open spec fn has_room(self, client: int, count: int, text: Seq<char>) -> bool {
        &&& self.rx + count <= u64::MAX
        &&& self.tx + self.outgoing(client, text) <= u64::MAX
    }

    /// The server after `count` bytes from a client have been passed on as
    /// `text`.
    pub open spec fn relayed(self, client: int, count: int, text: Seq<char>) -> ServerView {
        ServerView {
            rx: (self.rx + count) as u64,
            tx: (self.tx + self.outgoing(client, text)) as u64,
            ..self
        }
    }
}

/// Someone who takes part in the chat.
#[derive(Debug, PartialEq)]
pub struct ChatClient {
    fd: i32,
    addr: String,
}

impl View for ChatClient {
    type V = ClientView;

    closed spec fn view(&self) -> ClientView {
        ClientView { fd: self.fd, addr: self.addr@ }
    }
}

impl ChatClient {
    /// The client whose stream has this descriptor and comes from this
    /// address.
    pub fn new(fd: i32, addr: String) -> (r: ChatClient)
        ensures
            r@ == (ClientView { fd, addr: addr@ }),
    {
        ChatClient { fd, addr }
    }

    /// What the client is told when it connects.
    pub fn greet(&self) -> (message: String)
        ensures
            message@ == greeting(self@.addr),
    {
        let mut message = String::new();
        message.append("Welcome ");
        message.append(self.addr.as_str());
        message.append(" to the example Polly chatserver\r\n");
        assert(message@ =~= greeting(self@.addr));
        message
    }

    /// The address of the client.
    pub fn display(&self) -> (text: &str)
        ensures
            text@ == self@.addr,
    {
        self.addr.as_str()
    }

    /// The descriptor of the client's stream.
    pub fn as_raw_fd(&self) -> (fd: i32)
        ensures
            fd == self@.fd,
    {
        self.fd
    }
}

/// What a server does when there is something to read.
#[derive(Debug, PartialEq, Eq)]
pub enum ReadAction {
    /// A connection is to be accepted. The outcome goes to
    /// [`ChatServer::accept_finished`].
    Accept,
    /// At most `limit` bytes are to be read from the client with this index.
    /// The outcome goes to [`ChatServer::read_finished`].
    Receive { client: usize, limit: usize },
    /// Nothing.
    Ignore,
}

/// A connection that has been accepted.
pub struct Accepted {
    pub client: ChatClient,
    /// The descriptor of its stream.
    pub pollable: Pollable,
    /// How much of the greeting was sent.
    pub greeted: Result<usize, OsError>,
}

/// A message, and the descriptors that it is to be written to, in order.
#[derive(Debug, PartialEq)]
pub struct Broadcast {
    pub message: String,
    pub recipients: Vec<i32>,
}

/// What comes of an attempt to read from a client.
#[derive(Debug, PartialEq)]
pub enum Received {
    /// There was nothing to pass on.
    Nothing,
    /// There is a message to pass on.
    Message(Broadcast),
    /// The counts have no room for the message.
    Overflow,
}

/// A client that has left, and what is to be done about its descriptor.
#[derive(PartialEq)]
pub struct Departure {
    pub client: ChatClient,
    pub ops: Vec<PollableOp>,
}

/// The operation that asks for the end of an interest in `source`.
pub open spec fn ends_interest(ops: Seq<PollableOp>, source: Pollable) -> bool {
    ops.len() == 1 && (ops[0] matches PollableOp::Unregister(data) && data.0 == source
        && data.1.spec_bits() == EventType::NONE)
}

/// Passes on what each client says.
pub struct ChatServer {
    clients: Vec<ChatClient>,
    listener: i32,
    rx: u64,
    tx: u64,
}

impl View for ChatServer {
    type V = ServerView;

    closed spec fn view(&self) -> ServerView {
        ServerView {
            clients: self.clients@.map_values(|client: ChatClient| client@),
            listener: self.listener,
            rx: self.rx,
            tx: self.tx,
        }
    }
}

impl ChatServer {
    /// The address that a server listens on.
    pub fn address(port: u16) -> (text: String)
        ensures
            text@ == address_text(port),
    {
        let mut text = String::new();
        text.append("127.0.0.1:");
        push_decimal(&mut text, port as u64);
        assert(text@ =~= address_text(port));
        text
    }

    /// A server without clients that listens on this descriptor.
    pub fn new(listener: i32) -> (r: ChatServer)
        ensures
            r@ == (ServerView { clients: Seq::empty(), listener, rx: 0, tx: 0 }),
    {
        let r = ChatServer { clients: Vec::new(), listener, rx: 0, tx: 0 };
        assert(r@.clients =~= Seq::empty());
        r
    }

    /// How much has been received and sent.
    pub fn stats(&self) -> (text: String)
        ensures
            text@ == stats_text(self@.rx, self@.tx),
    {
        let mut text = String::new();
        text.append("Total Rx: ");
        push_decimal(&mut text, self.rx);
        text.append(", total Tx: ");
        push_decimal(&mut text, self.tx);
        assert(text@ =~= stats_text(self.rx, self.tx));
        text
    }

    /// How many bytes have been received.
    pub fn rx(&self) -> (count: u64)
        ensures
            count == self@.rx,
    {
        self.rx
    }

    /// How many bytes have been sent.
    pub fn tx(&self) -> (count: u64)
        ensures
            count == self@.tx,
    {
        self.tx
    }

    /// The descriptor that the server listens on.
    pub fn listener_fd(&self) -> (fd: i32)
        ensures
            fd == self@.listener,
    {
        self.listener
    }

    /// What a server starts out with: the descriptor that it listens on, for
    /// something to read on it. `returned` is the system's answer to the
    /// request for a duplicate of that descriptor.
    pub fn init(&self, returned: i32, last_os_error: OsError) -> (ops: Option<Vec<PollableOp>>)
        requires
            returned >= 0,
        ensures
            ops matches Some(ops) && ops.len() == 1 && (ops[0] matches PollableOp::Register(data)
                && data.0.spec_fd() == self@.listener && data.0.spec_dup_fd() == returned
                && data.1.spec_bits() == EventType::READ),
    {
        let fd = OwnedFD::from(self.listener, returned, last_os_error).unwrap();
        assert(EventType::NONE | EventType::READ == EventType::READ) by (bit_vector);
        Some(vec![PollableOpBuilder::new(fd).readable().register()])
    }

    /// The index of the first client with this descriptor.
    fn position(&self, fd: i32) -> (r: Option<usize>)
        ensures
            match r {
                Some(i) => is_first(self@.clients, fd, i as int),
                None => !has_client(self@.clients, fd),
            },
    {
        let mut i: usize = 0;
        while i < self.clients.len()
            invariant
                i <= self.clients.len(),
                forall|j: int| 0 <= j < i ==> (#[trigger] self@.clients[j]).fd != fd,
            decreases self.clients.len() - i,
        {
            assert(self@.clients[i as int] == self.clients[i as int]@);
            if self.clients[i].fd == fd {
                return Some(i);
            }
            i = i + 1;
        }
        None
    }

    /// What is to be done when there is something to read on `source`: accept
    /// a connection, if that is what the server listens on, or read from a
    /// client.
    pub fn handle_read(&self, source: &Pollable) -> (action: ReadAction)
        ensures
            match action {
                ReadAction::Accept => source.spec_fd() == self@.listener,
                ReadAction::Receive { client, limit } => {
                    &&& source.spec_fd() != self@.listener
                    &&& is_first(self@.clients, source.spec_fd(), client as int)
                    &&& limit == READ_BUFFER_SIZE
                },
                ReadAction::Ignore => {
                    &&& source.spec_fd() != self@.listener
                    &&& !has_client(self@.clients, source.spec_fd())
                },
            },
    {
        let fd = source.as_raw_fd();
        if fd == self.listener {
            ReadAction::Accept
        } else {
            match self.position(fd) {
                Some(client) => ReadAction::Receive { client, limit: READ_BUFFER_SIZE },
                None => ReadAction::Ignore,
            }
        }
    }

    /// Takes in a client whose connection has been accepted. It is to be
    /// watched for something to read, and for its closing.
    pub fn accept_finished(&mut self, outcome: Result<Accepted, OsError>) -> (ops: Option<
        Vec<PollableOp>,
    >)
        requires
            outcome matches Ok(accepted) ==> accepted.greeted matches Ok(count) ==> old(self)@.tx
                + count <= u64::MAX,
        ensures
            match outcome {
                Ok(accepted) => {
                    &&& final(self)@ == (ServerView {
                        clients: old(self)@.clients.push(accepted.client@),
                        tx: match accepted.greeted {
                            Ok(count) => (old(self)@.tx + count) as u64,
                            Err(_) => old(self)@.tx,
                        },
                        ..old(self)@
                    })
                    &&& ops matches Some(ops) && ops.len() == 1 && (
                    ops[0] matches PollableOp::Register(data) && data.0 == accepted.pollable
                        && data.1.spec_bits() == EventType::READ | EventType::CLOSE)
                },
                Err(_) => final(self)@ == old(self)@ && ops is None,
            },
    {
        match outcome {
            Ok(accepted) => {
                let Accepted { client, pollable, greeted } = accepted;
                if let Ok(count) = greeted {
                    self.tx = self.tx + count as u64;
                }
                self.clients.push(client);
                assert(self@.clients =~= old(self)@.clients.push(client@));
                assert(EventType::NONE | EventType::READ == EventType::READ) by (bit_vector);
                Some(vec![PollableOpBuilder::new(pollable).readable().closeable().register()])
            },
            Err(_) => None,
        }
    }

    /// Takes a client out whose connection has been closed.
    pub fn handle_close(&mut self, source: &Pollable) -> (r: Option<Departure>)
        ensures
            match r {
                Some(departure) => exists|i: int| #[trigger]
                    is_first(old(self)@.clients, source.spec_fd(), i) && departure.client@
                        == old(self)@.clients[i] && final(self)@ == (ServerView {
                        clients: old(self)@.clients.remove(i),
                        ..old(self)@
                    }) && ends_interest(departure.ops@, *source),
                None => final(self)@ == old(self)@ && !has_client(
                    old(self)@.clients,
                    source.spec_fd(),
                ),
            },
    {
        match self.position(source.as_raw_fd()) {
            Some(index) => {
                let client = self.clients.remove(index);
                assert(self@.clients =~= old(self)@.clients.remove(index as int));
                assert(is_first(old(self)@.clients, source.spec_fd(), index as int));
                Some(
                    Departure {
                        client,
                        ops: vec![PollableOpBuilder::new(share(source)).unregister()],
                    },
                )
            },
            None => None,
        }
    }

    /// Takes a client out whose connection has failed.
    pub fn handle_error(&mut self, source: &Pollable) -> (r: Option<Departure>)
        ensures
            match r {
                Some(departure) => exists|i: int| #[trigger]
                    is_first(old(self)@.clients, source.spec_fd(), i) && departure.client@
                        == old(self)@.clients[i] && final(self)@ == (ServerView {
                        clients: old(self)@.clients.remove(i),
                        ..old(self)@
                    }) && ends_interest(departure.ops@, *source),
                None => final(self)@ == old(self)@ && !has_client(
                    old(self)@.clients,
                    source.spec_fd(),
                ),
            },
    {
        self.handle_close(source)
    }

    /// What all clients are told when one of them has said `text`.
    fn message(&self, client: usize, text: &str) -> (message: String)
        requires
            client < self@.clients.len(),
        ensures
            message@ == said(self@.clients[client as int].addr, text@),
    {
        let mut message = String::new();
        message.append(self.clients[client].display());
        message.append(" said ");
        message.append(text);
        assert(message@ =~= said(self@.clients[client as int].addr, text@));
        message
    }

    /// Whether the counts have room for `count` bytes that a client has sent
    /// and for what goes out in turn.
    pub fn has_room(&self, client: usize, count: usize, text: &str) -> (r: bool)
        requires
            client < self@.clients.len(),
        ensures
            r == self@.has_room(client as int, count as int, text@),
            r == (self@.rx + count <= u64::MAX && self@.tx + self@.clients.len() * encode_utf8(
                said(self@.clients[client as int].addr, text@),
            ).len() <= u64::MAX),
    {
        let message = self.message(client, text);
        let length: usize = message.as_str().as_bytes().len();
        let clients: usize = self.clients.len();
        assert(0 <= clients * length <= u64::MAX * u64::MAX) by (nonlinear_arith)
            requires
                0 <= clients <= u64::MAX,
                0 <= length <= u64::MAX,
        ;
        let outgoing: u128 = clients as u128 * length as u128;
        self.rx as u128 + count as u128 <= u64::MAX as u128 && outgoing <= (u64::MAX - self.tx) as u128
    }

    /// Passes on `text`, which a client has sent in `count` bytes.
    pub fn relay(&mut self, client: usize, count: usize, text: &str) -> (broadcast: Broadcast)
        requires
            client < old(self)@.clients.len(),
            old(self)@.has_room(client as int, count as int, text@),
        ensures
            final(self)@ == old(self)@.relayed(client as int, count as int, text@),
            broadcast.message@ == said(old(self)@.clients[client as int].addr, text@),
            broadcast.recipients@ == descriptors(old(self)@.clients),
    {
        let message = self.message(client, text);
        let length: usize = message.as_str().as_bytes().len();
        self.rx = self.rx + count as u64;
        let mut recipients: Vec<i32> = Vec::new();
        let mut i: usize = 0;
        while i < self.clients.len()
            invariant
                i <= self.clients.len(),
                client < old(self)@.clients.len(),
                self.clients@ == old(self).clients@,
                self.listener == old(self).listener,
                self.rx == old(self)@.rx + count,
                self.tx == old(self)@.tx + i * length,
                old(self)@.tx + self.clients.len() * length <= u64::MAX,
                recipients@ == descriptors(old(self)@.clients).take(i as int),
            decreases self.clients.len() - i,
        {
            assert(i * length + length <= self.clients.len() * length) by (nonlinear_arith)
                requires
                    i + 1 <= self.clients.len(),
            ;
            assert((i + 1) * length == i * length + length) by (nonlinear_arith);
            recipients.push(self.clients[i].as_raw_fd());
            assert(recipients@ =~= descriptors(old(self)@.clients).take(i + 1));
            self.tx = self.tx + length as u64;
            i = i + 1;
        }
        assert(recipients@ =~= descriptors(old(self)@.clients));
        Broadcast { message, recipients }
    }

    /// Passes on what was read from a client, unless that is nothing.
    pub fn read_finished(&mut self, client: usize, outcome: Result<Vec<u8>, OsError>) -> (r: Received)
        requires
            client < old(self)@.clients.len(),
        ensures
            match outcome {
                Ok(data) => if data.len() == 0 {
                    final(self)@ == old(self)@ && r is Nothing
                } else if old(self)@.has_room(
                    client as int,
                    data.len() as int,
                    lossy_text(data@),
                ) {
                    &&& final(self)@ == old(self)@.relayed(
                        client as int,
                        data.len() as int,
                        lossy_text(data@),
                    )
                    &&& r matches Received::Message(broadcast) && broadcast.message@ == said(
                        old(self)@.clients[client as int].addr,
                        lossy_text(data@),
                    ) && broadcast.recipients@ == descriptors(old(self)@.clients)
                } else {
                    final(self)@ == old(self)@ && r is Overflow
                },
                Err(_) => final(self)@ == old(self)@ && r is Nothing,
            },
            r is Message == (outcome matches Ok(data) && data.len() > 0 && old(self)@.rx
                + data.len() <= u64::MAX && old(self)@.tx + old(self)@.clients.len() * encode_utf8(
                said(old(self)@.clients[client as int].addr, lossy_text(data@)),
            ).len() <= u64::MAX),
            outcome matches Ok(data) ==> (data.len() > 0 && valid_utf8(data@) ==> lossy_text(data@)
                == decode_utf8(data@)),
    {
        match outcome {
            Ok(data) => {
                if data.len() == 0 {
                    return Received::Nothing;
                }
                let text = from_utf8_lossy(data.as_slice());
                if self.has_room(client, data.len(), text.as_str()) {
                    Received::Message(self.relay(client, data.len(), text.as_str()))
                } else {
                    Received::Overflow
                }
            },
            Err(_) => Received::Nothing,
        }
    }
}

} // verus!
