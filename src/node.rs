use vstd::prelude::*;

use crate::addr::{push_signed_decimal, signed_decimal, PeerAddr};
use crate::command::{command_text, decode, decodes_to, encode, word_list, word_msg, word_new, word_stop, Command, SPACE};
use crate::registry::{without, PeerRegistry};

verus! {

/// One datagram to send: where to, and its bytes.
pub struct Datagram {
    pub dest: PeerAddr,
    pub payload: Vec<u8>,
}

impl View for Datagram {
    type V = (PeerAddr, Seq<u8>);

    open spec fn view(&self) -> (PeerAddr, Seq<u8>) {
        (self.dest, self.payload@)
    }
}

/// What a list of datagrams sends, in order.
pub open spec fn sent(v: Seq<Datagram>) -> Seq<(PeerAddr, Seq<u8>)> {
    v.map_values(|d: Datagram| d@)
}

/// The text of a `list_response` that names `p`.
pub open spec fn list_response_text(p: PeerAddr) -> Seq<u8> {
    command_text(Command::ListResponse(p))
}

/// The text of a gossip message carrying the number `n`.
pub open spec fn gossip_text(n: int) -> Seq<u8> {
    word_msg() + seq![SPACE] + signed_decimal(n)
}

/// The registry after handling command `c` from `sender`.
pub open spec fn registry_after(peers: Seq<PeerAddr>, c: Command, sender: PeerAddr) -> Seq<PeerAddr> {
    match c {
        Command::New => peers.push(sender),
        Command::List => peers.push(sender),
        Command::ListResponse(a) => peers.push(a),
        Command::Stop => without(peers, sender),
        _ => peers,
    }
}

/// The datagrams sent in answer to command `c` from `sender`, given the registry before it.
pub open spec fn replies(peers: Seq<PeerAddr>, c: Command, sender: PeerAddr) -> Seq<(PeerAddr, Seq<u8>)> {
    match c {
        Command::List => peers.map_values(|p: PeerAddr| (sender, list_response_text(p))),
        Command::ListResponse(a) => seq![(a, word_new())],
        _ => Seq::empty(),
    }
}

/// The same text sent once to each peer, in registry order.
pub open spec fn broadcast(peers: Seq<PeerAddr>, text: Seq<u8>) -> Seq<(PeerAddr, Seq<u8>)> {
    peers.map_values(|p: PeerAddr| (p, text))
}

/// The registry right after start, with or without a bootstrap peer.
pub open spec fn joined(peers: Seq<PeerAddr>, connect_to: Option<PeerAddr>) -> Seq<PeerAddr> {
    match connect_to {
        Some(a) => peers.push(a),
        None => peers,
    }
}

/// The datagrams sent at start: a `list` request to the bootstrap peer, if any.
pub open spec fn join_requests(connect_to: Option<PeerAddr>) -> Seq<(PeerAddr, Seq<u8>)> {
    match connect_to {
        Some(a) => seq![(a, word_list())],
        None => Seq::empty(),
    }
}

/// What a node is: its settings, its registry and whether it still runs.
pub struct NodeState {
    pub port: u16,
    pub period: u64,
    pub peers: Seq<PeerAddr>,
    pub alive: bool,
}

/// The protocol state of one node. Sockets, threads and timers are the caller's: the node
/// is handed each event and answers with the datagrams to send.
pub struct Node {
    port: u16,
    period: u64,
    registry: PeerRegistry,
    alive: bool,
}

impl View for Node {
    type V = NodeState;

    closed spec fn view(&self) -> NodeState {
        NodeState { port: self.port, period: self.period, peers: self.registry@, alive: self.alive }
    }
}

/// Relies on rand::random: a value drawn from the thread-local generator. Nothing is
/// promised of it.
#[verifier::external_body]
fn random_i32() -> (r: i32) {
    rand::random::<i32>()
}

/// A `list_response` to `dest` for each peer, in order.
fn list_responses(dest: PeerAddr, peers: &Vec<PeerAddr>) -> (r: Vec<Datagram>)
    ensures
        sent(r@) == peers@.map_values(|p: PeerAddr| (dest, list_response_text(p))),
{
    let mut out: Vec<Datagram> = Vec::new();
    let mut i: usize = 0;
    while i < peers.len()
        invariant
            0 <= i <= peers@.len(),
            out@.len() == i,
            forall|j: int| 0 <= j < i ==> (#[trigger] out@[j])@ == (dest, list_response_text(peers@[j])),
        decreases peers@.len() - i,
    {
        let payload = encode(&Command::ListResponse(peers[i]));
        out.push(Datagram { dest, payload });
        i = i + 1;
    }
    assert(sent(out@) =~= peers@.map_values(|p: PeerAddr| (dest, list_response_text(p))));
    out
}

/// The same bytes to each peer, in order.
fn to_each(peers: &Vec<PeerAddr>, text: &Vec<u8>) -> (r: Vec<Datagram>)
    ensures
        sent(r@) == broadcast(peers@, text@),
{
    let mut out: Vec<Datagram> = Vec::new();
    let mut i: usize = 0;
    while i < peers.len()
        invariant
            0 <= i <= peers@.len(),
            out@.len() == i,
            forall|j: int| 0 <= j < i ==> (#[trigger] out@[j])@ == (peers@[j], text@),
        decreases peers@.len() - i,
    {
        out.push(Datagram { dest: peers[i], payload: text.clone() });
        i = i + 1;
    }
    assert(sent(out@) =~= broadcast(peers@, text@));
    out
}

impl Node {
    /// A running node with an empty registry.
    pub fn new(port: u16, period: u64) -> (r: Node)
        ensures
            r@ == (NodeState { port, period, peers: Seq::empty(), alive: true }),
    {
        Node { port, period, registry: PeerRegistry::new(), alive: true }
    }

    /// Joins through `connect_to`, if given: records it and asks it for its peers.
    pub fn start(&mut self, connect_to: Option<PeerAddr>) -> (r: Vec<Datagram>)
        ensures
            final(self)@ == (NodeState { peers: joined(old(self)@.peers, connect_to), ..old(self)@ }),
            sent(r@) == join_requests(connect_to),
    {
        let mut out: Vec<Datagram> = Vec::new();
        match connect_to {
            Some(a) => {
                self.registry.insert(a);
                out.push(Datagram { dest: a, payload: encode(&Command::List) });
                assert(sent(out@) =~= join_requests(connect_to));
            },
            None => {
                assert(sent(out@) =~= join_requests(connect_to));
            },
        }
        out
    }

    /// Decodes a datagram from `sender` and handles it. Returns the command, for the caller
    /// to report, and the replies to send.
    pub fn execute_command(&mut self, datagram: &[u8], sender: PeerAddr) -> (r: (Command, Vec<Datagram>))
        ensures
            decodes_to(datagram@, r.0),
            final(self)@ == (NodeState {
                peers: registry_after(old(self)@.peers, r.0, sender),
                ..old(self)@
            }),
            sent(r.1@) == replies(old(self)@.peers, r.0, sender),
    {
        let c = decode(datagram);
        let out = self.handle(&c, sender);
        (c, out)
    }

    /// Handles command `c` from `sender`: updates the registry and returns the replies.
    pub fn handle(&mut self, c: &Command, sender: PeerAddr) -> (r: Vec<Datagram>)
        ensures
            final(self)@ == (NodeState {
                peers: registry_after(old(self)@.peers, *c, sender),
                ..old(self)@
            }),
            sent(r@) == replies(old(self)@.peers, *c, sender),
            c is List ==> r@.len() == old(self)@.peers.len(),
            c is Stop ==> !final(self)@.peers.contains(sender),
    {
        match c {
            Command::New => {
                self.handle_new_command(sender);
                let out: Vec<Datagram> = Vec::new();
                assert(sent(out@) =~= replies(old(self)@.peers, *c, sender));
                out
            },
            Command::List => {
                let out = self.handle_list_command(sender);
                assert(sent(out@).len() == out@.len());
                out
            },
            Command::ListResponse(a) => self.handle_list_response(*a),
            Command::Stop => {
                self.handle_stop_command(sender);
                let out: Vec<Datagram> = Vec::new();
                assert(sent(out@) =~= replies(old(self)@.peers, *c, sender));
                out
            },
            _ => {
                let out: Vec<Datagram> = Vec::new();
                assert(sent(out@) =~= replies(old(self)@.peers, *c, sender));
                out
            },
        }
    }

    /// `new`: records the sender.
    fn handle_new_command(&mut self, sender: PeerAddr)
        ensures
            final(self)@ == (NodeState { peers: old(self)@.peers.push(sender), ..old(self)@ }),
    {
        self.registry.insert(sender);
    }

    /// `list`: a `list_response` to the sender for each entry known before, then records
    /// the sender.
    fn handle_list_command(&mut self, sender: PeerAddr) -> (r: Vec<Datagram>)
        ensures
            final(self)@ == (NodeState { peers: old(self)@.peers.push(sender), ..old(self)@ }),
            sent(r@) == old(self)@.peers.map_values(|p: PeerAddr| (sender, list_response_text(p))),
    {
        let peers = self.registry.snapshot();
        let out = list_responses(sender, &peers);
        self.registry.insert(sender);
        out
    }

    /// `list_response <a>`: records `a` and introduces this node to it with `new`.
    fn handle_list_response(&mut self, a: PeerAddr) -> (r: Vec<Datagram>)
        ensures
            final(self)@ == (NodeState { peers: old(self)@.peers.push(a), ..old(self)@ }),
            sent(r@) == seq![(a, word_new())],
    {
        self.registry.insert(a);
        let mut out: Vec<Datagram> = Vec::new();
        out.push(Datagram { dest: a, payload: encode(&Command::New) });
        assert(sent(out@) =~= seq![(a, word_new())]);
        out
    }

    /// `stop`: forgets every entry equal to the sender.
    fn handle_stop_command(&mut self, sender: PeerAddr)
        ensures
            final(self)@ == (NodeState { peers: without(old(self)@.peers, sender), ..old(self)@ }),
            !final(self)@.peers.contains(sender),
    {
        self.registry.remove(sender);
    }

    /// One gossip round carrying the number `n`: the same `msg` to every known peer.
    pub fn gossip_round(&self, n: i32) -> (r: Vec<Datagram>)
        ensures
            sent(r@) == broadcast(self@.peers, gossip_text(n as int)),
            r@.len() == self@.peers.len(),
    {
        let mut text = encode(&Command::Msg(Vec::new()));
        push_signed_decimal(&mut text, n);
        assert(text@ =~= gossip_text(n as int));
        let out = to_each(&self.registry.snapshot(), &text);
        assert(sent(out@).len() == out@.len());
        out
    }

    /// One gossip round with a freshly drawn number.
    pub fn gossip_tick(&self) -> (r: Vec<Datagram>)
        ensures
            exists|n: i32| sent(r@) == broadcast(self@.peers, gossip_text(n as int)),
            r@.len() == self@.peers.len(),
    {
        let n = random_i32();
        self.gossip_round(n)
    }

    /// Stops the node and tells every known peer; a node already stopped sends nothing.
    pub fn shutdown(&mut self) -> (r: Vec<Datagram>)
        ensures
            final(self)@ == (NodeState { alive: false, ..old(self)@ }),
            old(self)@.alive ==> sent(r@) == broadcast(old(self)@.peers, word_stop()),
            !old(self)@.alive ==> r@.len() == 0,
    {
        if !self.alive {
            return Vec::new();
        }
        self.alive = false;
        to_each(&self.registry.snapshot(), &encode(&Command::Stop))
    }

    /// Whether the node still runs; after shutdown a failed receive is expected.
    pub fn is_alive(&self) -> (r: bool)
        ensures
            r == self@.alive,
    {
        self.alive
    }

    pub fn port(&self) -> (r: u16)
        ensures
            r == self@.port,
    {
        self.port
    }

    pub fn period(&self) -> (r: u64)
        ensures
            r == self@.period,
    {
        self.period
    }

    /// A copy of the registry, in order.
    pub fn peers(&self) -> (r: Vec<PeerAddr>)
        ensures
            r@ == self@.peers,
    {
        self.registry.snapshot()
    }
}

} // verus!
