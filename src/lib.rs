//! The protocol core of a peer-discovery and gossip node: peer addresses and their text form,
//! the line-oriented wire commands, the peer registry, and the node's reactions to a join,
//! a datagram, a gossip tick and a shutdown. Sockets, threads and signals are left to the
//! caller, which hands each event to a `node::Node` and sends the datagrams it returns.
use vstd::prelude::*;

pub mod addr;
pub mod command;
pub mod laws;
pub mod node;
pub mod registry;

verus! {

} // verus!
