//! Messages between Raft nodes, the table of peer addresses, and the framing of a
//! message on the wire (its length as a big-endian `u32`, then its bytes).
pub mod redis;

use crate::raft::AppendEntriesArgs;
use crate::raft::AppendEntriesReply;
use crate::raft::RequestVoteArgs;
use crate::raft::RequestVoteReply;
use std::collections::HashMap;
use vstd::prelude::*;

verus! {

/// A message from one node to another, tagged with the sender's id.
#[derive(Debug, Clone)]
pub enum Message {
    RequestVote { args: RequestVoteArgs, from_id: u64 },
    RequestVoteReply { reply: RequestVoteReply, from_id: u64 },
    AppendEntries { args: AppendEntriesArgs, from_id: u64 },
    AppendEntriesReply { reply: AppendEntriesReply, from_id: u64 },
}

impl Message {
    /// The id of the node that sent the message.
    pub fn from_id(&self) -> (id: u64)
        ensures
            id == match *self {
                Message::RequestVote { from_id, .. } => from_id,
                Message::RequestVoteReply { from_id, .. } => from_id,
                Message::AppendEntries { from_id, .. } => from_id,
                Message::AppendEntriesReply { from_id, .. } => from_id,
            },
    {
        match self {
            Message::RequestVote { from_id, .. } => *from_id,
            Message::RequestVoteReply { from_id, .. } => *from_id,
            Message::AppendEntries { from_id, .. } => *from_id,
            Message::AppendEntriesReply { from_id, .. } => *from_id,
        }
    }
}

/// The addresses of the other nodes, by id.
pub struct NetworkManager {
    peers: HashMap<u64, String>,
}

impl View for NetworkManager {
    type V = Map<u64, Seq<char>>;

    closed spec fn view(&self) -> Map<u64, Seq<char>> {
        self.peers@.map_values(|a: String| a@)
    }
}

impl NetworkManager {
    /// A table with no peers.
    pub fn new() -> (nm: Self)
        ensures
            nm@ == Map::<u64, Seq<char>>::empty(),
    {
        let nm = NetworkManager { peers: HashMap::new() };
        assert(nm@ =~= Map::<u64, Seq<char>>::empty());
        nm
    }

    /// Records `addr` as the address of peer `id`, replacing an earlier one.
    pub fn add_peer(&mut self, id: u64, addr: String)
        ensures
            final(self)@ == old(self)@.insert(id, addr@),
    {
        broadcast use vstd::std_specs::hash::group_hash_axioms;
        self.peers.insert(id, addr);
        assert(self@ =~= old(self)@.insert(id, addr@));
    }

    /// The address that a message to `peer_id` goes to; a message to an unknown peer
    /// is not sent at all.
    pub fn peer_address(&self, peer_id: u64) -> (addr: Option<String>)
        ensures
            match addr {
                Some(a) => self@.contains_key(peer_id) && a@ == self@[peer_id],
                None => !self@.contains_key(peer_id),
            },
    {
        broadcast use vstd::std_specs::hash::group_hash_axioms;
        match self.peers.get(&peer_id) {
            Some(a) => Some(a.clone()),
            None => None,
        }
    }
}

/// The four big-endian bytes of `n`.
pub open spec fn be_bytes(n: u32) -> Seq<u8> {
    seq![(n / 16777216) as u8, ((n / 65536) % 256) as u8, ((n / 256) % 256) as u8, (n % 256) as u8]
}

/// A message on the wire: its length, cut to 32 bits, as four big-endian bytes, then
/// the message's bytes.
pub open spec fn message_frame(data: Seq<u8>) -> Seq<u8> {
    be_bytes((data.len() % 4294967296) as u32) + data
}

/// Frames an encoded message for sending.
pub fn encode_message_frame(data: &[u8]) -> (out: Vec<u8>)
    ensures
        out@ == message_frame(data@),
{
    let n = (data.len() as u64 % 4294967296) as u32;
    let mut out: Vec<u8> = Vec::new();
    out.push((n / 16777216) as u8);
    out.push(((n / 65536) % 256) as u8);
    out.push(((n / 256) % 256) as u8);
    out.push((n % 256) as u8);
    let mut i: usize = 0;
    while i < data.len()
        invariant
            i <= data.len(),
            out@ == be_bytes(n) + data@.subrange(0, i as int),
        decreases data.len() - i,
    {
        out.push(data[i]);
        i = i + 1;
        assert(out@ =~= be_bytes(n) + data@.subrange(0, i as int));
    }
    assert(data@.subrange(0, data.len() as int) =~= data@);
    out
}

} // verus!
