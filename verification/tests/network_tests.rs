use redix::network::encode_message_frame;
use redix::network::Message;
use redix::network::NetworkManager;
use redix::raft::AppendEntriesArgs;
use redix::raft::AppendEntriesReply;
use redix::raft::RequestVoteArgs;
use redix::raft::RequestVoteReply;

#[test]
fn peers_are_looked_up_by_id() {
    let mut nm = NetworkManager::new();
    assert_eq!(nm.peer_address(1), None);
    nm.add_peer(1, "127.0.0.1:8001".into());
    nm.add_peer(2, "127.0.0.1:8002".into());
    nm.add_peer(1, "127.0.0.1:9001".into());
    assert_eq!(nm.peer_address(1), Some("127.0.0.1:9001".into()));
    assert_eq!(nm.peer_address(2), Some("127.0.0.1:8002".into()));
    assert_eq!(nm.peer_address(3), None);
}

#[test]
fn message_frame_is_big_endian_length_then_bytes() {
    assert_eq!(encode_message_frame(&[5, 6]), vec![0, 0, 0, 2, 5, 6]);
    let data = vec![0u8; 258];
    let framed = encode_message_frame(&data);
    assert_eq!(&framed[..4], &[0, 0, 1, 2]);
    assert_eq!(framed.len(), 262);
}

#[test]
fn sender_of_each_message_kind() {
    let rv = Message::RequestVote {
        args: RequestVoteArgs { term: 1, candidate_id: 4, last_log_index: 0, last_log_term: 0 },
        from_id: 4,
    };
    let rvr = Message::RequestVoteReply { reply: RequestVoteReply { term: 1, vote_granted: true }, from_id: 5 };
    let ae = Message::AppendEntries {
        args: AppendEntriesArgs { term: 1, leader_id: 6, prev_log_index: 0, prev_log_term: 0, entries: vec![], leader_commit: 0 },
        from_id: 6,
    };
    let aer = Message::AppendEntriesReply { reply: AppendEntriesReply { term: 1, success: false }, from_id: 7 };
    assert_eq!(rv.from_id(), 4);
    assert_eq!(rvr.from_id(), 5);
    assert_eq!(ae.from_id(), 6);
    assert_eq!(aer.from_id(), 7);
}
