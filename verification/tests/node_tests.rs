use dashmap::DashMap;
use redix::network::Message;
use redix::node::Action;
use redix::node::Event;
use redix::node::Node;
use redix::node::PendingKind;
use redix::persistence::RaftMetadata;
use redix::raft::AppendEntriesArgs;
use redix::raft::AppendEntriesReply;
use redix::raft::Command;
use redix::raft::LogEntry;
use redix::raft::RaftState;
use redix::raft::RequestVoteArgs;
use redix::raft::RequestVoteReply;

fn set(k: &str, v: &str) -> Command {
    Command::SetKey(k.into(), v.into())
}

fn step(node: &mut Node, ev: Event) -> Vec<Action> {
    assert!(node.can_handle(&ev));
    let mut actions = node.handle_event(ev);
    assert!(node.can_finish());
    actions.extend(node.finish_step());
    actions
}

fn responses(actions: &[Action]) -> Vec<String> {
    actions
        .iter()
        .filter_map(|a| match a {
            Action::Respond(t) => Some(t.clone()),
            _ => None,
        })
        .collect()
}

#[test]
fn recovery_replays_the_log_over_the_snapshot() {
    let snapshot: DashMap<String, String> = DashMap::new();
    snapshot.insert("a".into(), "1".into());
    snapshot.insert("b".into(), "2".into());
    let log = vec![
        LogEntry { term: 1, command: set("c", "3") },
        LogEntry { term: 1, command: Command::Delete("a".into()) },
        LogEntry { term: 2, command: Command::Keys },
    ];
    let node = Node::recover(4, 3, Some(snapshot), Some(RaftMetadata { current_term: 2, voted_for: Some(1) }), log);
    assert_eq!(node.kv.get("a"), None);
    assert_eq!(node.kv.get("b"), Some("2".into()));
    assert_eq!(node.kv.get("c"), Some("3".into()));
    assert_eq!(node.raft.current_term, 2);
    assert_eq!(node.raft.voted_for, Some(1));
    assert_eq!(node.raft.log.len(), 3);
    assert_eq!(node.last_meta.current_term, 2);
    assert_eq!(node.votes, 0);
}

#[test]
fn flush_in_the_log_clears_the_snapshot() {
    let snapshot: DashMap<String, String> = DashMap::new();
    snapshot.insert("a".into(), "1".into());
    let node = Node::recover(0, 1, Some(snapshot), None, vec![LogEntry { term: 1, command: Command::Flush }]);
    assert!(node.kv.keys().is_empty());
    assert_eq!(node.raft.current_term, 0);
}

#[test]
fn single_node_cluster_elects_itself_and_commits_at_once() {
    let mut node = Node::recover(0, 1, None, None, vec![]);
    node.raft.election_timeout_ms = 0;
    let acts = step(&mut node, Event::Tick);
    assert_eq!(node.raft.state, RaftState::Leader);
    assert_eq!(node.raft.current_term, 1);
    assert_eq!(node.votes, 1);
    // no peers to ask: only the new term and vote are saved
    assert_eq!(acts.len(), 1);
    assert!(matches!(acts[0], Action::SaveMetadata(m) if m.current_term == 1 && m.voted_for == Some(0)));

    let acts = step(&mut node, Event::Client(set("foo", "bar")));
    assert!(matches!(acts[0], Action::PersistEntry(ref e) if e.term == 1 && e.command == set("foo", "bar")));
    assert!(matches!(acts[1], Action::AwaitApply(PendingKind::SetKey, 1)));
    assert!(matches!(acts[2], Action::NotifyApplied(ref c) if *c == set("foo", "bar")));
    assert!(matches!(acts[3], Action::ResolvePending(PendingKind::SetKey, 1, ref t) if t == "OK"));
    assert_eq!(acts.len(), 4);
    assert_eq!(node.kv.get("foo"), Some("bar".into()));

    let acts = step(&mut node, Event::Query("foo".into()));
    assert_eq!(responses(&acts), vec!["bar".to_string()]);
    let acts = step(&mut node, Event::Query("nope".into()));
    assert_eq!(responses(&acts), vec!["nil".to_string()]);

    let acts = step(&mut node, Event::Client(Command::Delete("foo".into())));
    assert!(matches!(acts[1], Action::AwaitApply(PendingKind::Delete, 2)));
    assert!(matches!(acts[3], Action::ResolvePending(PendingKind::Delete, 2, ref t) if t == "1"));
    assert_eq!(acts.len(), 4);
    assert_eq!(node.kv.get("foo"), None);

    // any value can be stored, whatever it reads like
    let acts = step(&mut node, Event::Client(set("foo", "QUERY_GET")));
    assert!(matches!(acts[3], Action::ResolvePending(PendingKind::SetKey, 3, ref t) if t == "OK"));
    assert_eq!(node.kv.get("foo"), Some("QUERY_GET".into()));
    let acts = step(&mut node, Event::Query("foo".into()));
    assert_eq!(responses(&acts), vec!["QUERY_GET".to_string()]);

    let acts = step(&mut node, Event::Client(Command::Delete("foo".into())));
    assert!(matches!(acts[1], Action::AwaitApply(PendingKind::Delete, 4)));
    assert_eq!(acts.len(), 4);
    assert_eq!(node.kv.get("foo"), None);
}

#[test]
fn keys_are_listed_one_per_line() {
    let mut node = Node::recover(0, 3, None, None, vec![]);
    let acts = step(&mut node, Event::Client(Command::Keys));
    assert_eq!(responses(&acts), vec!["(empty list or set)".to_string()]);
    node.kv.set("a".into(), "1".into());
    node.kv.set("b".into(), "2".into());
    let acts = step(&mut node, Event::Client(Command::Keys));
    let text = &responses(&acts)[0];
    assert!(text == "a\nb" || text == "b\na");
}

#[test]
fn followers_refuse_writes() {
    let mut node = Node::recover(0, 3, None, None, vec![]);
    let acts = step(&mut node, Event::Client(Command::Flush));
    assert_eq!(responses(&acts), vec!["ERR not leader".to_string()]);
    assert!(node.raft.log.is_empty());
}

#[test]
fn vote_requests_are_answered_and_the_vote_saved() {
    let mut node = Node::recover(1, 3, None, None, vec![]);
    let acts = step(
        &mut node,
        Event::Peer(Message::RequestVote {
            args: RequestVoteArgs { term: 3, candidate_id: 2, last_log_index: 0, last_log_term: 0 },
            from_id: 2,
        }),
    );
    assert_eq!(acts.len(), 2);
    assert!(matches!(acts[0], Action::Send { to: 2, msg: Message::RequestVoteReply { reply, from_id: 1 } } if reply.vote_granted && reply.term == 3));
    assert!(matches!(acts[1], Action::SaveMetadata(m) if m.current_term == 3 && m.voted_for == Some(2)));
    // nothing changed since: no second save
    let acts = step(&mut node, Event::SnapshotTick);
    assert!(acts.is_empty());
}

#[test]
fn replicated_entries_are_persisted_answered_and_applied() {
    let mut node = Node::recover(1, 3, None, None, vec![]);
    let acts = step(
        &mut node,
        Event::Peer(Message::AppendEntries {
            args: AppendEntriesArgs {
                term: 1,
                leader_id: 0,
                prev_log_index: 0,
                prev_log_term: 0,
                entries: vec![LogEntry { term: 1, command: set("k", "v") }, LogEntry { term: 1, command: Command::Keys }],
                leader_commit: 2,
            },
            from_id: 0,
        }),
    );
    assert!(matches!(acts[0], Action::PersistEntry(ref e) if e.command == set("k", "v")));
    assert!(matches!(acts[1], Action::PersistEntry(ref e) if e.command == Command::Keys));
    assert!(matches!(acts[2], Action::Send { to: 0, msg: Message::AppendEntriesReply { reply, from_id: 1 } } if reply.success && reply.term == 1));
    assert!(matches!(acts[3], Action::SaveMetadata(m) if m.current_term == 1 && m.voted_for.is_none()));
    assert!(matches!(acts[4], Action::NotifyApplied(ref c) if *c == set("k", "v")));
    assert!(matches!(acts[5], Action::ResolvePending(PendingKind::SetKey, 2, _)));
    assert_eq!(acts.len(), 6);
    assert_eq!(node.kv.get("k"), Some("v".into()));
    assert_eq!(node.raft.last_applied, 2);
}

#[test]
fn candidate_asks_every_other_peer_and_wins_with_a_majority() {
    let mut node = Node::recover(1, 3, None, None, vec![]);
    // the node's own timer decides when the election starts; start it directly
    let req = node.raft.start_election().unwrap();
    node.votes = 1;
    assert_eq!(req.term, 1);
    let acts = step(
        &mut node,
        Event::Peer(Message::RequestVoteReply { reply: RequestVoteReply { term: 1, vote_granted: true }, from_id: 0 }),
    );
    assert_eq!(node.raft.state, RaftState::Leader);
    assert_eq!(node.votes, 2);
    assert!(matches!(acts[0], Action::SaveMetadata(m) if m.current_term == 1 && m.voted_for == Some(1)));
    let acts = step(
        &mut node,
        Event::Peer(Message::AppendEntriesReply { reply: AppendEntriesReply { term: 1, success: true }, from_id: 2 }),
    );
    assert!(acts.is_empty());
    assert_eq!(node.raft.match_index, vec![0, 0, 0]);
    assert_eq!(node.raft.next_index, vec![1, 1, 1]);
}

#[test]
fn leader_snapshots_on_the_snapshot_timer() {
    let mut node = Node::recover(0, 1, None, None, vec![]);
    node.kv.set("a".into(), "1".into());
    assert!(step(&mut node, Event::SnapshotTick).is_empty());
    node.raft.state = RaftState::Leader;
    let acts = step(&mut node, Event::SnapshotTick);
    assert_eq!(acts.len(), 1);
    match &acts[0] {
        Action::SaveSnapshot(m) => assert_eq!(m.get("a").map(|v| v.value().clone()), Some("1".to_string())),
        _ => panic!("expected a snapshot"),
    }
}

/// Delivers every `Send` in `actions` from node `from` and collects what the receivers
/// send back, until no messages are left. Applied commands are recorded per node.
fn deliver(nodes: &mut [Node], from: usize, actions: Vec<Action>, applied: &mut Vec<(u64, Command)>) {
    let mut queue: Vec<(usize, Vec<Action>)> = vec![(from, actions)];
    while let Some((_sender, acts)) = queue.pop() {
        for a in acts {
            match a {
                Action::Send { to, msg } => {
                    let receiver = to as usize;
                    let out = step(&mut nodes[receiver], Event::Peer(msg));
                    queue.push((receiver, out));
                }
                Action::NotifyApplied(c) => applied.push((nodes[_sender].node_id, c)),
                _ => {}
            }
        }
    }
}

fn wait_for_heartbeat(node: &Node) {
    while node.raft.last_heartbeat.elapsed() < std::time::Duration::from_millis(10) {}
}

#[test]
fn three_nodes_elect_a_leader_and_replicate_a_write() {
    let mut nodes: Vec<Node> = (0..3).map(|i| Node::recover(i, 3, None, None, vec![])).collect();
    let mut applied: Vec<(u64, Command)> = Vec::new();

    // node 0 times out first and asks the others for their votes
    nodes[0].raft.election_timeout_ms = 0;
    let acts = step(&mut nodes[0], Event::Tick);
    assert_eq!(nodes[0].raft.state, RaftState::Candidate);
    let sends: Vec<u64> = acts
        .iter()
        .filter_map(|a| match a {
            Action::Send { to, msg: Message::RequestVote { .. } } => Some(*to),
            _ => None,
        })
        .collect();
    assert_eq!(sends, vec![1, 2]);
    deliver(&mut nodes, 0, acts, &mut applied);
    assert_eq!(nodes[0].raft.state, RaftState::Leader);
    assert_eq!(nodes[1].raft.voted_for, Some(0));
    assert_eq!(nodes[2].raft.voted_for, Some(0));

    // a client writes to the leader
    let acts = step(&mut nodes[0], Event::Client(set("foo", "bar")));
    assert!(matches!(acts[1], Action::AwaitApply(PendingKind::SetKey, 1)));
    assert!(applied.is_empty());

    // the next heartbeat replicates it; the replies let the leader commit and apply it
    wait_for_heartbeat(&nodes[0]);
    let acts = step(&mut nodes[0], Event::Tick);
    deliver(&mut nodes, 0, acts, &mut applied);
    assert_eq!(nodes[0].raft.commit_index, 1);
    assert_eq!(nodes[0].kv.get("foo"), Some("bar".into()));

    // the heartbeat after that carries the commit index to the followers
    wait_for_heartbeat(&nodes[0]);
    let acts = step(&mut nodes[0], Event::Tick);
    deliver(&mut nodes, 0, acts, &mut applied);
    let mut who: Vec<u64> = applied
        .iter()
        .filter(|(_, c)| *c == set("foo", "bar"))
        .map(|(n, _)| *n)
        .collect();
    who.sort();
    assert_eq!(who, vec![0, 1, 2]);
    for node in &nodes {
        assert_eq!(node.kv.get("foo"), Some("bar".into()));
    }
}

#[test]
fn queries_read_the_local_store_on_any_node() {
    let mut node = Node::recover(2, 3, None, None, vec![]);
    node.kv.set("k".into(), "v".into());
    let acts = step(&mut node, Event::Query("k".into()));
    assert_eq!(responses(&acts), vec!["v".to_string()]);
    assert_eq!(acts.len(), 1);
    assert!(node.raft.log.is_empty());
}

#[test]
fn writes_committed_together_are_answered_at_the_last_applied_index() {
    let mut node = Node::recover(0, 3, None, None, vec![]);
    node.raft.state = RaftState::Leader;
    let a = step(&mut node, Event::Client(set("a", "1")));
    assert!(matches!(a[1], Action::AwaitApply(PendingKind::SetKey, 1)));
    let b = step(&mut node, Event::Client(Command::Delete("a".into())));
    assert!(matches!(b[1], Action::AwaitApply(PendingKind::Delete, 2)));
    // one peer acknowledges both entries: with the leader that is a majority of three
    let acts = step(
        &mut node,
        Event::Peer(Message::AppendEntriesReply { reply: AppendEntriesReply { term: 0, success: true }, from_id: 1 }),
    );
    assert_eq!(node.raft.commit_index, 2);
    let resolved: Vec<(PendingKind, u64, String)> = acts
        .iter()
        .filter_map(|a| match a {
            Action::ResolvePending(k, i, t) => Some((*k, *i, t.clone())),
            _ => None,
        })
        .collect();
    // both writes of the batch are answered at index 2, where only the delete waits
    assert_eq!(resolved, vec![(PendingKind::SetKey, 2, "OK".to_string()), (PendingKind::Delete, 2, "1".to_string())]);
    assert_eq!(node.kv.get("a"), None);
}

#[test]
fn only_entries_past_the_old_log_length_are_persisted() {
    let log = vec![
        LogEntry { term: 1, command: set("a", "1") },
        LogEntry { term: 1, command: set("b", "2") },
        LogEntry { term: 1, command: set("c", "3") },
    ];
    let mut node = Node::recover(1, 3, None, Some(RaftMetadata { current_term: 1, voted_for: None }), log);
    // a conflicting request cuts the log from three entries to two: nothing is written
    let acts = step(
        &mut node,
        Event::Peer(Message::AppendEntries {
            args: AppendEntriesArgs {
                term: 2,
                leader_id: 0,
                prev_log_index: 1,
                prev_log_term: 1,
                entries: vec![LogEntry { term: 2, command: Command::Keys }],
                leader_commit: 0,
            },
            from_id: 0,
        }),
    );
    assert_eq!(node.raft.log.len(), 2);
    assert_eq!(node.raft.log[1].term, 2);
    assert!(!acts.iter().any(|a| matches!(a, Action::PersistEntry(_))));
    assert!(matches!(acts[0], Action::Send { to: 0, msg: Message::AppendEntriesReply { reply, .. } } if reply.success));

    // a request that makes the log longer appends the entries past the old length
    let acts = step(
        &mut node,
        Event::Peer(Message::AppendEntries {
            args: AppendEntriesArgs {
                term: 2,
                leader_id: 0,
                prev_log_index: 2,
                prev_log_term: 2,
                entries: vec![LogEntry { term: 2, command: Command::Flush }],
                leader_commit: 0,
            },
            from_id: 0,
        }),
    );
    assert!(matches!(acts[0], Action::PersistEntry(ref e) if e.command == Command::Flush));
    assert_eq!(acts.iter().filter(|a| matches!(a, Action::PersistEntry(_))).count(), 1);
}
