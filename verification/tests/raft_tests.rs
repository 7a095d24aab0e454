use redix::raft::AppendEntriesArgs;
use redix::raft::AppendEntriesReply;
use redix::raft::Command;
use redix::raft::LogEntry;
use redix::raft::RaftNode;
use redix::raft::RaftState;
use redix::raft::RequestVoteArgs;
use redix::raft::RequestVoteReply;
use std::time::Duration;
use std::time::Instant;

fn entry(term: u64, key: &str) -> LogEntry {
    LogEntry { term, command: Command::SetKey(key.to_string(), "v".to_string()) }
}

#[test]
fn test_raft_initial_state() {
    let node = RaftNode::new(0, 3);
    assert_eq!(node.id, 0);
    assert_eq!(node.current_term, 0);
    assert_eq!(node.state, RaftState::Follower);
}

#[test]
fn test_request_vote_higher_term() {
    let mut node = RaftNode::new(0, 3);
    node.current_term = 1;

    let args = RequestVoteArgs { term: 2, candidate_id: 1, last_log_index: 0, last_log_term: 0 };

    let reply = node.handle_request_vote(args);
    assert!(reply.vote_granted);
    assert_eq!(node.current_term, 2);
    assert_eq!(node.voted_for, Some(1));
}

#[test]
fn test_request_vote_log_up_to_date() {
    let mut node = RaftNode::new(0, 3);
    node.current_term = 1;
    node.log.push(LogEntry { term: 1, command: Command::SetKey("k".into(), "v".into()) });

    // Candidate has lower log index
    let args = RequestVoteArgs { term: 2, candidate_id: 1, last_log_index: 0, last_log_term: 0 };

    let reply = node.handle_request_vote(args);
    assert!(!reply.vote_granted);
}

#[test]
fn test_append_entries_heartbeat() {
    let mut node = RaftNode::new(0, 3);
    let before = node.last_heartbeat;
    while before.elapsed() < Duration::from_millis(10) {}

    let args = AppendEntriesArgs {
        term: 1,
        leader_id: 1,
        prev_log_index: 0,
        prev_log_term: 0,
        entries: vec![],
        leader_commit: 0,
    };

    let reply = node.handle_append_entries(args);
    assert!(reply.success);
    assert!(node.last_heartbeat > before);
}

#[test]
fn test_leader_election() {
    let mut node = RaftNode::new(0, 3);
    let vote_args = node.start_election().unwrap();

    assert_eq!(node.state, RaftState::Candidate);
    assert_eq!(node.current_term, 1);
    assert_eq!(vote_args.term, 1);

    let reply = RequestVoteReply { term: 1, vote_granted: true };
    let mut votes = 1; // Already voted for self
    node.handle_vote_reply(reply, 3, &mut votes);

    assert_eq!(node.state, RaftState::Leader);
}

#[test]
fn new_node_draws_timeout_in_range_and_sizes_peer_tables() {
    for _ in 0..50 {
        let node = RaftNode::new(2, 5);
        assert!(node.election_timeout_ms >= 1000 && node.election_timeout_ms < 2000);
        assert_eq!(node.next_index, vec![1; 5]);
        assert_eq!(node.match_index, vec![0; 5]);
        assert!(node.log.is_empty());
        assert_eq!(node.voted_for, None);
    }
}

#[test]
fn vote_refused_for_stale_term_and_for_second_candidate() {
    let mut node = RaftNode::new(0, 3);
    node.current_term = 5;
    let reply = node.handle_request_vote(RequestVoteArgs { term: 4, candidate_id: 1, last_log_index: 9, last_log_term: 9 });
    assert!(!reply.vote_granted);
    assert_eq!(reply.term, 5);
    assert_eq!(node.current_term, 5);

    let first = node.handle_request_vote(RequestVoteArgs { term: 5, candidate_id: 1, last_log_index: 0, last_log_term: 0 });
    assert!(first.vote_granted);
    let second = node.handle_request_vote(RequestVoteArgs { term: 5, candidate_id: 2, last_log_index: 0, last_log_term: 0 });
    assert!(!second.vote_granted);
    assert_eq!(node.voted_for, Some(1));
    // the same candidate may ask again
    let again = node.handle_request_vote(RequestVoteArgs { term: 5, candidate_id: 1, last_log_index: 0, last_log_term: 0 });
    assert!(again.vote_granted);
}

#[test]
fn vote_granted_to_higher_last_term_with_shorter_log() {
    let mut node = RaftNode::new(0, 3);
    node.log.push(entry(1, "a"));
    node.log.push(entry(1, "b"));
    let reply = node.handle_request_vote(RequestVoteArgs { term: 3, candidate_id: 2, last_log_index: 1, last_log_term: 2 });
    assert!(reply.vote_granted);
    assert_eq!(reply.term, 3);
    assert_eq!(node.state, RaftState::Follower);
}

#[test]
fn append_entries_rejects_stale_term_and_missing_prev() {
    let mut node = RaftNode::new(0, 3);
    node.current_term = 3;
    let stale = node.handle_append_entries(AppendEntriesArgs {
        term: 2, leader_id: 1, prev_log_index: 0, prev_log_term: 0, entries: vec![entry(2, "x")], leader_commit: 1,
    });
    assert!(!stale.success);
    assert_eq!(stale.term, 3);
    assert!(node.log.is_empty());

    let gap = node.handle_append_entries(AppendEntriesArgs {
        term: 4, leader_id: 1, prev_log_index: 2, prev_log_term: 1, entries: vec![entry(4, "x")], leader_commit: 1,
    });
    assert!(!gap.success);
    assert_eq!(gap.term, 4);
    assert_eq!(node.current_term, 4);
    assert!(node.log.is_empty());
}

#[test]
fn append_entries_truncates_at_conflict_and_caps_commit() {
    let mut node = RaftNode::new(0, 3);
    node.log.push(entry(1, "a"));
    node.log.push(entry(1, "b"));
    node.log.push(entry(1, "c"));
    let reply = node.handle_append_entries(AppendEntriesArgs {
        term: 2,
        leader_id: 1,
        prev_log_index: 1,
        prev_log_term: 1,
        entries: vec![entry(1, "b"), entry(2, "d")],
        leader_commit: 10,
    });
    assert!(reply.success);
    let terms: Vec<u64> = node.log.iter().map(|e| e.term).collect();
    assert_eq!(terms, vec![1, 1, 2]);
    assert_eq!(node.log[2].command, Command::SetKey("d".into(), "v".into()));
    assert_eq!(node.commit_index, 3);

    // replaying the same request changes nothing
    let again = node.handle_append_entries(AppendEntriesArgs {
        term: 2,
        leader_id: 1,
        prev_log_index: 1,
        prev_log_term: 1,
        entries: vec![entry(1, "b"), entry(2, "d")],
        leader_commit: 10,
    });
    assert!(again.success);
    let terms: Vec<u64> = node.log.iter().map(|e| e.term).collect();
    assert_eq!(terms, vec![1, 1, 2]);
}

#[test]
fn tick_before_timeout_does_nothing() {
    let mut node = RaftNode::new(0, 3);
    let before = node.last_heartbeat;
    let timeout = node.election_timeout_ms;
    let (vote, beats) = node.tick_at(3, 5, Instant::now() + Duration::from_millis(5), 1500);
    assert!(vote.is_none());
    assert_eq!(node.last_heartbeat, before);
    assert_eq!(node.election_timeout_ms, timeout);
    assert!(beats.is_empty());
    assert_eq!(node.state, RaftState::Follower);
    assert_eq!(node.current_term, 0);
}

#[test]
fn tick_after_timeout_starts_election() {
    let mut node = RaftNode::new(1, 3);
    node.log.push(entry(4, "a"));
    let now = Instant::now() + Duration::from_millis(2000);
    let (vote, beats) = node.tick_at(3, 2000, now, 1234);
    let vote = vote.unwrap();
    assert_eq!(node.last_heartbeat, now);
    assert_eq!(node.election_timeout_ms, 1234);
    assert!(beats.is_empty());
    assert_eq!(node.state, RaftState::Candidate);
    assert_eq!(node.current_term, 1);
    assert_eq!(node.voted_for, Some(1));
    assert_eq!(vote.term, 1);
    assert_eq!(vote.candidate_id, 1);
    assert_eq!(vote.last_log_index, 1);
    assert_eq!(vote.last_log_term, 4);
}

#[test]
fn leader_tick_sends_requests_to_every_other_peer() {
    let mut node = RaftNode::new(1, 3);
    node.state = RaftState::Leader;
    node.current_term = 2;
    node.log.push(entry(1, "a"));
    node.log.push(entry(2, "b"));
    node.next_index = vec![2, 3, 3];
    node.commit_index = 1;
    let now = Instant::now() + Duration::from_millis(10);
    let (vote, beats) = node.tick_at(3, 10, now, 1500);
    assert!(vote.is_none());
    assert_eq!(node.last_heartbeat, now);
    assert_eq!(beats.len(), 2);
    assert_eq!(beats[0].0, 0);
    assert_eq!(beats[1].0, 2);
    let to0 = &beats[0].1;
    assert_eq!(to0.term, 2);
    assert_eq!(to0.leader_id, 1);
    assert_eq!(to0.prev_log_index, 1);
    assert_eq!(to0.prev_log_term, 1);
    assert_eq!(to0.entries.len(), 1);
    assert_eq!(to0.entries[0].term, 2);
    assert_eq!(to0.leader_commit, 1);
    let to2 = &beats[1].1;
    assert_eq!(to2.prev_log_index, 2);
    assert_eq!(to2.prev_log_term, 2);
    assert!(to2.entries.is_empty());
    // not yet due
    let (_, none) = node.tick_at(3, 9, now + Duration::from_millis(9), 1500);
    assert!(none.is_empty());
    assert_eq!(node.last_heartbeat, now);
}

#[test]
fn vote_reply_with_higher_term_demotes() {
    let mut node = RaftNode::new(0, 3);
    node.start_election();
    let mut votes = 1;
    node.handle_vote_reply(RequestVoteReply { term: 7, vote_granted: false }, 3, &mut votes);
    assert_eq!(node.state, RaftState::Follower);
    assert_eq!(node.current_term, 7);
    assert_eq!(votes, 1);
}

#[test]
fn winning_election_resets_peer_progress() {
    let mut node = RaftNode::new(0, 5);
    node.log.push(entry(0, "a"));
    node.start_election();
    node.match_index = vec![3, 3, 3, 3, 3];
    let mut votes = 1;
    node.handle_vote_reply(RequestVoteReply { term: 1, vote_granted: true }, 5, &mut votes);
    assert_eq!(node.state, RaftState::Candidate);
    assert_eq!(votes, 2);
    node.handle_vote_reply(RequestVoteReply { term: 1, vote_granted: true }, 5, &mut votes);
    assert_eq!(node.state, RaftState::Leader);
    assert_eq!(votes, 3);
    assert_eq!(node.next_index, vec![2; 5]);
    assert_eq!(node.match_index, vec![0; 5]);
}

#[test]
fn unapplied_commands_come_once_in_order() {
    let mut node = RaftNode::new(0, 1);
    node.log.push(entry(1, "a"));
    node.log.push(LogEntry { term: 1, command: Command::Delete("a".into()) });
    node.log.push(LogEntry { term: 1, command: Command::Flush });
    node.commit_index = 2;
    let first = node.get_unapplied_commands();
    assert_eq!(first, vec![Command::SetKey("a".into(), "v".into()), Command::Delete("a".into())]);
    assert_eq!(node.last_applied, 2);
    assert!(node.get_unapplied_commands().is_empty());
    node.commit_index = 3;
    assert_eq!(node.get_unapplied_commands(), vec![Command::Flush]);
}

#[test]
fn append_reply_success_advances_commit_on_current_term_majority() {
    let mut node = RaftNode::new(0, 3);
    node.state = RaftState::Leader;
    node.current_term = 2;
    node.log.push(entry(1, "a"));
    node.log.push(entry(2, "b"));
    node.next_index = vec![3, 1, 1];
    node.match_index = vec![0, 0, 0];
    node.handle_append_entries_reply(1, AppendEntriesReply { term: 2, success: true });
    assert_eq!(node.match_index, vec![0, 2, 0]);
    assert_eq!(node.next_index, vec![3, 3, 1]);
    assert_eq!(node.commit_index, 2);
}

#[test]
fn append_reply_does_not_commit_entries_of_older_terms() {
    let mut node = RaftNode::new(0, 3);
    node.state = RaftState::Leader;
    node.current_term = 3;
    node.log.push(entry(1, "a"));
    node.log.push(entry(2, "b"));
    node.next_index = vec![3, 1, 1];
    node.match_index = vec![0, 0, 0];
    node.handle_append_entries_reply(2, AppendEntriesReply { term: 3, success: true });
    assert_eq!(node.commit_index, 0);
}

#[test]
fn append_reply_failure_steps_back_but_not_below_one() {
    let mut node = RaftNode::new(0, 2);
    node.state = RaftState::Leader;
    node.next_index = vec![1, 2];
    node.handle_append_entries_reply(1, AppendEntriesReply { term: 0, success: false });
    assert_eq!(node.next_index, vec![1, 1]);
    node.handle_append_entries_reply(1, AppendEntriesReply { term: 0, success: false });
    assert_eq!(node.next_index, vec![1, 1]);
}

#[test]
fn restore_replaces_term_vote_and_log() {
    let mut node = RaftNode::new(0, 3);
    node.restore(9, Some(2), vec![entry(8, "a")]);
    assert_eq!(node.current_term, 9);
    assert_eq!(node.voted_for, Some(2));
    assert_eq!(node.log.len(), 1);
    assert_eq!(node.state, RaftState::Follower);
}

#[test]
fn tick_measures_the_clock() {
    let mut node = RaftNode::new(0, 3);
    node.election_timeout_ms = 1000;
    let start = Instant::now();
    let (vote, _) = node.tick(3);
    if start.elapsed() < Duration::from_millis(1000) {
        assert!(vote.is_none());
    }
    node.state = RaftState::Leader;
    node.next_index = vec![1, 1, 1];
    while node.last_heartbeat.elapsed() < Duration::from_millis(10) {}
    let before = node.last_heartbeat;
    let (_, beats) = node.tick(3);
    assert_eq!(beats.len(), 2);
    assert!(node.last_heartbeat > before);
}

#[test]
fn four_nodes_commit_only_on_a_strict_majority() {
    let mut node = RaftNode::new(0, 4);
    node.state = RaftState::Leader;
    node.current_term = 1;
    node.log.push(entry(1, "a"));
    node.log.push(entry(1, "b"));
    node.next_index = vec![3, 1, 1, 1];
    node.match_index = vec![0, 0, 0, 0];
    // the leader and one peer: two of four nodes
    node.handle_append_entries_reply(1, AppendEntriesReply { term: 1, success: true });
    assert_eq!(node.commit_index, 0);
    // a second peer makes three of four
    node.handle_append_entries_reply(3, AppendEntriesReply { term: 1, success: true });
    assert_eq!(node.commit_index, 2);
}

#[test]
fn timer_restarts_at_the_given_clock_reading() {
    let now = Instant::now() + Duration::from_millis(50);
    let node = RaftNode::new_at(2, 3, now, 1777);
    assert_eq!(node.last_heartbeat, now);
    assert_eq!(node.election_timeout_ms, 1777);
    assert_eq!(node.state, RaftState::Follower);

    let mut node = RaftNode::new(0, 3);
    let later = Instant::now() + Duration::from_millis(100);
    let reply = node.handle_append_entries_at(
        AppendEntriesArgs { term: 1, leader_id: 1, prev_log_index: 0, prev_log_term: 0, entries: vec![], leader_commit: 0 },
        later,
    );
    assert!(reply.success);
    assert_eq!(node.last_heartbeat, later);

    // a refused request restarts the timer too
    let even_later = later + Duration::from_millis(1);
    let reply = node.handle_append_entries_at(
        AppendEntriesArgs { term: 0, leader_id: 1, prev_log_index: 0, prev_log_term: 0, entries: vec![], leader_commit: 0 },
        even_later,
    );
    assert!(!reply.success);
    assert_eq!(node.last_heartbeat, even_later);

    let t = even_later + Duration::from_millis(1);
    let vote = node.start_election_at(t, 1999).unwrap();
    assert_eq!(vote.term, 2);
    assert_eq!(node.last_heartbeat, t);
    assert_eq!(node.election_timeout_ms, 1999);

    // a granted vote restarts the timer, a refused one does not
    let mut node = RaftNode::new(0, 3);
    let before = node.last_heartbeat;
    let t = before + Duration::from_millis(5);
    let r = node.handle_request_vote_at(RequestVoteArgs { term: 1, candidate_id: 1, last_log_index: 0, last_log_term: 0 }, t);
    assert!(r.vote_granted);
    assert_eq!(node.last_heartbeat, t);
    let t2 = t + Duration::from_millis(5);
    let r = node.handle_request_vote_at(RequestVoteArgs { term: 1, candidate_id: 2, last_log_index: 0, last_log_term: 0 }, t2);
    assert!(!r.vote_granted);
    assert_eq!(node.last_heartbeat, t);
}

#[test]
fn replayed_append_changes_nothing() {
    let mut node = RaftNode::new(1, 3);
    let args = AppendEntriesArgs {
        term: 1,
        leader_id: 0,
        prev_log_index: 0,
        prev_log_term: 0,
        entries: vec![entry(1, "a"), entry(1, "b")],
        leader_commit: 1,
    };
    let r1 = node.handle_append_entries(args.clone());
    let log1: Vec<u64> = node.log.iter().map(|e| e.term).collect();
    let commit1 = node.commit_index;
    let r2 = node.handle_append_entries(args);
    assert!(r1.success && r2.success);
    assert_eq!(r1.term, r2.term);
    assert_eq!(node.log.iter().map(|e| e.term).collect::<Vec<u64>>(), log1);
    assert_eq!(node.log.len(), 2);
    assert_eq!(node.commit_index, commit1);
}

#[test]
fn leader_request_brings_a_lagging_follower_up() {
    let mut leader = RaftNode::new(0, 2);
    leader.state = RaftState::Leader;
    leader.current_term = 3;
    leader.log = vec![entry(1, "a"), entry(2, "b"), entry(3, "c")];
    leader.next_index = vec![4, 2];
    let (_, beats) = leader.tick_at(2, 10, Instant::now(), 1500);
    let args = beats[0].1.clone();
    let mut follower = RaftNode::new(1, 2);
    follower.current_term = 2;
    follower.log = vec![entry(1, "a"), entry(2, "b")];
    let reply = follower.handle_append_entries(args);
    assert!(reply.success);
    assert_eq!(follower.current_term, 3);
    assert_eq!(follower.log.iter().map(|e| e.command.clone()).collect::<Vec<_>>(), leader.log.iter().map(|e| e.command.clone()).collect::<Vec<_>>());
}
