//! Raft consensus: the node's persistent and volatile state and its message handlers.
use rand::Rng;
use std::time::Duration;
use std::time::Instant;
use vstd::prelude::*;

verus! {

// ---------------------------------------------------------------------------
// Clock and randomness
// ---------------------------------------------------------------------------

#[verifier::external_type_specification]
#[verifier::external_body]
pub struct ExInstant(std::time::Instant);

/// `Instant::now`: a reading of the monotonic clock. The value depends on the
/// time of the call, so nothing is promised of it.
#[verifier::external_body]
fn clock_now() -> Instant {
    Instant::now()
}

/// `Instant::duration_since`: the time from `earlier` to `later` (zero when `earlier`
/// is the later one). `Instant` and `Duration` are opaque to the proofs here, so
/// nothing is promised of it.
#[verifier::external_body]
fn clock_between(earlier: &Instant, later: &Instant) -> Duration {
    later.duration_since(*earlier)
}

/// `Duration::as_millis`: the whole milliseconds of `d`. `Duration` is opaque
/// to the proofs here, so nothing is stated about the number.
#[verifier::external_body]
fn duration_whole_millis(d: &Duration) -> u128 {
    d.as_millis()
}

/// `rand::Rng::gen_range` on the thread-local generator (rand 0.8): a value
/// drawn uniformly from the half-open range `[low, high)`. rand panics on an
/// empty range, hence `low < high`. Which value comes out is left open.
#[verifier::external_body]
fn random_in_range(low: u64, high: u64) -> (r: u64)
    requires
        low < high,
    ensures
        low <= r < high,
{
    rand::thread_rng().gen_range(low..high)
}

/// A leader sends heartbeats once this many milliseconds have passed.
pub const HEARTBEAT_INTERVAL_MS: u128 = 10;

/// Lower bound (inclusive) of the randomised election timeout, in milliseconds.
pub const ELECTION_TIMEOUT_MIN_MS: u64 = 1000;

/// Upper bound (exclusive) of the randomised election timeout, in milliseconds.
pub const ELECTION_TIMEOUT_MAX_MS: u64 = 2000;

// ---------------------------------------------------------------------------
// Data types
// ---------------------------------------------------------------------------

/// The role a node plays in the current term.
#[derive(Clone, Copy, Debug, PartialEq, Eq, Structural)]
pub enum RaftState {
    Follower,
    Candidate,
    Leader,
}

/// A state-machine command carried by the replicated log.
#[derive(Debug, PartialEq, Eq)]
pub enum Command {
    SetKey(String, String),
    Delete(String),
    Keys,
    Flush,
}

impl Clone for Command {
    fn clone(&self) -> (r: Self)
        ensures
            r == *self,
    {
        match self {
            Command::SetKey(k, v) => Command::SetKey(k.clone(), v.clone()),
            Command::Delete(k) => Command::Delete(k.clone()),
            Command::Keys => Command::Keys,
            Command::Flush => Command::Flush,
        }
    }
}

/// One slot of the replicated log: a command and the term in which a leader received it.
#[derive(Debug)]
pub struct LogEntry {
    pub term: u64,
    pub command: Command,
}

impl Clone for LogEntry {
    fn clone(&self) -> (r: Self)
        ensures
            r == *self,
    {
        LogEntry { term: self.term, command: self.command.clone() }
    }
}

/// A candidate's request for a vote.
#[derive(Clone, Copy, Debug)]
pub struct RequestVoteArgs {
    pub term: u64,
    pub candidate_id: u64,
    pub last_log_index: u64,
    pub last_log_term: u64,
}

/// The answer to a `RequestVoteArgs`.
#[derive(Clone, Copy, Debug)]
pub struct RequestVoteReply {
    pub term: u64,
    pub vote_granted: bool,
}

/// A leader's replication request (and heartbeat when `entries` is empty).
#[derive(Clone, Debug)]
pub struct AppendEntriesArgs {
    pub term: u64,
    pub leader_id: u64,
    pub prev_log_index: u64,
    pub prev_log_term: u64,
    pub entries: Vec<LogEntry>,
    pub leader_commit: u64,
}

/// The answer to an `AppendEntriesArgs`.
#[derive(Clone, Copy, Debug)]
pub struct AppendEntriesReply {
    pub term: u64,
    pub success: bool,
}

/// The state of one Raft node. Log indices are 1-based: index `i` names `log[i - 1]`,
/// and index 0 stands for "before the first entry".
pub struct RaftNode {
    pub id: u64,
    pub current_term: u64,
    pub voted_for: Option<u64>,
    pub log: Vec<LogEntry>,
    pub state: RaftState,
    pub commit_index: u64,
    pub last_applied: u64,
    pub next_index: Vec<u64>,
    pub match_index: Vec<u64>,
    pub last_heartbeat: Instant,
    /// The randomised election timeout, in milliseconds.
    pub election_timeout_ms: u64,
}

// ---------------------------------------------------------------------------
// Specification helpers
// ---------------------------------------------------------------------------

/// The term of the last entry of `log`, or 0 for an empty log.
pub open spec fn last_term(log: Seq<LogEntry>) -> u64 {
    if log.len() == 0 {
        0
    } else {
        log.last().term
    }
}

/// Raft's "at least as up to date" test of a candidate's log against `log`.
pub open spec fn candidate_log_up_to_date(args: RequestVoteArgs, log: Seq<LogEntry>) -> bool {
    ||| args.last_log_term > last_term(log)
    ||| (args.last_log_term == last_term(log) && args.last_log_index >= log.len())
}

/// Whether `log` holds an entry of term `prev_term` at (1-based) index `prev_index`;
/// index 0 always matches.
pub open spec fn prev_entry_matches(log: Seq<LogEntry>, prev_index: u64, prev_term: u64) -> bool {
    prev_index == 0 || (prev_index <= log.len() && log[prev_index - 1].term == prev_term)
}

/// How many of `entries`, laid over `log` from position `from`, already sit
/// there with the same term.
pub open spec fn agreement_len(log: Seq<LogEntry>, from: int, entries: Seq<LogEntry>) -> nat
    decreases entries.len(),
{
    if entries.len() == 0 || from < 0 || from >= log.len() || log[from].term != entries[0].term {
        0
    } else {
        1 + agreement_len(log, from + 1, entries.drop_first())
    }
}

/// `log` after laying `entries` over it from position `from`: entries that agree
/// in term are kept; from the first disagreement (or the end of `log`) on, the
/// log is cut and the rest of `entries` follows.
pub open spec fn merged_log(log: Seq<LogEntry>, from: int, entries: Seq<LogEntry>) -> Seq<LogEntry> {
    let k = agreement_len(log, from, entries);
    if k == entries.len() {
        log
    } else {
        log.take(from + k) + entries.skip(k as int)
    }
}

/// Whether laying `entries` over `log` from position `from` cuts away an entry of
/// `log`: the first entry that disagrees in term lies within `log`.
pub open spec fn merge_cuts(log: Seq<LogEntry>, from: int, entries: Seq<LogEntry>) -> bool {
    let k = agreement_len(log, from, entries);
    k < entries.len() && from + k < log.len()
}

/// The smaller of two numbers.
pub open spec fn min_u64(a: u64, b: u64) -> u64 {
    if a < b {
        a
    } else {
        b
    }
}

proof fn lemma_agreement_len(log: Seq<LogEntry>, from: int, entries: Seq<LogEntry>)
    requires
        0 <= from <= log.len(),
    ensures
        agreement_len(log, from, entries) <= entries.len(),
        from + agreement_len(log, from, entries) <= log.len(),
        forall|j: int|
            0 <= j < agreement_len(log, from, entries) ==> from + j < log.len() && #[trigger] log[from
                + j].term == entries[j].term,
        agreement_len(log, from, entries) < entries.len() ==> !(from + agreement_len(
            log,
            from,
            entries,
        ) < log.len() && log[from + agreement_len(log, from, entries)].term == entries[agreement_len(
            log,
            from,
            entries,
        ) as int].term),
    decreases entries.len(),
{
    if entries.len() == 0 || from >= log.len() || log[from].term != entries[0].term {
    } else {
        lemma_agreement_len(log, from + 1, entries.drop_first());
        let k = agreement_len(log, from, entries);
        assert forall|j: int| 0 <= j < k implies from + j < log.len() && #[trigger] log[from
            + j].term == entries[j].term by {
            if j > 0 {
                assert(log[(from + 1) + (j - 1)].term == entries.drop_first()[j - 1].term);
            }
        }
    }
}

/// Laying entries over a log keeps the whole log as a prefix exactly when it cuts
/// nothing away.
proof fn lemma_merge_keeps_prefix(log: Seq<LogEntry>, from: int, entries: Seq<LogEntry>)
    requires
        0 <= from <= log.len(),
    ensures
        !merge_cuts(log, from, entries) <==> (merged_log(log, from, entries).len() >= log.len()
            && merged_log(log, from, entries).take(log.len() as int) == log),
{
    lemma_agreement_len(log, from, entries);
    let k = agreement_len(log, from, entries);
    let m = merged_log(log, from, entries);
    if k == entries.len() {
        assert(m.take(log.len() as int) =~= log);
    } else if from + k >= log.len() {
        assert(m.take(log.len() as int) =~= log);
    } else {
        assert(m[from + k] == entries[k as int]);
        if m.len() >= log.len() && m.take(log.len() as int) == log {
            assert(m.take(log.len() as int)[from + k] == log[from + k]);
        }
    }
}

/// Lays `entries` over `log` from position `from`, as `merged_log` describes.
fn merge_entries(log: &mut Vec<LogEntry>, from: usize, entries: &Vec<LogEntry>)
    requires
        from <= old(log).len(),
        old(log).len() + entries.len() <= usize::MAX,
    ensures
        final(log)@ == merged_log(old(log)@, from as int, entries@),
{
    let ghost old_log = log@;
    let ghost k = agreement_len(old_log, from as int, entries@);
    proof {
        lemma_agreement_len(old_log, from as int, entries@);
    }
    let n = entries.len();
    let mut entry_idx: usize = from;
    let mut i: usize = 0;
    while i < n
        invariant
            n == entries.len(),
            i <= n,
            entry_idx == from + i,
            from <= old_log.len(),
            old_log.len() + n <= usize::MAX,
            k == agreement_len(old_log, from as int, entries@),
            k <= n,
            from + k <= old_log.len(),
            forall|j: int| 0 <= j < k ==> from + j < old_log.len() && #[trigger] old_log[from
                + j].term == entries@[j].term,
            k < n ==> !(from + k < old_log.len() && old_log[from + k].term == entries@[k as int].term),
            i <= k ==> log@ == old_log,
            i > k ==> log@ == old_log.take(from + k) + entries@.subrange(k as int, i as int),
        decreases n - i,
    {
        let new_entry = entries[i].clone();
        if entry_idx < log.len() {
            if log[entry_idx].term != new_entry.term {
                log.truncate(entry_idx);
                log.push(new_entry);
            }
        } else {
            log.push(new_entry);
        }
        proof {
            if i < k {
                assert(old_log[from + i].term == entries@[i as int].term);
            } else {
                assert(old_log.take(from + k) + entries@.subrange(k as int, i + 1) =~= log@);
            }
        }
        entry_idx = entry_idx + 1;
        i = i + 1;
    }
    proof {
        if k < n {
            assert(entries@.subrange(k as int, n as int) =~= entries@.skip(k as int));
        }
    }
}

/// `new` and `reply` are what answering the vote request `args` at clock reading `now`
/// makes of `old`; granting the vote restarts the election timer at `now`.
pub open spec fn request_vote_post(
    old: RaftNode,
    new: RaftNode,
    args: RequestVoteArgs,
    reply: RequestVoteReply,
    now: Instant,
) -> bool {
    &&& (args.term < old.current_term ==> new == old && reply == (
            RequestVoteReply { term: old.current_term, vote_granted: false }))
    &&& (args.term >= old.current_term ==> {
                let newer = args.term > old.current_term;
                let voted_before = if newer {
                    None
                } else {
                    old.voted_for
                };
                let grant = (voted_before is None || voted_before == Some(args.candidate_id))
                    && candidate_log_up_to_date(args, old.log@);
                &&& reply == (RequestVoteReply { term: args.term, vote_granted: grant })
                &&& new == (RaftNode {
                    current_term: args.term,
                    state: if newer {
                        RaftState::Follower
                    } else {
                        old.state
                    },
                    voted_for: if grant {
                        Some(args.candidate_id)
                    } else {
                        voted_before
                    },
                    last_heartbeat: if grant {
                        now
                    } else {
                        old.last_heartbeat
                    },
                    ..old
                })
            })
}

/// `new` and `reply` are what handling the replication request `args` at clock
/// reading `now` makes of `old`; the election timer always restarts at `now`.
pub open spec fn append_entries_post(
    old: RaftNode,
    new: RaftNode,
    args: AppendEntriesArgs,
    reply: AppendEntriesReply,
    now: Instant,
) -> bool {
    &&& (args.term < old.current_term ==> new == (RaftNode {
                last_heartbeat: now,
                ..old
            }) && reply == (AppendEntriesReply { term: old.current_term, success: false }))
    &&& (args.term >= old.current_term ==> {
                let new_state = if args.term > old.current_term {
                    RaftState::Follower
                } else {
                    old.state
                };
                let ok = prev_entry_matches(old.log@, args.prev_log_index, args.prev_log_term);
                &&& reply == (AppendEntriesReply { term: args.term, success: ok })
                &&& !ok ==> new == (RaftNode {
                    current_term: args.term,
                    state: new_state,
                    last_heartbeat: now,
                    ..old
                })
                &&& ok ==> {
                    let new_log = merged_log(old.log@, args.prev_log_index as int, args.entries@);
                    &&& new.log@ == new_log
                    &&& new.commit_index == if args.leader_commit > old.commit_index {
                        min_u64(args.leader_commit, new_log.len() as u64)
                    } else {
                        old.commit_index
                    }
                    &&& new.current_term == args.term
                    &&& new.state == new_state
                    &&& new.id == old.id
                    &&& new.voted_for == old.voted_for
                    &&& new.last_applied == old.last_applied
                    &&& new.next_index == old.next_index
                    &&& new.match_index == old.match_index
                    &&& new.election_timeout_ms == old.election_timeout_ms
                    &&& new.last_heartbeat == now
                }
            })
}

impl RaftNode {
    /// Replaces the persisted part of the state (term, vote and log) with recovered values.
    pub fn restore(&mut self, term: u64, voted_for: Option<u64>, log: Vec<LogEntry>)
        ensures
            final(self).current_term == term,
            final(self).voted_for == voted_for,
            final(self).log == log,
            final(self).id == old(self).id,
            final(self).state == old(self).state,
            final(self).commit_index == old(self).commit_index,
            final(self).last_applied == old(self).last_applied,
            final(self).next_index == old(self).next_index,
            final(self).match_index == old(self).match_index,
            final(self).last_heartbeat == old(self).last_heartbeat,
            final(self).election_timeout_ms == old(self).election_timeout_ms,
    {
        self.current_term = term;
        self.voted_for = voted_for;
        self.log = log;
    }

    /// Answers a vote request, reading the clock for the election timer (see
    /// `handle_request_vote_at`).
    pub fn handle_request_vote(&mut self, args: RequestVoteArgs) -> (reply: RequestVoteReply)
        ensures
            exists|now: Instant| request_vote_post(*old(self), *final(self), args, reply, now),
            final(self).current_term >= old(self).current_term,
            old(self).voted_for is Some && final(self).current_term == old(self).current_term
                ==> final(self).voted_for == old(self).voted_for,
    {
        let now = clock_now();
        self.handle_request_vote_at(args, now)
    }

    /// Answers a vote request at clock reading `now`. A newer term turns the node into a
    /// follower of that term with no vote cast; the vote goes to the candidate when the
    /// node has not voted for someone else in this term and the candidate's log is at
    /// least as up to date, and granting it restarts the election timer at `now`.
    pub fn handle_request_vote_at(&mut self, args: RequestVoteArgs, now: Instant) -> (reply: RequestVoteReply)
        ensures
            request_vote_post(*old(self), *final(self), args, reply, now),
            final(self).current_term >= old(self).current_term,
            old(self).voted_for is Some && final(self).current_term == old(self).current_term
                ==> final(self).voted_for == old(self).voted_for,
    {
        if args.term < self.current_term {
            return RequestVoteReply { term: self.current_term, vote_granted: false };
        }
        if args.term > self.current_term {
            self.current_term = args.term;
            self.state = RaftState::Follower;
            self.voted_for = None;
        }
        let can_vote = match self.voted_for {
            None => true,
            Some(c) => c == args.candidate_id,
        };
        let last_log_index = self.log.len() as u64;
        let last_log_term = match self.log.last() {
            Some(e) => e.term,
            None => 0,
        };
        let log_is_uptodate = args.last_log_term > last_log_term || (args.last_log_term
            == last_log_term && args.last_log_index >= last_log_index);
        if can_vote && log_is_uptodate {
            self.voted_for = Some(args.candidate_id);
            self.last_heartbeat = now;
            RequestVoteReply { term: self.current_term, vote_granted: true }
        } else {
            RequestVoteReply { term: self.current_term, vote_granted: false }
        }
    }

    /// Handles a leader's replication request, reading the clock for the election timer
    /// (see `handle_append_entries_at`).
    pub fn handle_append_entries(&mut self, args: AppendEntriesArgs) -> (reply: AppendEntriesReply)
        requires
            old(self).log.len() + args.entries.len() <= usize::MAX,
        ensures
            exists|now: Instant| append_entries_post(*old(self), *final(self), args, reply, now),
            final(self).current_term >= old(self).current_term,
            final(self).commit_index >= min_u64(old(self).commit_index, final(self).log.len() as u64),
    {
        let now = clock_now();
        self.handle_append_entries_at(args, now)
    }

    /// Handles a leader's replication request at clock reading `now`. Every call
    /// restarts the election timer at `now`. A stale term is refused; a newer one makes
    /// the node a follower of that term. When the log holds the leader's previous entry,
    /// the new entries are laid over the log (`merged_log`) and the commit index follows
    /// the leader's, capped by the log's length. The commit index never moves back
    /// unless the log was cut below it.
    pub fn handle_append_entries_at(&mut self, args: AppendEntriesArgs, now: Instant) -> (reply: AppendEntriesReply)
        requires
            old(self).log.len() + args.entries.len() <= usize::MAX,
        ensures
            append_entries_post(*old(self), *final(self), args, reply, now),
            final(self).current_term >= old(self).current_term,
            final(self).commit_index >= min_u64(old(self).commit_index, final(self).log.len() as u64),
    {
        self.last_heartbeat = now;
        if args.term < self.current_term {
            return AppendEntriesReply { term: self.current_term, success: false };
        }
        if args.term > self.current_term {
            self.current_term = args.term;
            self.state = RaftState::Follower;
        }
        if args.prev_log_index > 0 {
            let index = args.prev_log_index - 1;
            if index >= self.log.len() as u64 || self.log[index as usize].term != args.prev_log_term {
                return AppendEntriesReply { term: self.current_term, success: false };
            }
        }
        merge_entries(&mut self.log, args.prev_log_index as usize, &args.entries);
        if args.leader_commit > self.commit_index {
            let len = self.log.len() as u64;
            self.commit_index = if args.leader_commit < len {
                args.leader_commit
            } else {
                len
            };
        }
        AppendEntriesReply { term: self.current_term, success: true }
    }

}


// ---------------------------------------------------------------------------
// Elections and heartbeats
// ---------------------------------------------------------------------------

/// The peers of a cluster of `count` nodes numbered `0..count`, without `id`,
/// in increasing order.
pub open spec fn other_peers(id: u64, count: nat) -> Seq<u64> {
    if id < count {
        Seq::new((count - 1) as nat, |j: int| if j < id { j as u64 } else { (j + 1) as u64 })
    } else {
        Seq::new(count, |j: int| j as u64)
    }
}

/// Whether the leader's bookkeeping for `peer` lets it build a replication request:
/// the peer has a slot and its next index lies in `1..=log.len() + 1`.
pub open spec fn can_replicate_to(node: RaftNode, peer: u64) -> bool {
    &&& peer < node.next_index.len()
    &&& 1 <= node.next_index@[peer as int] <= node.log.len() + 1
}

/// `a` is the replication request that `node` sends to `peer`: everything from the
/// peer's next index on, anchored at the entry just before it.
pub open spec fn is_append_request_for(node: RaftNode, peer: u64, a: AppendEntriesArgs) -> bool {
    let next = node.next_index@[peer as int];
    &&& a.term == node.current_term
    &&& a.leader_id == node.id
    &&& a.prev_log_index == next - 1
    &&& a.prev_log_term == (if next > 1 {
        node.log@[next - 2].term
    } else {
        0
    })
    &&& a.entries@ == (if node.log.len() >= next {
        node.log@.subrange(next - 1, node.log.len() as int)
    } else {
        Seq::empty()
    })
    &&& a.leader_commit == node.commit_index
}

/// `new` is `old` after it started an election at clock reading `now` with the
/// newly drawn timeout `timeout_ms`: a candidate in the next term that voted for
/// itself, with its timer restarted at `now` and the new timeout, asking for votes
/// with `request`.
pub open spec fn election_started(
    old: RaftNode,
    new: RaftNode,
    request: Option<RequestVoteArgs>,
    now: Instant,
    timeout_ms: u64,
) -> bool {
    &&& new == (RaftNode {
        state: RaftState::Candidate,
        current_term: (old.current_term + 1) as u64,
        voted_for: Some(old.id),
        last_heartbeat: now,
        election_timeout_ms: timeout_ms,
        ..old
    })
    &&& request == Some(
        RequestVoteArgs {
            term: (old.current_term + 1) as u64,
            candidate_id: old.id,
            last_log_index: old.log.len() as u64,
            last_log_term: last_term(old.log@),
        },
    )
}

/// `hb` holds one replication request for each peer other than the leader, in
/// increasing peer order.
pub open spec fn heartbeats_for(old: RaftNode, peer_count: nat, hb: Seq<(u64, AppendEntriesArgs)>) -> bool {
    let peers = other_peers(old.id, peer_count);
    &&& hb.len() == peers.len()
    &&& forall|j: int|
        0 <= j < hb.len() ==> (#[trigger] hb[j]).0 == peers[j] && is_append_request_for(
            old,
            peers[j],
            hb[j].1,
        )
}

/// A tick cannot fail: a follower or candidate can move to the next term, and a
/// leader can build a replication request for every other peer of the cluster.
pub open spec fn tick_ready(node: RaftNode, peer_count: nat) -> bool {
    &&& node.state != RaftState::Leader ==> node.current_term < u64::MAX
    &&& node.state == RaftState::Leader ==> forall|p: u64|
        p < peer_count && p != node.id ==> #[trigger] can_replicate_to(node, p)
}

/// What one timer tick at clock reading `now`, `elapsed_ms` milliseconds after the
/// last heartbeat, does: a follower or candidate whose timeout ran out starts an
/// election with the drawn timeout `timeout_ms`; a leader whose heartbeat interval ran
/// out restarts its timer at `now` and sends every peer a replication request;
/// otherwise nothing changes.
pub open spec fn tick_outcome(
    old: RaftNode,
    new: RaftNode,
    peer_count: nat,
    elapsed_ms: u128,
    now: Instant,
    timeout_ms: u64,
    out: (Option<RequestVoteArgs>, Vec<(u64, AppendEntriesArgs)>),
) -> bool {
    if old.state != RaftState::Leader {
        if elapsed_ms >= old.election_timeout_ms {
            election_started(old, new, out.0, now, timeout_ms) && out.1@.len() == 0
        } else {
            new == old && out.0 is None && out.1@.len() == 0
        }
    } else {
        if elapsed_ms >= HEARTBEAT_INTERVAL_MS {
            &&& new == (RaftNode { last_heartbeat: now, ..old })
            &&& out.0 is None
            &&& heartbeats_for(old, peer_count, out.1@)
        } else {
            new == old && out.0 is None && out.1@.len() == 0
        }
    }
}

/// Copies `log[from..]` into a new vector.
fn copy_suffix(log: &Vec<LogEntry>, from: usize) -> (r: Vec<LogEntry>)
    requires
        from <= log.len(),
    ensures
        r@ == log@.subrange(from as int, log.len() as int),
{
    let mut r: Vec<LogEntry> = Vec::new();
    let mut i = from;
    while i < log.len()
        invariant
            from <= i <= log.len(),
            r@ == log@.subrange(from as int, i as int),
        decreases log.len() - i,
    {
        r.push(log[i].clone());
        proof {
            assert(r@ =~= log@.subrange(from as int, i + 1));
        }
        i = i + 1;
    }
    r
}

/// Sets every one of `next` to `value` and zeroes the same positions of `matched`.
fn reset_peer_progress(next: &mut Vec<u64>, matched: &mut Vec<u64>, value: u64)
    requires
        old(matched).len() >= old(next).len(),
    ensures
        final(next)@ == Seq::new(old(next).len() as nat, |i: int| value),
        final(matched)@ == Seq::new(
            old(matched).len() as nat,
            |i: int|
                if i < old(next).len() {
                    0u64
                } else {
                    old(matched)@[i]
                },
        ),
{
    let ghost old_matched = matched@;
    let n = next.len();
    let mut i: usize = 0;
    while i < n
        invariant
            n == next.len(),
            matched.len() == old_matched.len(),
            old_matched.len() >= n,
            i <= n,
            forall|j: int| 0 <= j < i ==> next@[j] == value,
            forall|j: int| 0 <= j < i ==> matched@[j] == 0,
            forall|j: int| i <= j < matched.len() ==> matched@[j] == old_matched[j],
        decreases n - i,
    {
        next.set(i, value);
        matched.set(i, 0);
        i = i + 1;
    }
    assert(next@ =~= Seq::new(n as nat, |i: int| value));
    assert(matched@ =~= Seq::new(
        old_matched.len(),
        |i: int|
            if i < n {
                0u64
            } else {
                old_matched[i]
            },
    ));
}

/// Handing out committed commands cannot fail: when something is left to apply,
/// the commit index lies within the log.
pub open spec fn apply_ready(node: RaftNode) -> bool {
    node.last_applied < node.commit_index ==> node.commit_index <= node.log.len()
}

/// `new` is `old` after handing out `commands`: the commands of the committed entries
/// past the last applied one, in log order, with the last applied index moved up to
/// the commit index; nothing happens when everything committed was applied.
pub open spec fn applied_commands(old: RaftNode, new: RaftNode, commands: Seq<Command>) -> bool {
    if old.last_applied < old.commit_index {
        &&& new == (RaftNode { last_applied: old.commit_index, ..old })
        &&& commands == old.log@.subrange(old.last_applied as int, old.commit_index as int).map_values(
            |e: LogEntry| e.command,
        )
    } else {
        new == old && commands.len() == 0
    }
}

/// Counting `reply` cannot fail: a vote counted for a candidate does not overflow,
/// and winning finds a match slot for every next-index slot and room for the next index.
pub open spec fn vote_reply_ready(node: RaftNode, reply: RequestVoteReply, peer_count: usize, votes: usize) -> bool {
    reply.term <= node.current_term && node.state == RaftState::Candidate && reply.vote_granted
        ==> votes < usize::MAX && (votes + 1 > peer_count / 2 ==> node.match_index.len()
        >= node.next_index.len() && node.log.len() < u64::MAX)
}

/// `new` and `votes_after` are what counting the vote reply `reply` makes of `old`
/// and `votes_before`, in a cluster of `peer_count` nodes.
pub open spec fn vote_reply_post(old: RaftNode, new: RaftNode, reply: RequestVoteReply, peer_count: usize, votes_before: usize, votes_after: usize) -> bool {
    &&& (reply.term > old.current_term ==> new == (RaftNode {
                current_term: reply.term,
                state: RaftState::Follower,
                ..old
            }) && votes_after == votes_before)
    &&& (reply.term <= old.current_term && !(old.state == RaftState::Candidate
                && reply.vote_granted) ==> new == old && votes_after == votes_before)
    &&& (reply.term <= old.current_term && old.state == RaftState::Candidate
                && reply.vote_granted ==> {
                &&& votes_after == votes_before + 1
                &&& votes_after <= peer_count / 2 ==> new == old
                &&& votes_after > peer_count / 2 ==> {
                    &&& new.state == RaftState::Leader
                    &&& new.next_index@ == Seq::new(
                        old.next_index.len() as nat,
                        |i: int| (old.log.len() + 1) as u64,
                    )
                    &&& new.match_index@ == Seq::new(
                        old.match_index.len() as nat,
                        |i: int|
                            if i < old.next_index.len() {
                                0u64
                            } else {
                                old.match_index@[i]
                            },
                    )
                    &&& new.id == old.id
                    &&& new.current_term == old.current_term
                    &&& new.voted_for == old.voted_for
                    &&& new.log == old.log
                    &&& new.commit_index == old.commit_index
                    &&& new.last_applied == old.last_applied
                    &&& new.last_heartbeat == old.last_heartbeat
                    &&& new.election_timeout_ms == old.election_timeout_ms
                }
            })
}

impl RaftNode {
    /// A follower in term 0 with an empty log, no vote, next index 1 and match
    /// index 0 for each of `peer_count` peers, its timer started now and a random
    /// election timeout (see `new_at`).
    pub fn new(id: u64, peer_count: usize) -> (node: Self)
        ensures
            node.id == id,
            node.current_term == 0,
            node.voted_for is None,
            node.log@ == Seq::<LogEntry>::empty(),
            node.state == RaftState::Follower,
            node.commit_index == 0,
            node.last_applied == 0,
            node.next_index@ == Seq::new(peer_count as nat, |i: int| 1u64),
            node.match_index@ == Seq::new(peer_count as nat, |i: int| 0u64),
            ELECTION_TIMEOUT_MIN_MS <= node.election_timeout_ms < ELECTION_TIMEOUT_MAX_MS,
    {
        let timeout = random_in_range(ELECTION_TIMEOUT_MIN_MS, ELECTION_TIMEOUT_MAX_MS);
        let now = clock_now();
        Self::new_at(id, peer_count, now, timeout)
    }

    /// A follower in term 0 with an empty log, no vote, next index 1 and match
    /// index 0 for each of `peer_count` peers, its timer started at `now` and the
    /// election timeout `timeout_ms`.
    pub fn new_at(id: u64, peer_count: usize, now: Instant, timeout_ms: u64) -> (node: Self)
        ensures
            node.id == id,
            node.current_term == 0,
            node.voted_for is None,
            node.log@ == Seq::<LogEntry>::empty(),
            node.state == RaftState::Follower,
            node.commit_index == 0,
            node.last_applied == 0,
            node.next_index@ == Seq::new(peer_count as nat, |i: int| 1u64),
            node.match_index@ == Seq::new(peer_count as nat, |i: int| 0u64),
            node.last_heartbeat == now,
            node.election_timeout_ms == timeout_ms,
    {
        let mut next_index: Vec<u64> = Vec::new();
        let mut match_index: Vec<u64> = Vec::new();
        let mut i: usize = 0;
        while i < peer_count
            invariant
                i <= peer_count,
                next_index@ == Seq::new(i as nat, |j: int| 1u64),
                match_index@ == Seq::new(i as nat, |j: int| 0u64),
            decreases peer_count - i,
        {
            next_index.push(1);
            match_index.push(0);
            i = i + 1;
            assert(next_index@ =~= Seq::new(i as nat, |j: int| 1u64));
            assert(match_index@ =~= Seq::new(i as nat, |j: int| 0u64));
        }
        RaftNode {
            id,
            current_term: 0,
            voted_for: None,
            log: Vec::new(),
            state: RaftState::Follower,
            commit_index: 0,
            last_applied: 0,
            next_index,
            match_index,
            last_heartbeat: now,
            election_timeout_ms: timeout_ms,
        }
    }

    /// Starts an election now, with a new random timeout (see `start_election_at`).
    pub fn start_election(&mut self) -> (request: Option<RequestVoteArgs>)
        requires
            old(self).current_term < u64::MAX,
        ensures
            exists|now: Instant, timeout_ms: u64|
                ELECTION_TIMEOUT_MIN_MS <= timeout_ms < ELECTION_TIMEOUT_MAX_MS && election_started(
                    *old(self),
                    *final(self),
                    request,
                    now,
                    timeout_ms,
                ),
    {
        let timeout = random_in_range(ELECTION_TIMEOUT_MIN_MS, ELECTION_TIMEOUT_MAX_MS);
        let now = clock_now();
        self.start_election_at(now, timeout)
    }

    /// Becomes a candidate in the next term, votes for itself, restarts the timer at
    /// `now` with the election timeout `timeout_ms` and returns the vote request to send.
    pub fn start_election_at(&mut self, now: Instant, timeout_ms: u64) -> (request: Option<RequestVoteArgs>)
        requires
            old(self).current_term < u64::MAX,
        ensures
            election_started(*old(self), *final(self), request, now, timeout_ms),
    {
        self.state = RaftState::Candidate;
        self.current_term = self.current_term + 1;
        self.voted_for = Some(self.id);
        self.last_heartbeat = now;
        self.election_timeout_ms = timeout_ms;
        let last_log_index = self.log.len() as u64;
        let last_log_term = match self.log.last() {
            Some(e) => e.term,
            None => 0,
        };
        Some(
            RequestVoteArgs {
                term: self.current_term,
                candidate_id: self.id,
                last_log_index,
                last_log_term,
            },
        )
    }

    /// The replication request for `peer_id`, built from the leader's log and the
    /// peer's next index.
    fn make_append_entries(&self, peer_id: u64) -> (a: AppendEntriesArgs)
        requires
            can_replicate_to(*self, peer_id),
        ensures
            is_append_request_for(*self, peer_id, a),
    {
        let next_idx = self.next_index[peer_id as usize];
        let entries = if self.log.len() as u64 >= next_idx {
            copy_suffix(&self.log, (next_idx - 1) as usize)
        } else {
            Vec::new()
        };
        let prev_log_index = next_idx - 1;
        let prev_log_term = if prev_log_index > 0 {
            self.log[(prev_log_index - 1) as usize].term
        } else {
            0
        };
        AppendEntriesArgs {
            term: self.current_term,
            leader_id: self.id,
            prev_log_index,
            prev_log_term,
            entries,
            leader_commit: self.commit_index,
        }
    }

    /// Replication requests for every peer in `0..peer_count` other than this node.
    fn heartbeats(&self, peer_count: usize) -> (hb: Vec<(u64, AppendEntriesArgs)>)
        requires
            forall|p: u64| p < peer_count && p != self.id ==> #[trigger] can_replicate_to(*self, p),
        ensures
            heartbeats_for(*self, peer_count as nat, hb@),
    {
        let mut hb: Vec<(u64, AppendEntriesArgs)> = Vec::new();
        let count = peer_count as u64;
        let mut peer_id: u64 = 0;
        while peer_id < count
            invariant
                count == peer_count,
                peer_id <= count,
                forall|p: u64| p < peer_count && p != self.id ==> #[trigger] can_replicate_to(*self, p),
                hb@.len() == other_peers(self.id, peer_id as nat).len(),
                forall|j: int|
                    0 <= j < hb@.len() ==> (#[trigger] hb@[j]).0 == other_peers(self.id, peer_id as nat)[j]
                        && is_append_request_for(*self, hb@[j].0, hb@[j].1),
            decreases count - peer_id,
        {
            if peer_id != self.id {
                assert(can_replicate_to(*self, peer_id));
                let a = self.make_append_entries(peer_id);
                hb.push((peer_id, a));
            }
            proof {
                let before = other_peers(self.id, peer_id as nat);
                let after = other_peers(self.id, (peer_id + 1) as nat);
                if peer_id == self.id {
                    assert forall|j: int| 0 <= j < before.len() implies after[j] == before[j] by {}
                } else {
                    assert forall|j: int| 0 <= j < before.len() implies after[j] == before[j] by {}
                    assert(after[before.len() as int] == peer_id);
                }
            }
            peer_id = peer_id + 1;
        }
        hb
    }

    /// One timer tick at clock reading `now`, `elapsed_ms` milliseconds after the last
    /// heartbeat, with `timeout_ms` as the timeout of an election it starts (see
    /// `tick_outcome`).
    pub fn tick_at(
        &mut self,
        peer_count: usize,
        elapsed_ms: u128,
        now: Instant,
        timeout_ms: u64,
    ) -> (out: (Option<RequestVoteArgs>, Vec<(u64, AppendEntriesArgs)>))
        requires
            old(self).state != RaftState::Leader && elapsed_ms >= old(self).election_timeout_ms
                ==> old(self).current_term < u64::MAX,
            old(self).state == RaftState::Leader && elapsed_ms >= HEARTBEAT_INTERVAL_MS ==> forall|
                p: u64,
            |
                p < peer_count && p != old(self).id ==> #[trigger] can_replicate_to(*old(self), p),
        ensures
            tick_outcome(*old(self), *final(self), peer_count as nat, elapsed_ms, now, timeout_ms, out),
            final(self).current_term >= old(self).current_term,
    {
        match self.state {
            RaftState::Follower | RaftState::Candidate => {
                if elapsed_ms >= self.election_timeout_ms as u128 {
                    (self.start_election_at(now, timeout_ms), Vec::new())
                } else {
                    (None, Vec::new())
                }
            },
            RaftState::Leader => {
                if elapsed_ms >= HEARTBEAT_INTERVAL_MS {
                    let hb = self.heartbeats(peer_count);
                    self.last_heartbeat = now;
                    (None, hb)
                } else {
                    (None, Vec::new())
                }
            },
        }
    }

    /// One timer tick: reads the clock, measures the time since the last heartbeat,
    /// draws a new random timeout when an election is due, and acts as `tick_at` does.
    /// Which of the outcomes happens depends on the clock.
    pub fn tick(&mut self, peer_count: usize) -> (out: (
        Option<RequestVoteArgs>,
        Vec<(u64, AppendEntriesArgs)>,
    ))
        requires
            tick_ready(*old(self), peer_count as nat),
        ensures
            exists|elapsed_ms: u128, now: Instant, timeout_ms: u64|
                {
                    &&& tick_outcome(
                        *old(self),
                        *final(self),
                        peer_count as nat,
                        elapsed_ms,
                        now,
                        timeout_ms,
                        out,
                    )
                    &&& old(self).state != RaftState::Leader && elapsed_ms >= old(
                        self,
                    ).election_timeout_ms ==> ELECTION_TIMEOUT_MIN_MS <= timeout_ms
                        < ELECTION_TIMEOUT_MAX_MS
                },
            final(self).current_term >= old(self).current_term,
    {
        let now = clock_now();
        let elapsed = clock_between(&self.last_heartbeat, &now);
        let elapsed_ms = duration_whole_millis(&elapsed);
        let timeout = if self.state != RaftState::Leader && elapsed_ms >= self.election_timeout_ms as u128 {
            random_in_range(ELECTION_TIMEOUT_MIN_MS, ELECTION_TIMEOUT_MAX_MS)
        } else {
            self.election_timeout_ms
        };
        self.tick_at(peer_count, elapsed_ms, now, timeout)
    }

    /// Counts a vote reply. A newer term turns the node into a follower of that term.
    /// A granted vote to a candidate is counted in `votes`; once the votes exceed half
    /// of `peer_count` the node becomes leader, with every peer's next index set just
    /// past its log and their match indices zeroed.
    pub fn handle_vote_reply(&mut self, reply: RequestVoteReply, peer_count: usize, votes: &mut usize)
        requires
            vote_reply_ready(*old(self), reply, peer_count, *old(votes)),
        ensures
            vote_reply_post(*old(self), *final(self), reply, peer_count, *old(votes), *final(votes)),
            final(self).current_term >= old(self).current_term,
            final(self).state == RaftState::Leader && old(self).state != RaftState::Leader
                ==> *final(votes) > peer_count / 2,
    {
        if reply.term > self.current_term {
            self.current_term = reply.term;
            self.state = RaftState::Follower;
            return ;
        }
        if self.state == RaftState::Candidate && reply.vote_granted {
            *votes = *votes + 1;
            if *votes > peer_count / 2 {
                self.state = RaftState::Leader;
                let next = self.log.len() as u64 + 1;
                reset_peer_progress(&mut self.next_index, &mut self.match_index, next);
            }
        }
    }

    /// Hands out, in log order, the commands of the entries that are committed but not
    /// yet applied, and records them as applied.
    pub fn get_unapplied_commands(&mut self) -> (commands: Vec<Command>)
        requires
            apply_ready(*old(self)),
        ensures
            applied_commands(*old(self), *final(self), commands@),
    {
        let mut commands: Vec<Command> = Vec::new();
        let mut applied = self.last_applied;
        let commit = self.commit_index;
        let ghost start = applied;
        assert(start < commit ==> commands@ =~= self.log@.subrange(start as int, applied as int).map_values(
            |e: LogEntry| e.command,
        ));
        while applied < commit
            invariant
                start <= applied,
                start < commit ==> applied <= commit,
                start >= commit ==> applied == start,
                start < commit ==> commit <= self.log.len(),
                start < commit ==> commands@ == self.log@.subrange(start as int, applied as int).map_values(
                    |e: LogEntry| e.command,
                ),
                start >= commit ==> commands@.len() == 0,
            decreases commit - applied,
        {
            applied = applied + 1;
            commands.push(self.log[(applied - 1) as usize].command.clone());
            assert(commands@ =~= self.log@.subrange(start as int, applied as int).map_values(
                |e: LogEntry| e.command,
            ));
        }
        self.last_applied = applied;
        commands
    }
}


// ---------------------------------------------------------------------------
// Commitment
// ---------------------------------------------------------------------------

/// The ascending order on match indices.
pub open spec fn ascending() -> spec_fn(u64, u64) -> bool {
    |a: u64, b: u64| a <= b
}

/// The position, in ascending order, of the largest match index that a strict
/// majority of `len` nodes has reached: every element from it on is at least as
/// large, and there are `len - (len - 1) / 2 > len / 2` of them.
pub open spec fn quorum_position(len: nat) -> int {
    (len as int - 1) / 2
}

/// The match index reached by a strict majority: with `own` (the leader's log length)
/// in the leader's slot, the element at `quorum_position` of the match indices in
/// ascending order.
pub open spec fn quorum_match_index(match_index: Seq<u64>, leader: u64, own: u64) -> u64 {
    let m = match_index.update(leader as int, own);
    m.sort_by(ascending())[quorum_position(m.len())]
}

/// The leader's commit index after it looks at its peers' match indices: the quorum
/// match index when that is past `commit` and names an entry of the current `term`,
/// `commit` otherwise.
pub open spec fn advanced_commit_index(
    log: Seq<LogEntry>,
    match_index: Seq<u64>,
    leader: u64,
    commit: u64,
    term: u64,
) -> u64 {
    let q = quorum_match_index(match_index, leader, log.len() as u64);
    if q > commit && q > 0 && log[q - 1].term == term {
        q
    } else {
        commit
    }
}

/// The leader has a match slot, and a quorum match index past `commit` names an
/// entry of `log`.
pub open spec fn commit_check_in_bounds(
    log: Seq<LogEntry>,
    match_index: Seq<u64>,
    leader: u64,
    commit: u64,
) -> bool {
    &&& leader < match_index.len()
    &&& log.len() <= u64::MAX
    &&& {
        let q = quorum_match_index(match_index, leader, log.len() as u64);
        q > commit && q > 0 ==> q <= log.len()
    }
}

proof fn lemma_ascending_total()
    ensures
        vstd::relations::total_ordering(ascending()),
{
    let leq = ascending();
    assert(vstd::relations::reflexive(leq));
    assert(vstd::relations::transitive(leq));
    assert(vstd::relations::antisymmetric(leq));
    assert(vstd::relations::strongly_connected(leq));
}

/// A sequence sorted ascending with the same elements as `m` is `m`'s sorted form.
proof fn lemma_sorted_is_sort_by(s: Seq<u64>, m: Seq<u64>)
    requires
        vstd::relations::sorted_by(s, ascending()),
        s.to_multiset() == m.to_multiset(),
    ensures
        s == m.sort_by(ascending()),
{
    lemma_ascending_total();
    m.lemma_sort_by_ensures(ascending());
    vstd::seq_lib::lemma_sorted_unique(s, m.sort_by(ascending()), ascending());
}

/// The elements of `v` in ascending order.
fn sort_ascending(v: &Vec<u64>) -> (r: Vec<u64>)
    ensures
        vstd::relations::sorted_by(r@, ascending()),
        r@.to_multiset() == v@.to_multiset(),
{
    broadcast use vstd::seq_lib::group_to_multiset_ensures;
    let mut r: Vec<u64> = Vec::new();
    let mut i: usize = 0;
    while i < v.len()
        invariant
            i <= v.len(),
            vstd::relations::sorted_by(r@, ascending()),
            r@.to_multiset() == v@.subrange(0, i as int).to_multiset(),
            r.len() == i,
        decreases v.len() - i,
    {
        let x = v[i];
        let mut p: usize = 0;
        while p < r.len() && r[p] <= x
            invariant
                p <= r.len(),
                forall|q: int| 0 <= q < p ==> r@[q] <= x,
            decreases r.len() - p,
        {
            p = p + 1;
        }
        let ghost before = r@;
        r.insert(p, x);
        proof {
            assert(r@ == before.insert(p as int, x));
            assert forall|a: int, b: int| 0 <= a < b < r@.len() implies #[trigger] (ascending())(
                r@[a],
                r@[b],
            ) by {
                if b < p {
                    assert((ascending())(before[a], before[b]));
                } else if b == p {
                } else if a < p {
                    assert((ascending())(before[a], before[b - 1]));
                } else if a == p {
                    assert((ascending())(before[p as int], before[b - 1]));
                } else {
                    assert((ascending())(before[a - 1], before[b - 1]));
                }
            }
            vstd::seq_lib::to_multiset_insert(before, p as int, x);
            assert(v@.subrange(0, i + 1) =~= v@.subrange(0, i as int).push(x));
            vstd::seq_lib::to_multiset_build(v@.subrange(0, i as int), x);
        }
        i = i + 1;
    }
    assert(v@.subrange(0, v.len() as int) =~= v@);
    r
}

/// Handling `reply` from `peer_id` cannot fail: a leader has slots for the peer, room
/// for its next index, and its quorum match index afterwards names an entry of its log.
pub open spec fn append_reply_ready(node: RaftNode, peer_id: u64, reply: AppendEntriesReply) -> bool {
    &&& reply.term <= node.current_term && node.state == RaftState::Leader
        ==> peer_id < node.next_index.len()
    &&& reply.term <= node.current_term && node.state == RaftState::Leader && reply.success ==> {
        &&& peer_id < node.match_index.len()
        &&& node.log.len() < u64::MAX
        &&& commit_check_in_bounds(
            node.log@,
            node.match_index@.update(peer_id as int, node.log.len() as u64),
            node.id,
            node.commit_index,
        )
    }
}

/// `new` is what handling the answer `reply` of peer `peer_id` makes of `old`.
pub open spec fn append_reply_post(old: RaftNode, new: RaftNode, peer_id: u64, reply: AppendEntriesReply) -> bool {
    &&& (reply.term > old.current_term ==> new == (RaftNode {
                current_term: reply.term,
                state: RaftState::Follower,
                ..old
            }))
    &&& (reply.term <= old.current_term && old.state != RaftState::Leader
                ==> new == old)
    &&& (reply.term <= old.current_term && old.state == RaftState::Leader
                && reply.success ==> {
                let matched = old.match_index@.update(
                    peer_id as int,
                    old.log.len() as u64,
                );
                &&& new.match_index@ == matched
                &&& new.next_index@ == old.next_index@.update(
                    peer_id as int,
                    (old.log.len() + 1) as u64,
                )
                &&& new.commit_index == advanced_commit_index(
                    old.log@,
                    matched,
                    old.id,
                    old.commit_index,
                    old.current_term,
                )
                &&& new.id == old.id
                &&& new.current_term == old.current_term
                &&& new.voted_for == old.voted_for
                &&& new.log == old.log
                &&& new.state == old.state
                &&& new.last_applied == old.last_applied
                &&& new.last_heartbeat == old.last_heartbeat
                &&& new.election_timeout_ms == old.election_timeout_ms
            })
    &&& (reply.term <= old.current_term && old.state == RaftState::Leader
                && !reply.success ==> {
                &&& new.next_index@ == if old.next_index@[peer_id as int] > 1 {
                    old.next_index@.update(
                        peer_id as int,
                        (old.next_index@[peer_id as int] - 1) as u64,
                    )
                } else {
                    old.next_index@
                }
                &&& new.match_index == old.match_index
                &&& new.id == old.id
                &&& new.current_term == old.current_term
                &&& new.voted_for == old.voted_for
                &&& new.log == old.log
                &&& new.state == old.state
                &&& new.commit_index == old.commit_index
                &&& new.last_applied == old.last_applied
                &&& new.last_heartbeat == old.last_heartbeat
                &&& new.election_timeout_ms == old.election_timeout_ms
            })
}

/// A copy of `v`.
fn copy_u64s(v: &Vec<u64>) -> (r: Vec<u64>)
    ensures
        r@ == v@,
{
    let mut r: Vec<u64> = Vec::new();
    let mut i: usize = 0;
    while i < v.len()
        invariant
            i <= v.len(),
            r@ == v@.subrange(0, i as int),
        decreases v.len() - i,
    {
        r.push(v[i]);
        i = i + 1;
        assert(r@ =~= v@.subrange(0, i as int));
    }
    assert(r@ =~= v@);
    r
}

/// The quorum match index of `match_index` with `own` in the leader's slot: the
/// match indices are copied, the leader's slot set, the copy sorted and the element
/// at `quorum_position` taken.
fn quorum_value(match_index: &Vec<u64>, leader: u64, own: u64) -> (q: u64)
    requires
        leader < match_index.len(),
    ensures
        q == quorum_match_index(match_index@, leader, own),
{
    let mut match_indices = copy_u64s(match_index);
    match_indices.set(leader as usize, own);
    let sorted = sort_ascending(&match_indices);
    proof {
        vstd::seq_lib::to_multiset_len(sorted@);
        vstd::seq_lib::to_multiset_len(match_indices@);
        lemma_sorted_is_sort_by(sorted@, match_indices@);
    }
    sorted[(sorted.len() - 1) / 2]
}

impl RaftNode {
    /// Moves the commit index up to the index that a majority of the cluster has
    /// replicated (see `advanced_commit_index`), provided it names an entry of the
    /// current term.
    fn update_commit_index(&mut self)
        requires
            commit_check_in_bounds(
                old(self).log@,
                old(self).match_index@,
                old(self).id,
                old(self).commit_index,
            ),
        ensures
            *final(self) == (RaftNode {
                commit_index: advanced_commit_index(
                    old(self).log@,
                    old(self).match_index@,
                    old(self).id,
                    old(self).commit_index,
                    old(self).current_term,
                ),
                ..*old(self)
            }),
    {
        let majority_index = quorum_value(&self.match_index, self.id, self.log.len() as u64);
        if majority_index > self.commit_index {
            if majority_index > 0 && self.log[(majority_index - 1) as usize].term
                == self.current_term {
                self.commit_index = majority_index;
            }
        }
    }

    /// Handles a peer's answer to a replication request. A newer term turns the node
    /// into a follower of that term. A leader records a success as the peer matching
    /// its whole log and then re-checks its commit index; after a failure it steps the
    /// peer's next index back by one, but not below 1.
    pub fn handle_append_entries_reply(&mut self, peer_id: u64, reply: AppendEntriesReply)
        requires
            append_reply_ready(*old(self), peer_id, reply),
        ensures
            append_reply_post(*old(self), *final(self), peer_id, reply),
            final(self).current_term >= old(self).current_term,
    {
        if reply.term > self.current_term {
            self.current_term = reply.term;
            self.state = RaftState::Follower;
            return ;
        }
        if self.state == RaftState::Leader {
            let p = peer_id as usize;
            if reply.success {
                let len = self.log.len() as u64;
                self.match_index.set(p, len);
                self.next_index.set(p, len + 1);
                self.update_commit_index();
            } else if self.next_index[p] > 1 {
                let back = self.next_index[p] - 1;
                self.next_index.set(p, back);
            }
        }
    }
}


// ---------------------------------------------------------------------------
// Laws
// ---------------------------------------------------------------------------

proof fn lemma_agreement_full(log: Seq<LogEntry>, from: int, entries: Seq<LogEntry>)
    requires
        0 <= from,
        forall|j: int|
            0 <= j < entries.len() ==> from + j < log.len() && log[from + j].term
                == (#[trigger] entries[j]).term,
    ensures
        agreement_len(log, from, entries) == entries.len(),
    decreases entries.len(),
{
    if entries.len() > 0 {
        assert(log[from + 0].term == entries[0].term);
        assert forall|j: int|
            0 <= j < entries.drop_first().len() implies (from + 1) + j < log.len() && log[(
            from + 1) + j].term == (#[trigger] entries.drop_first()[j]).term by {
            let jj = j + 1;
            assert(entries.drop_first()[j] == entries[jj]);
            assert(from + jj < log.len() && log[from + jj].term == entries[jj].term);
            assert(from + jj == (from + 1) + j);
        }
        lemma_agreement_full(log, from + 1, entries.drop_first());
    }
}

/// Log matching: after entries are laid over a log from position `from` (a successful
/// replication request), the log keeps everything before `from` and holds, at
/// positions `from..from + entries.len()`, entries of the same terms as `entries`.
pub proof fn law_merged_log_holds_entries(log: Seq<LogEntry>, from: int, entries: Seq<LogEntry>)
    requires
        0 <= from <= log.len(),
    ensures
        merged_log(log, from, entries).len() >= from + entries.len(),
        merged_log(log, from, entries).take(from) == log.take(from),
        forall|j: int|
            0 <= j < entries.len() ==> merged_log(log, from, entries)[from + j].term
                == (#[trigger] entries[j]).term,
{
    lemma_agreement_len(log, from, entries);
    let k = agreement_len(log, from, entries);
    let m = merged_log(log, from, entries);
    if k == entries.len() {
        assert forall|j: int| 0 <= j < entries.len() implies m[from + j].term
            == (#[trigger] entries[j]).term by {
            assert(log[from + j].term == entries[j].term);
        }
    } else {
        assert(m.take(from) =~= log.take(from));
        assert forall|j: int| 0 <= j < entries.len() implies m[from + j].term
            == (#[trigger] entries[j]).term by {
            if j < k {
                assert(log[from + j].term == entries[j].term);
            }
        }
    }
}

/// Replaying a replication request is harmless: laying the same entries over the
/// log a second time changes nothing.
pub proof fn law_merge_idempotent(log: Seq<LogEntry>, from: int, entries: Seq<LogEntry>)
    requires
        0 <= from <= log.len(),
    ensures
        merged_log(merged_log(log, from, entries), from, entries) == merged_log(log, from, entries),
{
    let m = merged_log(log, from, entries);
    law_merged_log_holds_entries(log, from, entries);
    lemma_agreement_full(m, from, entries);
}

/// A leader's commit index never moves back, and it only moves to an entry of the
/// current term, namely to the quorum match index.
pub proof fn law_commit_advances_to_current_term(
    log: Seq<LogEntry>,
    match_index: Seq<u64>,
    leader: u64,
    commit: u64,
    term: u64,
)
    requires
        commit_check_in_bounds(log, match_index, leader, commit),
    ensures
        advanced_commit_index(log, match_index, leader, commit, term) >= commit,
        advanced_commit_index(log, match_index, leader, commit, term) > commit ==> {
            let c = advanced_commit_index(log, match_index, leader, commit, term);
            &&& c == quorum_match_index(match_index, leader, log.len() as u64)
            &&& 0 < c <= log.len()
            &&& log[c - 1].term == term
        },
{
}

/// The elements at least `c`.
pub open spec fn at_least(c: u64) -> spec_fn(u64) -> bool {
    |x: u64| x >= c
}

proof fn lemma_filter_all(s: Seq<u64>, p: spec_fn(u64) -> bool)
    requires
        forall|i: int| 0 <= i < s.len() ==> p(#[trigger] s[i]),
    ensures
        s.filter(p).len() == s.len(),
    decreases s.len(),
{
    if s.len() > 0 {
        lemma_filter_all(s.drop_last(), p);
        assert(s.drop_last().push(s.last()) =~= s);
        s.drop_last().lemma_filter_push(s.last(), p);
    }
}

/// Sequences with the same elements have as many elements satisfying `p`.
proof fn lemma_filter_len_same_multiset(a: Seq<u64>, b: Seq<u64>, p: spec_fn(u64) -> bool)
    requires
        a.to_multiset() == b.to_multiset(),
    ensures
        a.filter(p).len() == b.filter(p).len(),
    decreases a.len(),
{
    broadcast use vstd::seq_lib::group_to_multiset_ensures;
    vstd::seq_lib::to_multiset_len(a);
    vstd::seq_lib::to_multiset_len(b);
    if a.len() == 0 {
        assert(a =~= Seq::<u64>::empty());
        assert(b =~= Seq::<u64>::empty());
    } else {
        let x = a.last();
        let a2 = a.drop_last();
        assert(a2.push(x) =~= a);
        vstd::seq_lib::to_multiset_build(a2, x);
        vstd::seq_lib::to_multiset_contains(a, x);
        assert(b.to_multiset().contains(x));
        vstd::seq_lib::to_multiset_contains(b, x);
        let i = choose|i: int| 0 <= i < b.len() && b[i] == x;
        let b2 = b.remove(i);
        vstd::seq_lib::to_multiset_remove(b, i);
        assert(a2.to_multiset() =~= b2.to_multiset());
        lemma_filter_len_same_multiset(a2, b2, p);
        a2.lemma_filter_push(x, p);
        assert(b =~= b.take(i) + seq![x] + b.skip(i + 1));
        assert(b2 =~= b.take(i) + b.skip(i + 1));
        Seq::filter_distributes_over_add(b.take(i) + seq![x], b.skip(i + 1), p);
        Seq::filter_distributes_over_add(b.take(i), seq![x], p);
        Seq::filter_distributes_over_add(b.take(i), b.skip(i + 1), p);
        Seq::<u64>::empty().lemma_filter_push(x, p);
        assert(seq![x] =~= Seq::<u64>::empty().push(x));
        assert(Seq::<u64>::empty().filter(p) =~= Seq::<u64>::empty()) by {
            Seq::<u64>::empty().lemma_filter_len(p);
        }
    }
}

/// The quorum match index is one of the match indices (with the leader's own log
/// length in its slot), and more than half of them are at least as large: a strict
/// majority of the cluster has replicated the log up to it.
pub proof fn law_quorum_reached_by_strict_majority(match_index: Seq<u64>, leader: u64, own: u64)
    requires
        leader < match_index.len(),
    ensures
        ({
            let m = match_index.update(leader as int, own);
            let q = quorum_match_index(match_index, leader, own);
            &&& m.contains(q)
            &&& m.filter(at_least(q)).len() > m.len() / 2
        }),
{
    broadcast use vstd::seq_lib::group_to_multiset_ensures;
    let m = match_index.update(leader as int, own);
    lemma_ascending_total();
    m.lemma_sort_by_ensures(ascending());
    let sorted = m.sort_by(ascending());
    vstd::seq_lib::to_multiset_len(sorted);
    vstd::seq_lib::to_multiset_len(m);
    let pos = quorum_position(m.len());
    let q = sorted[pos];
    assert(sorted.contains(q));
    let upper = sorted.skip(pos);
    assert forall|j: int| 0 <= j < upper.len() implies (at_least(q))(#[trigger] upper[j]) by {
        if j > 0 {
            assert((ascending())(sorted[pos], sorted[pos + j]));
        }
    }
    lemma_filter_all(upper, at_least(q));
    assert(sorted =~= sorted.take(pos) + upper);
    Seq::filter_distributes_over_add(sorted.take(pos), upper, at_least(q));
    lemma_filter_len_same_multiset(sorted, m, at_least(q));
}

/// A leader's new commit index is held by a strict majority of the cluster: more
/// than half of the match indices (the leader's own log length in its slot) reach it.
pub proof fn law_commit_on_strict_majority(
    log: Seq<LogEntry>,
    match_index: Seq<u64>,
    leader: u64,
    commit: u64,
    term: u64,
)
    requires
        commit_check_in_bounds(log, match_index, leader, commit),
    ensures
        advanced_commit_index(log, match_index, leader, commit, term) > commit ==> {
            let m = match_index.update(leader as int, log.len() as u64);
            m.filter(at_least(advanced_commit_index(log, match_index, leader, commit, term))).len()
                > match_index.len() / 2
        },
{
    law_quorum_reached_by_strict_majority(match_index, leader, log.len() as u64);
}

/// All the commands of `outs`, one round after another.
pub open spec fn all_rounds(outs: Seq<Seq<Command>>) -> Seq<Command>
    decreases outs.len(),
{
    if outs.len() == 0 {
        Seq::empty()
    } else {
        all_rounds(outs.drop_last()) + outs.last()
    }
}

/// Committed commands are applied exactly once and in log order. Take any number of
/// rounds of handing out commands: round `i` turns `before[i]` into `after[i]` and
/// hands out `outs[i]`; between rounds the commit index only grows (never past the
/// log) and the committed part of the log stays as it was. Then all the rounds
/// together hand out exactly the commands of the log from the first round's last
/// applied index up to the last round's commit index, and after the last round
/// everything committed has been applied.
pub proof fn law_commands_applied_once_in_order(
    before: Seq<RaftNode>,
    after: Seq<RaftNode>,
    outs: Seq<Seq<Command>>,
)
    requires
        before.len() > 0,
        after.len() == before.len(),
        outs.len() == before.len(),
        before[0].last_applied <= before[0].commit_index <= before[0].log.len(),
        forall|i: int| 0 <= i < before.len() ==> applied_commands(before[i], after[i], #[trigger] outs[i]),
        forall|i: int|
            0 <= i < before.len() - 1 ==> {
                &&& (#[trigger] before[i + 1]).last_applied == after[i].last_applied
                &&& after[i].commit_index <= before[i + 1].commit_index <= before[i + 1].log.len()
                &&& before[i + 1].log@.take(after[i].commit_index as int) == after[i].log@.take(
                    after[i].commit_index as int,
                )
            },
    ensures
        ({
            let last = before[before.len() - 1];
            all_rounds(outs) == last.log@.subrange(
                before[0].last_applied as int,
                last.commit_index as int,
            ).map_values(|e: LogEntry| e.command)
        }),
        after[before.len() - 1].last_applied == before[before.len() - 1].commit_index,
        before[0].last_applied <= before[before.len() - 1].commit_index <= before[before.len() - 1].log.len(),
    decreases before.len(),
{
    let f = |e: LogEntry| e.command;
    let n = before.len() - 1;
    let a0 = before[0].last_applied as int;
    assert(applied_commands(before[n], after[n], outs[n]));
    if n == 0 {
        assert(before[0].log@.subrange(a0, a0).map_values(f) =~= Seq::<Command>::empty());
        assert(all_rounds(outs) =~= all_rounds(outs.drop_last()) + outs[0]);
        assert(all_rounds(outs.drop_last()) =~= Seq::<Command>::empty());
    } else {
        let b = before.drop_last();
        let a = after.drop_last();
        let o = outs.drop_last();
        assert forall|i: int| 0 <= i < b.len() implies applied_commands(b[i], a[i], #[trigger] o[i]) by {
            assert(applied_commands(before[i], after[i], outs[i]));
        }
        assert forall|i: int| 0 <= i < b.len() - 1 implies {
            &&& (#[trigger] b[i + 1]).last_applied == a[i].last_applied
            &&& a[i].commit_index <= b[i + 1].commit_index <= b[i + 1].log.len()
            &&& b[i + 1].log@.take(a[i].commit_index as int) == a[i].log@.take(a[i].commit_index as int)
        } by {
            assert(before[i + 1] == b[i + 1]);
        }
        law_commands_applied_once_in_order(b, a, o);
        let m = before[n - 1];
        let last = before[n];
        assert(applied_commands(m, after[n - 1], outs[n - 1]));
        assert(before[(n - 1) + 1] == last);
        let cm = m.commit_index as int;
        let cl = last.commit_index as int;
        assert(after[n - 1].commit_index == m.commit_index);
        assert(after[n - 1].log == m.log);
        assert(last.log@.take(cm) == m.log@.take(cm));
        assert(a0 <= cm <= m.log.len());
        assert(cm <= cl <= last.log.len());
        assert(m.log@.subrange(a0, cm) =~= last.log@.subrange(a0, cm)) by {
            assert(m.log@.subrange(a0, cm) =~= m.log@.take(cm).subrange(a0, cm));
            assert(last.log@.subrange(a0, cm) =~= last.log@.take(cm).subrange(a0, cm));
        }
        assert(last.log@.subrange(a0, cl) =~= last.log@.subrange(a0, cm) + last.log@.subrange(cm, cl));
        assert((last.log@.subrange(a0, cm) + last.log@.subrange(cm, cl)).map_values(f)
            =~= last.log@.subrange(a0, cm).map_values(f) + last.log@.subrange(cm, cl).map_values(f));
        assert(last.log@.subrange(cm, cm).map_values(f) =~= Seq::<Command>::empty());
        assert(o =~= outs.drop_last());
        if last.last_applied < last.commit_index {
        } else {
            assert(outs.last() == outs[n]);
            assert(all_rounds(outs) =~= all_rounds(o));
        }
    }
}

/// One request built by a leader brings up to date a follower whose log is a prefix
/// of the leader's and reaches at least the entry before the peer's next index, and
/// whose term is not newer: the request succeeds and the follower's log and term
/// become the leader's.
pub proof fn law_leader_request_brings_follower_up(
    leader: RaftNode,
    peer: u64,
    args: AppendEntriesArgs,
    follower: RaftNode,
    follower_after: RaftNode,
    reply: AppendEntriesReply,
    now: Instant,
)
    requires
        can_replicate_to(leader, peer),
        is_append_request_for(leader, peer, args),
        follower.current_term <= leader.current_term,
        follower.log.len() <= leader.log.len(),
        follower.log@ == leader.log@.take(follower.log.len() as int),
        follower.log.len() >= leader.next_index@[peer as int] - 1,
        append_entries_post(follower, follower_after, args, reply, now),
    ensures
        reply.success,
        follower_after.log@ == leader.log@,
        follower_after.current_term == leader.current_term,
{
    let f = follower.log@;
    let l = leader.log@;
    let from = args.prev_log_index as int;
    let entries = args.entries@;
    if args.prev_log_index > 0 {
        assert(f[from - 1] == l[from - 1]);
    }
    assert(prev_entry_matches(f, args.prev_log_index, args.prev_log_term));
    lemma_agreement_len(f, from, entries);
    let k = agreement_len(f, from, entries) as int;
    assert(forall|j: int| 0 <= j < entries.len() ==> #[trigger] entries[j] == l[from + j]);
    if k == entries.len() {
        assert(f =~= l);
    } else {
        if from + k < f.len() {
            assert(f[from + k] == l[from + k]);
            assert(entries[k] == l[from + k]);
        }
        assert(from + k == f.len());
        assert(f.take(from + k) + entries.skip(k) =~= l);
    }
}

/// A replayed replication request changes nothing: when a request succeeded, handling
/// the same request again succeeds with the same answer and leaves log, commit index,
/// term, role and every other field as they were, but for the election timer.
pub proof fn law_replayed_request_changes_nothing(
    n0: RaftNode,
    n1: RaftNode,
    n2: RaftNode,
    args: AppendEntriesArgs,
    r1: AppendEntriesReply,
    r2: AppendEntriesReply,
    now1: Instant,
    now2: Instant,
)
    requires
        append_entries_post(n0, n1, args, r1, now1),
        r1.success,
        append_entries_post(n1, n2, args, r2, now2),
    ensures
        r2 == r1,
        n2.log@ == n1.log@,
        n2.commit_index == n1.commit_index,
        n2.current_term == n1.current_term,
        n2.state == n1.state,
        n2.id == n1.id,
        n2.voted_for == n1.voted_for,
        n2.last_applied == n1.last_applied,
        n2.next_index == n1.next_index,
        n2.match_index == n1.match_index,
        n2.election_timeout_ms == n1.election_timeout_ms,
        n2.last_heartbeat == now2,
{
    let from = args.prev_log_index as int;
    law_merged_log_holds_entries(n0.log@, from, args.entries@);
    law_merge_idempotent(n0.log@, from, args.entries@);
    if args.prev_log_index > 0 {
        assert(n1.log@.take(from)[from - 1] == n0.log@.take(from)[from - 1]);
    }
    assert(prev_entry_matches(n1.log@, args.prev_log_index, args.prev_log_term));
}

// ---------------------------------------------------------------------------
// Checks that a handler can run
// ---------------------------------------------------------------------------

impl RaftNode {
    /// Whether `tick` can run (`tick_ready`).
    pub fn tick_is_ready(&self, peer_count: usize) -> (ok: bool)
        ensures
            ok == tick_ready(*self, peer_count as nat),
    {
        if self.state != RaftState::Leader {
            return self.current_term < u64::MAX;
        }
        let count = peer_count as u64;
        let mut p: u64 = 0;
        while p < count
            invariant
                count == peer_count,
                p <= count,
                self.state == RaftState::Leader,
                forall|q: u64| q < p && q != self.id ==> #[trigger] can_replicate_to(*self, q),
            decreases count - p,
        {
            if p != self.id {
                if p as usize >= self.next_index.len() {
                    assert(!can_replicate_to(*self, p));
                    return false;
                }
                let next = self.next_index[p as usize];
                if next < 1 || next - 1 > self.log.len() as u64 {
                    assert(!can_replicate_to(*self, p));
                    return false;
                }
            }
            p = p + 1;
        }
        true
    }

    /// Whether `handle_vote_reply` can run (`vote_reply_ready`).
    pub fn vote_reply_is_ready(&self, reply: RequestVoteReply, peer_count: usize, votes: usize) -> (ok: bool)
        ensures
            ok == vote_reply_ready(*self, reply, peer_count, votes),
    {
        if reply.term <= self.current_term && self.state == RaftState::Candidate && reply.vote_granted {
            if votes == usize::MAX {
                return false;
            }
            if votes + 1 > peer_count / 2 {
                return self.match_index.len() >= self.next_index.len() && (self.log.len() as u64)
                    < u64::MAX;
            }
        }
        true
    }

    /// Whether `handle_append_entries_reply` can run (`append_reply_ready`).
    pub fn append_reply_is_ready(&self, peer_id: u64, reply: AppendEntriesReply) -> (ok: bool)
        ensures
            ok == append_reply_ready(*self, peer_id, reply),
    {
        if !(reply.term <= self.current_term && self.state == RaftState::Leader) {
            return true;
        }
        if peer_id >= self.next_index.len() as u64 {
            return false;
        }
        if !reply.success {
            return true;
        }
        if peer_id >= self.match_index.len() as u64 || self.log.len() as u64 == u64::MAX
            || self.id >= self.match_index.len() as u64 {
            return false;
        }
        let len = self.log.len() as u64;
        let mut updated = copy_u64s(&self.match_index);
        updated.set(peer_id as usize, len);
        let q = quorum_value(&updated, self.id, len);
        !(q > self.commit_index && q > 0) || q <= len
    }

    /// Whether `get_unapplied_commands` can run (`apply_ready`).
    pub fn apply_is_ready(&self) -> (ok: bool)
        ensures
            ok == apply_ready(*self),
    {
        !(self.last_applied < self.commit_index) || self.commit_index <= self.log.len() as u64
    }
}

/// Whether a successful replication request keeps the node's log as a prefix of the
/// new one is told by `merge_cuts` before the request is handled.
pub proof fn law_append_keeps_prefix_unless_cut(
    old: RaftNode,
    new: RaftNode,
    args: AppendEntriesArgs,
    reply: AppendEntriesReply,
    now: Instant,
)
    requires
        append_entries_post(old, new, args, reply, now),
        reply.success,
    ensures
        !merge_cuts(old.log@, args.prev_log_index as int, args.entries@) <==> (new.log.len()
            >= old.log.len() && new.log@.take(old.log.len() as int) == old.log@),
{
    lemma_merge_keeps_prefix(old.log@, args.prev_log_index as int, args.entries@);
}


/// A vote goes only to a candidate whose log is at least as up to date as the
/// voter's: its last log term is newer, or the same with a log at least as long.
/// It also goes only to a candidate of a term not older than the voter's, and within
/// the voter's term only to the candidate it already chose, if any.
pub proof fn law_vote_needs_up_to_date_log(
    old: RaftNode,
    new: RaftNode,
    args: RequestVoteArgs,
    reply: RequestVoteReply,
    now: Instant,
)
    requires
        request_vote_post(old, new, args, reply, now),
        reply.vote_granted,
    ensures
        args.term >= old.current_term,
        old.log.len() > 0 ==> args.last_log_term > old.log@[old.log.len() - 1].term || (
        args.last_log_term == old.log@[old.log.len() - 1].term && args.last_log_index
            >= old.log.len()),
        args.term == old.current_term ==> old.voted_for is None || old.voted_for == Some(
            args.candidate_id,
        ),
        new.voted_for == Some(args.candidate_id),
        new.current_term == args.term,
{
}

/// A candidate of a newer term, or of the voter's term when the voter has not voted
/// for another, whose log is at least as up to date as the voter's, gets the vote.
pub proof fn law_up_to_date_candidate_gets_vote(
    old: RaftNode,
    new: RaftNode,
    args: RequestVoteArgs,
    reply: RequestVoteReply,
    now: Instant,
)
    requires
        request_vote_post(old, new, args, reply, now),
        args.term > old.current_term || (args.term == old.current_term && (old.voted_for is None
            || old.voted_for == Some(args.candidate_id))),
        old.log.len() == 0 || args.last_log_term > old.log@[old.log.len() - 1].term || (
        args.last_log_term == old.log@[old.log.len() - 1].term && args.last_log_index
            >= old.log.len()),
    ensures
        reply.vote_granted,
        reply.term == args.term,
        new.voted_for == Some(args.candidate_id),
{
}

/// A replication request succeeds only when its term is not older than the node's
/// and the node's log holds the leader's previous entry: index 0, or an entry at
/// `prev_log_index` of term `prev_log_term`. A refused request leaves the log as it
/// was; a request that passes both checks is accepted.
pub proof fn law_append_checks_previous_entry(
    old: RaftNode,
    new: RaftNode,
    args: AppendEntriesArgs,
    reply: AppendEntriesReply,
    now: Instant,
)
    requires
        append_entries_post(old, new, args, reply, now),
    ensures
        reply.success ==> args.term >= old.current_term && (args.prev_log_index == 0 || (
        args.prev_log_index <= old.log.len() && old.log@[args.prev_log_index - 1].term
            == args.prev_log_term)),
        !reply.success ==> new.log@ == old.log@,
        args.term >= old.current_term && (args.prev_log_index == 0 || (args.prev_log_index
            <= old.log.len() && old.log@[args.prev_log_index - 1].term == args.prev_log_term))
            ==> reply.success,
{
}

/// A follower or candidate whose election timeout ran out starts an election on the
/// tick: it becomes a candidate of the next term, votes for itself, restarts its
/// timer at `now` with the drawn timeout, and asks for votes in the new term with
/// its own log position.
pub proof fn law_timed_out_node_starts_election(
    old: RaftNode,
    new: RaftNode,
    peer_count: nat,
    elapsed_ms: u128,
    now: Instant,
    timeout_ms: u64,
    out: (Option<RequestVoteArgs>, Vec<(u64, AppendEntriesArgs)>),
)
    requires
        tick_outcome(old, new, peer_count, elapsed_ms, now, timeout_ms, out),
        old.state != RaftState::Leader,
        elapsed_ms >= old.election_timeout_ms,
        old.current_term < u64::MAX,
    ensures
        new.state == RaftState::Candidate,
        new.current_term == old.current_term + 1,
        new.voted_for == Some(old.id),
        new.log == old.log,
        new.last_heartbeat == now,
        new.election_timeout_ms == timeout_ms,
        out.0 matches Some(r) && r.term == new.current_term && r.candidate_id == old.id
            && r.last_log_index == old.log.len(),
        out.1@.len() == 0,
{
}

/// The match index that more than half of the cluster has reached is at most the
/// quorum match index: whenever more than half of the match indices (the leader's own
/// log length in its slot) are at least `n`, so is the quorum match index.
pub proof fn law_majority_held_index_within_quorum(match_index: Seq<u64>, leader: u64, own: u64, n: u64)
    requires
        leader < match_index.len(),
        match_index.update(leader as int, own).filter(at_least(n)).len() > match_index.len() / 2,
    ensures
        quorum_match_index(match_index, leader, own) >= n,
{
    broadcast use vstd::seq_lib::group_to_multiset_ensures;
    let m = match_index.update(leader as int, own);
    lemma_ascending_total();
    m.lemma_sort_by_ensures(ascending());
    let sorted = m.sort_by(ascending());
    vstd::seq_lib::to_multiset_len(sorted);
    vstd::seq_lib::to_multiset_len(m);
    let pos = quorum_position(m.len());
    if sorted[pos] < n {
        let low = sorted.take(pos + 1);
        let high = sorted.skip(pos + 1);
        assert forall|j: int| 0 <= j < low.len() implies !(at_least(n))(#[trigger] low[j]) by {
            if j < pos {
                assert((ascending())(sorted[j], sorted[pos]));
            }
        }
        assert(low.all(|x: u64| !(at_least(n))(x)));
        low.lemma_all_neg_filter_empty(at_least(n));
        assert(sorted =~= low + high);
        Seq::filter_distributes_over_add(low, high, at_least(n));
        high.lemma_filter_len(at_least(n));
        lemma_filter_len_same_multiset(sorted, m, at_least(n));
        assert(false);
    }
}

/// A leader commits every entry of its current term that a strict majority holds:
/// when more than half of the match indices (the leader's own log length in its slot)
/// reach `n`, `n` is past the commit index and names an entry of the current term, the
/// new commit index is at least `n`. This rests on the leader's log being ordered by
/// term and holding no entry of a later term than the current one, as every Raft log
/// of a leader is.
pub proof fn law_commit_reaches_majority_held_entry(
    log: Seq<LogEntry>,
    match_index: Seq<u64>,
    leader: u64,
    commit: u64,
    term: u64,
    n: u64,
)
    requires
        commit_check_in_bounds(log, match_index, leader, commit),
        forall|i: int, j: int| 0 <= i <= j < log.len() ==> #[trigger] log[i].term <= #[trigger] log[j].term,
        forall|j: int| 0 <= j < log.len() ==> #[trigger] log[j].term <= term,
        commit < n <= log.len(),
        log[n - 1].term == term,
        match_index.update(leader as int, log.len() as u64).filter(at_least(n)).len()
            > match_index.len() / 2,
    ensures
        advanced_commit_index(log, match_index, leader, commit, term) >= n,
{
    law_majority_held_index_within_quorum(match_index, leader, log.len() as u64, n);
    let q = quorum_match_index(match_index, leader, log.len() as u64);
    assert(log[n - 1].term <= log[q - 1].term);
}

} // verus!
