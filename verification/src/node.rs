//! The decisions of a running node. The driver (timers, sockets, files) hands each
//! event to `Node::handle_event`, performs the actions it returns in order, then
//! calls `Node::finish_step` and performs those actions too.
use crate::kv_store::dashmap_contents;
use crate::kv_store::KvStore;
use crate::network::Message;
use crate::persistence::RaftMetadata;
use crate::raft::append_entries_post;
use crate::raft::append_reply_post;
use crate::raft::append_reply_ready;
use crate::raft::applied_commands;
use crate::raft::apply_ready;
use crate::raft::other_peers;
use crate::raft::request_vote_post;
use crate::raft::tick_outcome;
use crate::raft::tick_ready;
use crate::raft::vote_reply_post;
use crate::raft::vote_reply_ready;
use crate::raft::AppendEntriesArgs;
use crate::raft::RequestVoteArgs;
use crate::raft::Command;
use crate::raft::LogEntry;
use crate::raft::RaftNode;
use crate::raft::RaftState;
use crate::raft::ELECTION_TIMEOUT_MAX_MS;
use crate::raft::ELECTION_TIMEOUT_MIN_MS;
use dashmap::DashMap;
use std::time::Instant;
use std::collections::hash_map::RandomState;
use vstd::prelude::*;
use vstd::string::*;

verus! {

/// Which kind of write a waiting client asked for.
#[derive(Clone, Copy, Debug, PartialEq, Eq, Hash, Structural)]
pub enum PendingKind {
    SetKey,
    Delete,
    Flush,
}

/// Something that happened to the node.
#[derive(Debug)]
pub enum Event {
    /// The 10 ms timer fired.
    Tick,
    /// The snapshot timer fired.
    SnapshotTick,
    /// A message arrived from a peer.
    Peer(Message),
    /// A client sent a command.
    Client(Command),
    /// A client asked for the value of a key.
    Query(String),
}

/// Something the driver must do.
pub enum Action {
    /// Send `msg` to peer `to`.
    Send { to: u64, msg: Message },
    /// Append the entry to the log file.
    PersistEntry(LogEntry),
    /// Write this copy of the store to the snapshot file.
    SaveSnapshot(DashMap<String, String, RandomState>),
    /// Write the metadata file.
    SaveMetadata(RaftMetadata),
    /// Answer the client whose command is being handled.
    Respond(String),
    /// Keep the client whose command is being handled waiting for the entry of this
    /// kind at this log index to be applied (replacing a client already waiting there).
    AwaitApply(PendingKind, u64),
    /// Answer the client waiting for the entry of this kind at this index, if any.
    ResolvePending(PendingKind, u64, String),
    /// Tell an observer that a command was applied to the store.
    NotifyApplied(Command),
}

/// An `Action` with its texts and the snapshot seen as their contents.
pub enum ActionView {
    Send { to: u64, msg: Message },
    PersistEntry(LogEntry),
    SaveSnapshot(Map<Seq<char>, Seq<char>>),
    SaveMetadata(RaftMetadata),
    Respond(Seq<char>),
    AwaitApply(PendingKind, u64),
    ResolvePending(PendingKind, u64, Seq<char>),
    NotifyApplied(Command),
}

impl View for Action {
    type V = ActionView;

    open spec fn view(&self) -> ActionView {
        match *self {
            Action::Send { to, msg } => ActionView::Send { to, msg },
            Action::PersistEntry(e) => ActionView::PersistEntry(e),
            Action::SaveSnapshot(m) => ActionView::SaveSnapshot(dashmap_contents(m)),
            Action::SaveMetadata(meta) => ActionView::SaveMetadata(meta),
            Action::Respond(text) => ActionView::Respond(text@),
            Action::AwaitApply(kind, index) => ActionView::AwaitApply(kind, index),
            Action::ResolvePending(kind, index, text) => ActionView::ResolvePending(
                kind,
                index,
                text@,
            ),
            Action::NotifyApplied(c) => ActionView::NotifyApplied(c),
        }
    }
}

/// The views of a list of actions.
pub open spec fn action_views(actions: Seq<Action>) -> Seq<ActionView> {
    actions.map_values(|a: Action| a@)
}

/// A running node: its Raft state, its store, the votes of its current election and
/// the metadata it last saved.
pub struct Node {
    pub node_id: u64,
    pub peer_count: usize,
    pub raft: RaftNode,
    pub kv: KvStore,
    pub votes: usize,
    pub last_meta: RaftMetadata,
}

// ---------------------------------------------------------------------------
// The store as a function of the commands applied to it
// ---------------------------------------------------------------------------

/// The store's contents after applying `c` to `m`.
pub open spec fn apply_command(m: Map<Seq<char>, Seq<char>>, c: Command) -> Map<Seq<char>, Seq<char>> {
    match c {
        Command::SetKey(k, v) => m.insert(k@, v@),
        Command::Delete(k) => m.remove(k@),
        Command::Keys => m,
        Command::Flush => Map::empty(),
    }
}

/// The store's contents after applying `cs` to `m`, in order.
pub open spec fn apply_commands(m: Map<Seq<char>, Seq<char>>, cs: Seq<Command>) -> Map<Seq<char>, Seq<char>>
    decreases cs.len(),
{
    if cs.len() == 0 {
        m
    } else {
        apply_command(apply_commands(m, cs.drop_last()), cs.last())
    }
}

/// The commands of the entries of `log`.
pub open spec fn log_commands(log: Seq<LogEntry>) -> Seq<Command> {
    log.map_values(|e: LogEntry| e.command)
}

/// The metadata of `raft`'s current term and vote.
pub open spec fn metadata_of(raft: RaftNode) -> RaftMetadata {
    RaftMetadata { current_term: raft.current_term, voted_for: raft.voted_for }
}

/// `"OK"`
pub open spec fn ok_text() -> Seq<char> {
    seq!['O', 'K']
}

/// `"1"`
pub open spec fn one_text() -> Seq<char> {
    seq!['1']
}

/// `"nil"`
pub open spec fn nil_text() -> Seq<char> {
    seq!['n', 'i', 'l']
}

/// `"ERR not leader"`
pub open spec fn not_leader_text() -> Seq<char> {
    seq!['E', 'R', 'R', ' ', 'n', 'o', 't', ' ', 'l', 'e', 'a', 'd', 'e', 'r']
}

/// `"(empty list or set)"`
pub open spec fn empty_keys_text() -> Seq<char> {
    seq!['(', 'e', 'm', 'p', 't', 'y', ' ', 'l', 'i', 's', 't', ' ', 'o', 'r', ' ', 's', 'e', 't', ')']
}

/// The lines joined with `\n` between them.
pub open spec fn joined_lines(lines: Seq<Seq<char>>) -> Seq<char>
    decreases lines.len(),
{
    if lines.len() == 0 {
        Seq::empty()
    } else if lines.len() == 1 {
        lines[0]
    } else {
        joined_lines(lines.drop_last()) + seq!['\n'] + lines.last()
    }
}

/// The actions that applying the batch of commands `cs` produces when the last
/// applied index has moved to `index`: for each write, a notice that it was applied
/// and the answer to a client waiting for a write of that kind at `index`; nothing
/// for `Keys`. Every write of the batch is answered at the batch's last index, so a
/// client waiting at an earlier index of the same batch gets no answer here.
pub open spec fn apply_actions(cs: Seq<Command>, index: u64) -> Seq<ActionView>
    decreases cs.len(),
{
    if cs.len() == 0 {
        Seq::empty()
    } else {
        apply_actions(cs.drop_last(), index) + match cs.last() {
            Command::SetKey(k, v) => seq![
                ActionView::NotifyApplied(cs.last()),
                ActionView::ResolvePending(PendingKind::SetKey, index, ok_text()),
            ],
            Command::Delete(k) => seq![
                ActionView::NotifyApplied(cs.last()),
                ActionView::ResolvePending(PendingKind::Delete, index, one_text()),
            ],
            Command::Keys => Seq::empty(),
            Command::Flush => seq![
                ActionView::NotifyApplied(cs.last()),
                ActionView::ResolvePending(PendingKind::Flush, index, ok_text()),
            ],
        }
    }
}

/// Applies `c` to the store.
fn apply_to_store(kv: &mut KvStore, c: &Command)
    ensures
        final(kv)@ == apply_command(old(kv)@, *c),
{
    match c {
        Command::SetKey(k, v) => kv.set(k.clone(), v.clone()),
        Command::Delete(k) => kv.delete(k.as_str()),
        Command::Keys => {},
        Command::Flush => kv.clear(),
    }
}

/// The text for a `KEYS` request: the keys one per line, or `(empty list or set)`.
fn keys_reply(keys: &Vec<String>) -> (text: String)
    ensures
        keys@.len() == 0 ==> text@ == empty_keys_text(),
        keys@.len() > 0 ==> text@ == joined_lines(keys@.map_values(|k: String| k@)),
{
    proof {
        reveal_strlit("(empty list or set)");
        reveal_strlit("\n");
    }
    if keys.len() == 0 {
        let text = String::from_str("(empty list or set)");
        assert(text@ =~= empty_keys_text());
        return text;
    }
    let mut text = keys[0].clone();
    let mut i: usize = 1;
    assert(keys@.subrange(0, 1).map_values(|k: String| k@) =~= seq![keys@[0]@]);
    while i < keys.len()
        invariant
            1 <= i <= keys.len(),
            text@ == joined_lines(keys@.subrange(0, i as int).map_values(|k: String| k@)),
        decreases keys.len() - i,
    {
        let ghost before = text@;
        text.append("\n");
        text.append(keys[i].as_str());
        let ghost lines = keys@.subrange(0, i + 1).map_values(|k: String| k@);
        assert(lines.drop_last() =~= keys@.subrange(0, i as int).map_values(|k: String| k@));
        assert(lines.len() >= 2);
        assert(lines.last() == keys@[i as int]@);
        proof {
            reveal_strlit("\n");
        }
        assert("\n"@ =~= seq!['\n']);
        assert(text@ =~= joined_lines(lines.drop_last()) + seq!['\n'] + lines.last());
        i = i + 1;
    }
    assert(keys@.subrange(0, keys.len() as int) =~= keys@);
    text
}

impl Node {
    /// A node recovered from its files: the store starts from the snapshot (or empty),
    /// the term and vote from the metadata (or term 0 and no vote), the log from the
    /// log file, and every command of the log is replayed onto the store.
    pub fn recover(
        node_id: u64,
        peer_count: usize,
        snapshot: Option<DashMap<String, String, RandomState>>,
        metadata: Option<RaftMetadata>,
        log: Vec<LogEntry>,
    ) -> (node: Self)
        ensures
            node.node_id == node_id,
            node.peer_count == peer_count,
            node.kv@ == apply_commands(
                match snapshot {
                    Some(s) => dashmap_contents(s),
                    None => Map::empty(),
                },
                log_commands(log@),
            ),
            node.raft.id == node_id,
            node.raft.log == log,
            node.raft.current_term == match metadata {
                Some(m) => m.current_term,
                None => 0,
            },
            node.raft.voted_for == match metadata {
                Some(m) => m.voted_for,
                None => None,
            },
            node.raft.state == RaftState::Follower,
            node.raft.commit_index == 0,
            node.raft.last_applied == 0,
            node.raft.next_index@ == Seq::new(peer_count as nat, |i: int| 1u64),
            node.raft.match_index@ == Seq::new(peer_count as nat, |i: int| 0u64),
            ELECTION_TIMEOUT_MIN_MS <= node.raft.election_timeout_ms < ELECTION_TIMEOUT_MAX_MS,
            node.votes == 0,
            node.last_meta == metadata_of(node.raft),
    {
        let mut raft = RaftNode::new(node_id, peer_count);
        let mut kv = KvStore::new();
        match snapshot {
            Some(s) => kv.restore_state(s),
            None => {},
        }
        let meta = match metadata {
            Some(m) => m,
            None => RaftMetadata { current_term: 0, voted_for: None },
        };
        raft.restore(meta.current_term, meta.voted_for, log);
        let ghost start = kv@;
        let mut i: usize = 0;
        while i < raft.log.len()
            invariant
                i <= raft.log.len(),
                kv@ == apply_commands(start, log_commands(raft.log@.subrange(0, i as int))),
            decreases raft.log.len() - i,
        {
            apply_to_store(&mut kv, &raft.log[i].command);
            assert(log_commands(raft.log@.subrange(0, i + 1)).drop_last() =~= log_commands(
                raft.log@.subrange(0, i as int),
            ));
            i = i + 1;
        }
        assert(raft.log@.subrange(0, raft.log.len() as int) =~= raft.log@);
        let last_meta = RaftMetadata { current_term: raft.current_term, voted_for: raft.voted_for };
        Node { node_id, peer_count, raft, kv, votes: 0, last_meta }
    }

    /// The second half of every step: saves the metadata when the term or the vote
    /// changed since it was last saved, then applies the newly committed commands to
    /// the store (see `apply_actions`).
    pub fn finish_step(&mut self) -> (actions: Vec<Action>)
        requires
            apply_ready(old(self).raft),
        ensures
            ({
                let meta_changed = metadata_of(old(self).raft) != old(self).last_meta;
                let saved = if meta_changed {
                    seq![ActionView::SaveMetadata(metadata_of(old(self).raft))]
                } else {
                    Seq::empty()
                };
                exists|commands: Seq<Command>|
                    {
                        &&& applied_commands(old(self).raft, final(self).raft, commands)
                        &&& final(self).kv@ == apply_commands(old(self).kv@, commands)
                        &&& action_views(actions@) == saved + apply_actions(
                            commands,
                            final(self).raft.last_applied,
                        )
                    }
            }),
            final(self).last_meta == metadata_of(old(self).raft),
            final(self).node_id == old(self).node_id,
            final(self).peer_count == old(self).peer_count,
            final(self).votes == old(self).votes,
    {
        proof {
            reveal_strlit("OK");
            reveal_strlit("1");
        }
        let mut actions: Vec<Action> = Vec::new();
        let meta_changed = match (self.raft.voted_for, self.last_meta.voted_for) {
            (Some(a), Some(b)) => a != b,
            (None, None) => false,
            _ => true,
        } || self.raft.current_term != self.last_meta.current_term;
        if meta_changed {
            self.last_meta = RaftMetadata {
                current_term: self.raft.current_term,
                voted_for: self.raft.voted_for,
            };
            actions.push(Action::SaveMetadata(self.last_meta));
        }
        let ghost saved = action_views(actions@);
        let ghost kv_before = self.kv@;
        let mut commands = self.raft.get_unapplied_commands();
        let applied_index = self.raft.last_applied;
        let ghost all = commands@;
        let ghost raft_after = self.raft;
        let ghost meta_after = self.last_meta;
        let ok_word = String::from_str("OK");
        let one_word = String::from_str("1");
        assert(ok_word@ =~= ok_text());
        assert(one_word@ =~= one_text());
        let mut i: usize = 0;
        let n = commands.len();
        while i < n
            invariant
                n == all.len(),
                i <= n,
                commands@ == all.subrange(i as int, n as int),
                self.kv@ == apply_commands(kv_before, all.subrange(0, i as int)),
                action_views(actions@) == saved + apply_actions(all.subrange(0, i as int), applied_index),
                applied_index == raft_after.last_applied,
                self.raft == raft_after,
                self.last_meta == meta_after,
                self.node_id == old(self).node_id,
                self.peer_count == old(self).peer_count,
                self.votes == old(self).votes,
                ok_word@ == ok_text(),
                one_word@ == one_text(),
            decreases n - i,
        {
            let command = commands.remove(0);
            let ghost prefix = all.subrange(0, i + 1);
            assert(prefix.drop_last() =~= all.subrange(0, i as int));
            assert(prefix.last() == command);
            apply_to_store(&mut self.kv, &command);
            let ghost before = actions@;
            match command {
                Command::SetKey(k, v) => {
                    actions.push(Action::NotifyApplied(Command::SetKey(k, v)));
                    actions.push(
                        Action::ResolvePending(PendingKind::SetKey, applied_index, ok_word.clone()),
                    );
                },
                Command::Delete(k) => {
                    actions.push(Action::NotifyApplied(Command::Delete(k)));
                    actions.push(
                        Action::ResolvePending(PendingKind::Delete, applied_index, one_word.clone()),
                    );
                },
                Command::Keys => {},
                Command::Flush => {
                    actions.push(Action::NotifyApplied(Command::Flush));
                    actions.push(
                        Action::ResolvePending(PendingKind::Flush, applied_index, ok_word.clone()),
                    );
                },
            }
            assert(action_views(actions@) =~= action_views(before) + action_views(actions@).subrange(
                before.len() as int,
                actions@.len() as int,
            ));
            assert(action_views(actions@) =~= saved + apply_actions(prefix, applied_index));
            i = i + 1;
            assert(commands@ =~= all.subrange(i as int, n as int));
        }
        assert(all.subrange(0, n as int) =~= all);
        actions
    }
}

// ---------------------------------------------------------------------------
// Handling events
// ---------------------------------------------------------------------------

/// Sends of the leader's replication requests `hb`, in order.
pub open spec fn heartbeat_sends(node_id: u64, hb: Seq<(u64, AppendEntriesArgs)>) -> Seq<ActionView> {
    hb.map_values(
        |x: (u64, AppendEntriesArgs)|
            ActionView::Send { to: x.0, msg: Message::AppendEntries { args: x.1, from_id: node_id } },
    )
}

/// Sends of the vote request `req` to every other peer, in increasing order.
pub open spec fn vote_request_sends(node_id: u64, peer_count: nat, req: RequestVoteArgs) -> Seq<ActionView> {
    other_peers(node_id, peer_count).map_values(
        |p: u64| ActionView::Send { to: p, msg: Message::RequestVote { args: req, from_id: node_id } },
    )
}

/// The log-file appends after the log went from `old_log` to `new_log`: the entries
/// of `new_log` past the old length, in order, when the log grew; nothing otherwise.
/// (Entries that a cut replaced within the old length are not written to the file.)
pub open spec fn log_writes(old_log: Seq<LogEntry>, new_log: Seq<LogEntry>) -> Seq<ActionView> {
    if new_log.len() > old_log.len() {
        new_log.skip(old_log.len() as int).map_values(|e: LogEntry| ActionView::PersistEntry(e))
    } else {
        Seq::empty()
    }
}

/// `keys` lists the keys of `m`, each once.
pub open spec fn lists_keys(keys: Seq<Seq<char>>, m: Map<Seq<char>, Seq<char>>) -> bool {
    &&& forall|i: int| 0 <= i < keys.len() ==> m.contains_key(#[trigger] keys[i])
    &&& forall|k: Seq<char>| #[trigger] m.contains_key(k) ==> keys.contains(k)
    &&& keys.no_duplicates()
}

/// Which waiting-client kind a write command answers to.
pub open spec fn pending_kind_of(c: Command) -> PendingKind {
    match c {
        Command::Delete(_) => PendingKind::Delete,
        Command::Flush => PendingKind::Flush,
        _ => PendingKind::SetKey,
    }
}

/// `new` differs from `old` at most in its Raft state and its vote count.
pub open spec fn same_store_and_identity(old: Node, new: Node) -> bool {
    &&& new.node_id == old.node_id
    &&& new.peer_count == old.peer_count
    &&& new.kv == old.kv
    &&& new.last_meta == old.last_meta
}

/// A timer tick: the Raft tick at some clock reading (see `tick_outcome`), then, when an election started,
/// the node counts its own vote and either wins at once (in a cluster of at most one
/// node) or asks every other peer for a vote; the leader's replication requests go out.
pub open spec fn tick_step(old: Node, new: Node, actions: Seq<ActionView>) -> bool {
    exists|
        elapsed_ms: u128,
        now: Instant,
        timeout_ms: u64,
        mid: RaftNode,
        out: (Option<RequestVoteArgs>, Vec<(u64, AppendEntriesArgs)>),
    |
        {
            &&& tick_outcome(old.raft, mid, old.peer_count as nat, elapsed_ms, now, timeout_ms, out)
            &&& old.raft.state != RaftState::Leader && elapsed_ms >= old.raft.election_timeout_ms
                ==> ELECTION_TIMEOUT_MIN_MS <= timeout_ms < ELECTION_TIMEOUT_MAX_MS
            &&& match out.0 {
                Some(req) => {
                    &&& new.votes == 1
                    &&& if 1 > old.peer_count / 2 {
                        &&& new.raft == (RaftNode { state: RaftState::Leader, ..mid })
                        &&& actions == heartbeat_sends(old.node_id, out.1@)
                    } else {
                        &&& new.raft == mid
                        &&& actions == vote_request_sends(old.node_id, old.peer_count as nat, req)
                            + heartbeat_sends(old.node_id, out.1@)
                    }
                },
                None => {
                    &&& new.votes == old.votes
                    &&& new.raft == mid
                    &&& actions == heartbeat_sends(old.node_id, out.1@)
                },
            }
        }
}

/// A client's command. `KEYS` is answered with the keys one per line. A write
/// goes into a leader's log (committed at once in a one-node cluster), is persisted,
/// and the client waits for it to be applied; anywhere but on a leader it is refused.
pub open spec fn client_step(old: Node, new: Node, c: Command, actions: Seq<ActionView>) -> bool {
    if c is Keys {
        &&& new == old
        &&& exists|keys: Seq<Seq<char>>|
            lists_keys(keys, old.kv@) && actions == seq![
                ActionView::Respond(
                    if keys.len() == 0 {
                        empty_keys_text()
                    } else {
                        joined_lines(keys)
                    },
                ),
            ]
    } else if old.raft.state == RaftState::Leader {
        let entry = LogEntry { term: old.raft.current_term, command: c };
        let index = (old.raft.log.len() + 1) as u64;
        &&& new.raft.log@ == old.raft.log@.push(entry)
        &&& new.raft.commit_index == if old.peer_count == 1 {
            index
        } else {
            old.raft.commit_index
        }
        &&& new.raft.id == old.raft.id
        &&& new.raft.current_term == old.raft.current_term
        &&& new.raft.voted_for == old.raft.voted_for
        &&& new.raft.state == old.raft.state
        &&& new.raft.last_applied == old.raft.last_applied
        &&& new.raft.next_index == old.raft.next_index
        &&& new.raft.match_index == old.raft.match_index
        &&& new.raft.last_heartbeat == old.raft.last_heartbeat
        &&& new.raft.election_timeout_ms == old.raft.election_timeout_ms
        &&& new.votes == old.votes
        &&& same_store_and_identity(old, new)
        &&& actions == seq![
            ActionView::PersistEntry(entry),
            ActionView::AwaitApply(pending_kind_of(c), index),
        ]
    } else {
        &&& new == old
        &&& actions == seq![ActionView::Respond(not_leader_text())]
    }
}

/// What handling `ev` does to `old`, and the actions it asks for.
pub open spec fn handle_step(old: Node, new: Node, ev: Event, actions: Seq<ActionView>) -> bool {
    match ev {
        Event::Tick => tick_step(old, new, actions) && same_store_and_identity(old, new),
        Event::SnapshotTick => {
            &&& new == old
            &&& actions == if old.raft.state == RaftState::Leader {
                seq![ActionView::SaveSnapshot(old.kv@)]
            } else {
                Seq::empty()
            }
        },
        Event::Peer(msg) => {
            &&& same_store_and_identity(old, new)
            &&& match msg {
                Message::RequestVote { args, from_id } => {
                    &&& new.votes == old.votes
                    &&& exists|reply: crate::raft::RequestVoteReply, now: Instant|
                        request_vote_post(old.raft, new.raft, args, reply, now) && actions == seq![
                            ActionView::Send {
                                to: from_id,
                                msg: Message::RequestVoteReply { reply, from_id: old.node_id },
                            },
                        ]
                },
                Message::RequestVoteReply { reply, .. } => {
                    &&& vote_reply_post(
                        old.raft,
                        new.raft,
                        reply,
                        old.peer_count,
                        old.votes,
                        new.votes,
                    )
                    &&& actions == Seq::<ActionView>::empty()
                },
                Message::AppendEntries { args, from_id } => {
                    &&& new.votes == old.votes
                    &&& exists|reply: crate::raft::AppendEntriesReply, now: Instant|
                        append_entries_post(old.raft, new.raft, args, reply, now) && actions
                            == log_writes(old.raft.log@, new.raft.log@) + seq![
                            ActionView::Send {
                                to: from_id,
                                msg: Message::AppendEntriesReply { reply, from_id: old.node_id },
                            },
                        ]
                },
                Message::AppendEntriesReply { reply, from_id } => {
                    &&& new.votes == old.votes
                    &&& append_reply_post(old.raft, new.raft, from_id, reply)
                    &&& actions == Seq::<ActionView>::empty()
                },
            }
        },
        Event::Client(c) => client_step(old, new, c, actions),
        Event::Query(k) => {
            &&& new == old
            &&& actions == seq![
                ActionView::Respond(
                    if old.kv@.contains_key(k@) {
                        old.kv@[k@]
                    } else {
                        nil_text()
                    },
                ),
            ]
        },
    }
}

/// Handling `ev` cannot fail (see the `*_ready` conditions of the Raft handlers).
pub open spec fn handle_ready(node: Node, ev: Event) -> bool {
    match ev {
        Event::Tick => tick_ready(node.raft, node.peer_count as nat),
        Event::Peer(msg) => match msg {
            Message::RequestVoteReply { reply, .. } => vote_reply_ready(
                node.raft,
                reply,
                node.peer_count,
                node.votes,
            ),
            Message::AppendEntries { args, .. } => node.raft.log.len() + args.entries.len()
                <= usize::MAX,
            Message::AppendEntriesReply { reply, from_id } => append_reply_ready(
                node.raft,
                from_id,
                reply,
            ),
            _ => true,
        },
        _ => true,
    }
}

impl Node {
    fn on_tick(&mut self) -> (actions: Vec<Action>)
        requires
            tick_ready(old(self).raft, old(self).peer_count as nat),
        ensures
            tick_step(*old(self), *final(self), action_views(actions@)),
            same_store_and_identity(*old(self), *final(self)),
    {
        let out = self.raft.tick(self.peer_count);
        let ghost out_g = out;
        let ghost mid = self.raft;
        let ghost (elapsed, now, timeout) = choose|e: u128, now: Instant, t: u64|
            tick_outcome(old(self).raft, mid, old(self).peer_count as nat, e, now, t, out_g)
                && (old(self).raft.state != RaftState::Leader && e >= old(self).raft.election_timeout_ms
                ==> ELECTION_TIMEOUT_MIN_MS <= t < ELECTION_TIMEOUT_MAX_MS);
        let (vote_req, mut append_reqs) = out;
        let mut actions: Vec<Action> = Vec::new();
        match vote_req {
            Some(req) => {
                self.votes = 1;
                if self.votes > self.peer_count / 2 {
                    self.raft.state = RaftState::Leader;
                } else {
                    let count = self.peer_count as u64;
                    let mut peer_id: u64 = 0;
                    while peer_id < count
                        invariant
                            count == self.peer_count,
                            peer_id <= count,
                            action_views(actions@) == vote_request_sends(
                                self.node_id,
                                peer_id as nat,
                                req,
                            ),
                        decreases count - peer_id,
                    {
                        let ghost before = action_views(actions@);
                        if peer_id != self.node_id {
                            let a = Action::Send {
                                to: peer_id,
                                msg: Message::RequestVote { args: req, from_id: self.node_id },
                            };
                            let ghost av = a@;
                            actions.push(a);
                            assert(action_views(actions@) =~= before.push(av));
                        }
                        proof {
                            let b = other_peers(self.node_id, peer_id as nat);
                            let a = other_peers(self.node_id, (peer_id + 1) as nat);
                            assert forall|j: int| 0 <= j < b.len() implies a[j] == b[j] by {}
                            if peer_id != self.node_id {
                                assert(a.len() == b.len() + 1);
                                assert(a[b.len() as int] == peer_id);
                            } else {
                                assert(a.len() == b.len());
                            }
                            assert(action_views(actions@) =~= vote_request_sends(
                                self.node_id,
                                (peer_id + 1) as nat,
                                req,
                            ));
                        }
                        peer_id = peer_id + 1;
                    }
                }
            },
            None => {},
        }
        let ghost sent = action_views(actions@);
        let ghost hb = append_reqs@;
        let total = append_reqs.len();
        let mut i: usize = 0;
        while append_reqs.len() > 0
            invariant
                i <= hb.len(),
                append_reqs@ == hb.subrange(i as int, hb.len() as int),
                append_reqs.len() == hb.len() - i,
                hb.len() == total,
                action_views(actions@) == sent + heartbeat_sends(self.node_id, hb.subrange(0, i as int)),
            decreases append_reqs.len(),
        {
            let ghost before = action_views(actions@);
            let (peer, req) = append_reqs.remove(0);
            assert((peer, req) == hb[i as int]);
            let a = Action::Send { to: peer, msg: Message::AppendEntries { args: req, from_id: self.node_id } };
            let ghost av = a@;
            actions.push(a);
            assert(action_views(actions@) =~= before.push(av));
            proof {
                assert(hb.subrange(0, i + 1) =~= hb.subrange(0, i as int).push(hb[i as int]));
                assert(action_views(actions@) =~= sent + heartbeat_sends(self.node_id, hb.subrange(0, i + 1)));
            }
            i = i + 1;
            assert(append_reqs@ =~= hb.subrange(i as int, hb.len() as int));
        }
        assert(hb.subrange(0, i as int) =~= hb);
        proof {
            if vote_req is None {
                assert(sent =~= Seq::<ActionView>::empty());
            }
            assert(tick_outcome(old(self).raft, mid, old(self).peer_count as nat, elapsed, now, timeout, out_g));
        }
        actions
    }

    fn on_message(&mut self, msg: Message) -> (actions: Vec<Action>)
        requires
            handle_ready(*old(self), Event::Peer(msg)),
        ensures
            handle_step(*old(self), *final(self), Event::Peer(msg), action_views(actions@)),
    {
        let mut actions: Vec<Action> = Vec::new();
        match msg {
            Message::RequestVote { args, from_id } => {
                let reply = self.raft.handle_request_vote(args);
                let a = Action::Send {
                    to: from_id,
                    msg: Message::RequestVoteReply { reply, from_id: self.node_id },
                };
                actions.push(a);
                assert(action_views(actions@) =~= seq![a@]);
            },
            Message::RequestVoteReply { reply, from_id: _ } => {
                self.raft.handle_vote_reply(reply, self.peer_count, &mut self.votes);
                assert(action_views(actions@) =~= Seq::<ActionView>::empty());
            },
            Message::AppendEntries { args, from_id } => {
                let old_len = self.raft.log.len();
                let ghost old_raft = self.raft;
                let reply = self.raft.handle_append_entries(args);
                let new_len = self.raft.log.len();
                let mut i = old_len;
                assert(action_views(actions@) =~= Seq::<ActionView>::empty());
                if new_len > old_len {
                    assert(action_views(actions@) =~= self.raft.log@.subrange(
                        old_len as int,
                        i as int,
                    ).map_values(|e: LogEntry| ActionView::PersistEntry(e)));
                    while i < new_len
                        invariant
                            old_len <= i <= new_len,
                            new_len == self.raft.log.len(),
                            action_views(actions@) == self.raft.log@.subrange(
                                old_len as int,
                                i as int,
                            ).map_values(|e: LogEntry| ActionView::PersistEntry(e)),
                        decreases new_len - i,
                    {
                        let ghost before = action_views(actions@);
                        let a = Action::PersistEntry(self.raft.log[i].clone());
                        let ghost av = a@;
                        actions.push(a);
                        assert(action_views(actions@) =~= before.push(av));
                        i = i + 1;
                        assert(action_views(actions@) =~= self.raft.log@.subrange(
                            old_len as int,
                            i as int,
                        ).map_values(|e: LogEntry| ActionView::PersistEntry(e)));
                    }
                    assert(self.raft.log@.subrange(old_len as int, new_len as int) =~= self.raft.log@.skip(
                        old_len as int,
                    ));
                }
                let ghost before = action_views(actions@);
                let a = Action::Send {
                    to: from_id,
                    msg: Message::AppendEntriesReply { reply, from_id: self.node_id },
                };
                let ghost av = a@;
                actions.push(a);
                assert(action_views(actions@) =~= before.push(av));
                assert(action_views(actions@) =~= log_writes(old_raft.log@, self.raft.log@) + seq![av]);
            },
            Message::AppendEntriesReply { reply, from_id } => {
                self.raft.handle_append_entries_reply(from_id, reply);
                assert(action_views(actions@) =~= Seq::<ActionView>::empty());
            },
        }
        actions
    }

    /// Puts a client's write into a leader's log; anywhere else the write is refused.
    fn propose(&mut self, command: Command, kind: PendingKind) -> (actions: Vec<Action>)
        requires
            kind == pending_kind_of(command),
            !(command is Keys),
        ensures
            client_step(*old(self), *final(self), command, action_views(actions@)),
    {
        proof {
            reveal_strlit("ERR not leader");
        }
        let mut actions: Vec<Action> = Vec::new();
        if self.raft.state == RaftState::Leader {
            let entry = LogEntry { term: self.raft.current_term, command };
            let persisted = entry.clone();
            self.raft.log.push(entry);
            let last_index = self.raft.log.len() as u64;
            if self.peer_count == 1 {
                self.raft.commit_index = last_index;
            }
            let a = Action::PersistEntry(persisted);
            let b = Action::AwaitApply(kind, last_index);
            let ghost (av, bv) = (a@, b@);
            actions.push(a);
            actions.push(b);
            assert(action_views(actions@) =~= seq![av, bv]);
        } else {
            let text = String::from_str("ERR not leader");
            assert(text@ =~= not_leader_text());
            let a = Action::Respond(text);
            let ghost av = a@;
            actions.push(a);
            assert(action_views(actions@) =~= seq![av]);
        }
        actions
    }

    fn on_client(&mut self, command: Command) -> (actions: Vec<Action>)
        ensures
            client_step(*old(self), *final(self), command, action_views(actions@)),
    {
        match command {
            Command::SetKey(k, v) => self.propose(Command::SetKey(k, v), PendingKind::SetKey),
            Command::Delete(k) => self.propose(Command::Delete(k), PendingKind::Delete),
            Command::Keys => {
                let keys = self.kv.keys();
                let text = keys_reply(&keys);
                let ghost ks = keys@.map_values(|k: String| k@);
                proof {
                    assert forall|i: int| 0 <= i < ks.len() implies self.kv@.contains_key(#[trigger] ks[i]) by {
                        assert(ks[i] == keys@[i]@);
                    }
                    assert forall|k: Seq<char>| #[trigger] self.kv@.contains_key(k) implies ks.contains(k) by {
                        let i = choose|i: int| 0 <= i < keys@.len() && (#[trigger] keys@[i])@ == k;
                        assert(ks[i] == k);
                    }
                    assert forall|i: int, j: int| 0 <= i < ks.len() && 0 <= j < ks.len() && i != j implies ks[i] != ks[j] by {
                        if i < j {
                            assert(keys@[i]@ != keys@[j]@);
                        } else {
                            assert(keys@[j]@ != keys@[i]@);
                        }
                    }
                    assert(lists_keys(ks, self.kv@));
                }
                let mut actions: Vec<Action> = Vec::new();
                let a = Action::Respond(text);
                let ghost av = a@;
                actions.push(a);
                assert(action_views(actions@) =~= seq![av]);
                actions
            },
            Command::Flush => self.propose(Command::Flush, PendingKind::Flush),
        }
    }

    fn on_query(&self, key: &String) -> (actions: Vec<Action>)
        ensures
            action_views(actions@) == seq![
                ActionView::Respond(
                    if self.kv@.contains_key(key@) {
                        self.kv@[key@]
                    } else {
                        nil_text()
                    },
                ),
            ],
    {
        proof {
            reveal_strlit("nil");
        }
        let answer = match self.kv.get(key.as_str()) {
            Some(value) => value,
            None => {
                let nil = String::from_str("nil");
                assert(nil@ =~= nil_text());
                nil
            },
        };
        let mut actions: Vec<Action> = Vec::new();
        let a = Action::Respond(answer);
        let ghost av = a@;
        actions.push(a);
        assert(action_views(actions@) =~= seq![av]);
        actions
    }

    /// The first half of every step: what the node does with one event (see
    /// `handle_step`). The driver performs the actions in order.
    pub fn handle_event(&mut self, event: Event) -> (actions: Vec<Action>)
        requires
            handle_ready(*old(self), event),
        ensures
            handle_step(*old(self), *final(self), event, action_views(actions@)),
    {
        match event {
            Event::Tick => self.on_tick(),
            Event::SnapshotTick => {
                let mut actions: Vec<Action> = Vec::new();
                if self.raft.state == RaftState::Leader {
                    let a = Action::SaveSnapshot(self.kv.get_state());
                    let ghost av = a@;
                    actions.push(a);
                    assert(action_views(actions@) =~= seq![av]);
                } else {
                    assert(action_views(actions@) =~= Seq::<ActionView>::empty());
                }
                actions
            },
            Event::Peer(msg) => self.on_message(msg),
            Event::Client(command) => self.on_client(command),
            Event::Query(key) => self.on_query(&key),
        }
    }

    /// Whether `handle_event` can take `event` (`handle_ready`); where it cannot, the
    /// node cannot go on.
    pub fn can_handle(&self, event: &Event) -> (ok: bool)
        ensures
            ok == handle_ready(*self, *event),
    {
        match event {
            Event::Tick => self.raft.tick_is_ready(self.peer_count),
            Event::Peer(msg) => match msg {
                Message::RequestVoteReply { reply, .. } => self.raft.vote_reply_is_ready(
                    *reply,
                    self.peer_count,
                    self.votes,
                ),
                Message::AppendEntries { args, .. } => self.raft.log.len() <= usize::MAX
                    - args.entries.len(),
                Message::AppendEntriesReply { reply, from_id } => self.raft.append_reply_is_ready(
                    *from_id,
                    *reply,
                ),
                _ => true,
            },
            _ => true,
        }
    }

    /// Whether `finish_step` can run (`apply_ready`); where it cannot, the node cannot
    /// go on.
    pub fn can_finish(&self) -> (ok: bool)
        ensures
            ok == apply_ready(self.raft),
    {
        self.raft.apply_is_ready()
    }
}

// ---------------------------------------------------------------------------
// Laws
// ---------------------------------------------------------------------------

/// Once a `SET k v` has been applied, a `GET k` answers `v`; once a `DEL k` has been
/// applied, it answers `nil`; after a `FLUSHALL`, every `GET` answers `nil`.
pub proof fn law_get_reads_last_applied_write(
    m: Map<Seq<char>, Seq<char>>,
    k: String,
    v: String,
    probe: Seq<char>,
)
    ensures
        apply_command(m, Command::SetKey(k, v)).contains_key(k@),
        apply_command(m, Command::SetKey(k, v))[k@] == v@,
        !apply_command(m, Command::Delete(k)).contains_key(k@),
        !apply_command(m, Command::Flush).contains_key(probe),
{
}

/// Replaying commands in two parts gives the same store as replaying them at once:
/// the store only depends on the sequence of applied commands.
pub proof fn law_replay_in_parts(m: Map<Seq<char>, Seq<char>>, first: Seq<Command>, second: Seq<Command>)
    ensures
        apply_commands(apply_commands(m, first), second) == apply_commands(m, first + second),
    decreases second.len(),
{
    if second.len() == 0 {
        assert(first + second =~= first);
    } else {
        law_replay_in_parts(m, first, second.drop_last());
        assert((first + second).drop_last() =~= first + second.drop_last());
        assert((first + second).last() == second.last());
    }
}

/// A one-node cluster elects itself: when a tick of a node alone in its cluster
/// starts a new term, the node comes out of it as the leader.
pub proof fn law_single_node_elects_itself(old: Node, new: Node, actions: Seq<ActionView>)
    requires
        old.peer_count <= 1,
        tick_step(old, new, actions),
    ensures
        new.raft.current_term > old.raft.current_term ==> new.raft.state == RaftState::Leader,
{
}


/// A write that the leader takes from a client is answered when it is applied: the
/// proposal keeps the client waiting for a write of the command's kind at the new
/// entry's index, and applying a batch that ends with that command at that index
/// resolves exactly that kind at that index, with `OK` for a set or a flush and `1`
/// for a delete.
pub proof fn law_applied_write_answers_its_client(
    old: Node,
    new: Node,
    c: Command,
    actions: Seq<ActionView>,
    earlier: Seq<Command>,
)
    requires
        client_step(old, new, c, actions),
        old.raft.state == RaftState::Leader,
        !(c is Keys),
        old.raft.log.len() < u64::MAX,
    ensures
        actions.len() == 2,
        actions[1] matches ActionView::AwaitApply(kind, index) && index == old.raft.log.len() + 1
            && apply_actions(earlier.push(c), index).last() == ActionView::ResolvePending(
            kind,
            index,
            if c is Delete {
                one_text()
            } else {
                ok_text()
            },
        ),
{
    let index = (old.raft.log.len() + 1) as u64;
    let cs = earlier.push(c);
    assert(cs.drop_last() =~= earlier);
    assert(cs.last() == c);
    let tail = match c {
        Command::SetKey(k, v) => seq![
            ActionView::NotifyApplied(c),
            ActionView::ResolvePending(PendingKind::SetKey, index, ok_text()),
        ],
        Command::Delete(k) => seq![
            ActionView::NotifyApplied(c),
            ActionView::ResolvePending(PendingKind::Delete, index, one_text()),
        ],
        Command::Keys => Seq::empty(),
        Command::Flush => seq![
            ActionView::NotifyApplied(c),
            ActionView::ResolvePending(PendingKind::Flush, index, ok_text()),
        ],
    };
    assert(apply_actions(cs, index) == apply_actions(earlier, index) + tail);
    assert((apply_actions(earlier, index) + tail).last() == tail.last());
}

} // verus!
