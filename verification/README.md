# Redix

A small distributed key-value store: nodes agree on a log of commands with the
Raft consensus protocol and apply it to an in-memory map, which clients reach
through the Redis protocol (`SET`, `GET`, `DEL`, `KEYS`, `FLUSHALL`), sent either
as RESP arrays of bulk strings or as inline lines.

## Layout

- `src/` is the verified library (Verus):
  - `raft.rs`: the Raft state of a node and its handlers (votes, replication,
    timer ticks, commitment), with the laws of the protocol that a single node
    upholds (log matching, idempotent replication, a leader's request bringing
    a lagging follower up to its log, monotone terms, one vote per term,
    commitment only on a strict majority and in the current term, commands
    applied once and in order). Handlers take the clock reading and the drawn
    election timeout as arguments, so their contracts fix the election timer.
  - `kv_store.rs`: the replicated state machine, a `DashMap` of strings.
  - `persistence.rs`: file names and the append-only log format, with the law
    that reading a log gives back the records appended to it.
  - `network/`: messages between nodes and their framing; `redis.rs` parses
    client requests (RESP arrays and inline lines) and writes RESP replies, and
    renders replies for the interactive client.
  - `node.rs`: what a running node decides for each event (timer tick, peer
    message, client write, client read) and the actions it asks its driver to
    carry out: messages, log appends when the log grew, snapshots, and the
    answers to the writes of each applied batch.
  - `text.rs`: decimal numerals.
- `app/` is the program around it: timers, TCP, files, bincode, logging and the
  command line. `redix --id 0 --peers-count 1 ...` runs a node;
  `redix cli --addr 127.0.0.1:6379` runs the interactive client.
- `tests/` exercises the library.
