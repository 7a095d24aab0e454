//! On-disk layout of a node: file names, the persisted Raft metadata, and the
//! append-only log format (each record prefixed by its length as a little-endian `u32`).
use crate::text::decimal;
use crate::text::push_decimal;
use vstd::prelude::*;
use vstd::string::*;

verus! {

/// The part of the Raft state that must survive a restart besides the log.
#[derive(Clone, Copy, Debug, PartialEq, Eq, Structural)]
pub struct RaftMetadata {
    pub current_term: u64,
    pub voted_for: Option<u64>,
}

/// The files a node keeps: its log, its snapshot and its metadata.
pub struct PersistenceManager {
    pub log_path: String,
    pub snapshot_path: String,
    pub metadata_path: String,
}

/// `node_<id>.<ext>`.
pub open spec fn node_file_name(node_id: u64, ext: Seq<char>) -> Seq<char> {
    seq!['n', 'o', 'd', 'e', '_'] + decimal(node_id as nat) + seq!['.'] + ext
}

/// `node_<id><suffix>`, where `suffix` is `.` and the extension.
fn node_file(node_id: u64, suffix: &str) -> (name: String)
    ensures
        name@ == seq!['n', 'o', 'd', 'e', '_'] + decimal(node_id as nat) + suffix@,
{
    proof {
        reveal_strlit("node_");
    }
    let mut name = String::from_str("node_");
    push_decimal(&mut name, node_id);
    name.append(suffix);
    name
}

impl PersistenceManager {
    /// The files of node `node_id`: `node_<id>.log`, `node_<id>.rdb` and `node_<id>.meta`.
    pub fn new(node_id: u64) -> (pm: Self)
        ensures
            pm.log_path@ == node_file_name(node_id, seq!['l', 'o', 'g']),
            pm.snapshot_path@ == node_file_name(node_id, seq!['r', 'd', 'b']),
            pm.metadata_path@ == node_file_name(node_id, seq!['m', 'e', 't', 'a']),
    {
        proof {
            reveal_strlit(".log");
            reveal_strlit(".rdb");
            reveal_strlit(".meta");
        }
        let log_path = node_file(node_id, ".log");
        let snapshot_path = node_file(node_id, ".rdb");
        let metadata_path = node_file(node_id, ".meta");
        assert(log_path@ =~= node_file_name(node_id, seq!['l', 'o', 'g']));
        assert(snapshot_path@ =~= node_file_name(node_id, seq!['r', 'd', 'b']));
        assert(metadata_path@ =~= node_file_name(node_id, seq!['m', 'e', 't', 'a']));
        PersistenceManager { log_path, snapshot_path, metadata_path }
    }
}

// ---------------------------------------------------------------------------
// Log records
// ---------------------------------------------------------------------------

/// The four little-endian bytes of `n`.
pub open spec fn le_bytes(n: u32) -> Seq<u8> {
    seq![(n % 256) as u8, ((n / 256) % 256) as u8, ((n / 65536) % 256) as u8, (n / 16777216) as u8]
}

/// The number that the first four bytes of `b` spell in little-endian order.
pub open spec fn le_value(b: Seq<u8>) -> nat {
    b[0] as nat + 256 * (b[1] as nat) + 65536 * (b[2] as nat) + 16777216 * (b[3] as nat)
}

/// One log record: the record's length, cut to 32 bits, then its bytes.
pub open spec fn record_frame(data: Seq<u8>) -> Seq<u8> {
    le_bytes((data.len() % 4294967296) as u32) + data
}

/// The records one after the other, each framed.
pub open spec fn records_frame(records: Seq<Seq<u8>>) -> Seq<u8>
    decreases records.len(),
{
    if records.len() == 0 {
        Seq::empty()
    } else {
        record_frame(records[0]) + records_frame(records.drop_first())
    }
}

/// Reading a log: while at least four bytes are left, a length and that many bytes
/// form the next record; fewer than four trailing bytes end the log, a record cut
/// short is an error (`None`).
pub open spec fn parse_records(bytes: Seq<u8>) -> Option<Seq<Seq<u8>>>
    decreases bytes.len(),
{
    if bytes.len() < 4 {
        Some(Seq::empty())
    } else {
        let n = le_value(bytes) as int;
        if bytes.len() < 4 + n {
            None
        } else {
            match parse_records(bytes.skip(4 + n)) {
                Some(rest) => Some(seq![bytes.subrange(4, 4 + n)] + rest),
                None => None,
            }
        }
    }
}

/// The error of reading a log whose last record is cut short.
#[derive(Clone, Copy, Debug, PartialEq, Eq, Structural)]
pub enum LogReadError {
    TruncatedRecord,
}

proof fn lemma_le_roundtrip(n: u32)
    ensures
        le_value(le_bytes(n)) == n,
        le_bytes(n).len() == 4,
{
    let b = le_bytes(n);
    assert(b[0] as nat + 256 * (b[1] as nat) + 65536 * (b[2] as nat) + 16777216 * (b[3] as nat)
        == n) by (nonlinear_arith)
        requires
            b[0] == n % 256,
            b[1] == (n / 256) % 256,
            b[2] == (n / 65536) % 256,
            b[3] == n / 16777216,
            n < 4294967296,
    ;
}

/// Appends the four little-endian bytes of `n` to `out`.
fn push_le_u32(out: &mut Vec<u8>, n: u32)
    ensures
        final(out)@ == old(out)@ + le_bytes(n),
{
    out.push((n % 256) as u8);
    out.push(((n / 256) % 256) as u8);
    out.push(((n / 65536) % 256) as u8);
    out.push((n / 16777216) as u8);
    assert(out@ =~= old(out)@ + le_bytes(n));
}

/// Appends `data` to `out`.
fn push_bytes(out: &mut Vec<u8>, data: &[u8])
    ensures
        final(out)@ == old(out)@ + data@,
{
    let mut i: usize = 0;
    while i < data.len()
        invariant
            i <= data.len(),
            out@ == old(out)@ + data@.subrange(0, i as int),
        decreases data.len() - i,
    {
        out.push(data[i]);
        i = i + 1;
        assert(out@ =~= old(out)@ + data@.subrange(0, i as int));
    }
    assert(data@.subrange(0, data.len() as int) =~= data@);
}

/// One log record as `append_log` writes it: the length as four little-endian bytes
/// (cut to 32 bits), then the record.
pub fn encode_record(data: &[u8]) -> (out: Vec<u8>)
    ensures
        out@ == record_frame(data@),
{
    let len = (data.len() as u64 % 4294967296) as u32;
    let mut out: Vec<u8> = Vec::new();
    push_le_u32(&mut out, len);
    push_bytes(&mut out, data);
    assert(out@ =~= record_frame(data@));
    out
}

proof fn lemma_records_frame_push(records: Seq<Seq<u8>>, r: Seq<u8>)
    ensures
        records_frame(records.push(r)) == records_frame(records) + record_frame(r),
    decreases records.len(),
{
    if records.len() == 0 {
        assert(records.push(r).drop_first() =~= Seq::<Seq<u8>>::empty());
        assert(records_frame(records.push(r).drop_first()) == Seq::<u8>::empty());
        assert(records.push(r)[0] == r);
        assert(records_frame(records.push(r)) =~= record_frame(r));
    } else {
        lemma_records_frame_push(records.drop_first(), r);
        assert(records.push(r).drop_first() =~= records.drop_first().push(r));
        assert(records_frame(records.push(r)) =~= records_frame(records) + record_frame(r));
    }
}

/// A whole log as `rewrite_log` writes it: every record framed, in order.
pub fn encode_records(records: &Vec<Vec<u8>>) -> (out: Vec<u8>)
    ensures
        out@ == records_frame(records@.map_values(|r: Vec<u8>| r@)),
{
    let mut out: Vec<u8> = Vec::new();
    let mut i: usize = 0;
    while i < records.len()
        invariant
            i <= records.len(),
            out@ == records_frame(records@.subrange(0, i as int).map_values(|r: Vec<u8>| r@)),
        decreases records.len() - i,
    {
        let framed = encode_record(records[i].as_slice());
        proof {
            lemma_records_frame_push(
                records@.subrange(0, i as int).map_values(|r: Vec<u8>| r@),
                records@[i as int]@,
            );
            assert(records@.subrange(0, i + 1).map_values(|r: Vec<u8>| r@) =~= records@.subrange(
                0,
                i as int,
            ).map_values(|r: Vec<u8>| r@).push(records@[i as int]@));
        }
        push_bytes(&mut out, framed.as_slice());
        i = i + 1;
    }
    assert(records@.subrange(0, records.len() as int) =~= records@);
    out
}

/// Reads a log back into its records, as `read_log` does before decoding each one.
pub fn decode_records(bytes: &[u8]) -> (r: Result<Vec<Vec<u8>>, LogReadError>)
    ensures
        match r {
            Ok(records) => parse_records(bytes@) == Some(records@.map_values(|v: Vec<u8>| v@)),
            Err(e) => parse_records(bytes@) is None && e == LogReadError::TruncatedRecord,
        },
{
    let mut records: Vec<Vec<u8>> = Vec::new();
    let mut pos: usize = 0;
    assert(bytes@.skip(0) =~= bytes@);
    assert(records@.map_values(|v: Vec<u8>| v@) =~= Seq::<Seq<u8>>::empty());
    while bytes.len() - pos >= 4
        invariant
            pos <= bytes.len(),
            parse_records(bytes@) == match parse_records(bytes@.skip(pos as int)) {
                Some(rest) => Some(records@.map_values(|v: Vec<u8>| v@) + rest),
                None => None,
            },
        decreases bytes.len() - pos,
    {
        let n: u64 = bytes[pos] as u64 + 256 * (bytes[pos + 1] as u64) + 65536 * (bytes[pos
            + 2] as u64) + 16777216 * (bytes[pos + 3] as u64);
        let ghost tail = bytes@.skip(pos as int);
        assert(n == le_value(tail));
        if ((bytes.len() - pos - 4) as u64) < n {
            return Err(LogReadError::TruncatedRecord);
        }
        let start = pos + 4;
        let end = start + n as usize;
        let mut record: Vec<u8> = Vec::new();
        push_bytes(&mut record, &bytes[start..end]);
        let ghost before = records@.map_values(|v: Vec<u8>| v@);
        records.push(record);
        proof {
            assert(record@ =~= tail.subrange(4, 4 + n));
            assert(tail.skip(4 + n) =~= bytes@.skip(end as int));
            assert(records@.map_values(|v: Vec<u8>| v@) =~= before.push(tail.subrange(4, 4 + n)));
            match parse_records(bytes@.skip(end as int)) {
                Some(rest) => {
                    assert(before + (seq![tail.subrange(4, 4 + n)] + rest) =~= before.push(
                        tail.subrange(4, 4 + n),
                    ) + rest);
                },
                None => {},
            }
        }
        pos = end;
    }
    proof {
        assert(records@.map_values(|v: Vec<u8>| v@) + Seq::<Seq<u8>>::empty() =~= records@.map_values(
            |v: Vec<u8>| v@,
        ));
    }
    Ok(records)
}

/// Reading back a log gives the records that were written into it, in order, as
/// long as each record is shorter than 4 GiB (longer ones have their length cut
/// to 32 bits when framed).
pub proof fn law_read_log_returns_written_records(records: Seq<Seq<u8>>)
    requires
        forall|i: int| 0 <= i < records.len() ==> (#[trigger] records[i]).len() <= u32::MAX,
    ensures
        parse_records(records_frame(records)) == Some(records),
    decreases records.len(),
{
    if records.len() == 0 {
        assert(records =~= Seq::<Seq<u8>>::empty());
    } else {
        let r0 = records[0];
        let rest = records.drop_first();
        assert forall|i: int| 0 <= i < rest.len() implies (#[trigger] rest[i]).len() <= u32::MAX by {
            assert(rest[i] == records[i + 1]);
        }
        law_read_log_returns_written_records(rest);
        let len = r0.len() as int;
        assert(len % 4294967296 == len);
        lemma_le_roundtrip(len as u32);
        let bytes = records_frame(records);
        assert(bytes == le_bytes(len as u32) + r0 + records_frame(rest));
        assert(le_value(bytes) == le_value(le_bytes(len as u32)));
        assert(bytes.skip(4 + len) =~= records_frame(rest));
        assert(bytes.subrange(4, 4 + len) =~= r0);
        assert(seq![r0] + rest =~= records);
    }
}

/// Appending a record to a log and reading it back gives the earlier records
/// followed by the new one.
pub proof fn law_append_then_read(records: Seq<Seq<u8>>, record: Seq<u8>)
    requires
        forall|i: int| 0 <= i < records.len() ==> (#[trigger] records[i]).len() <= u32::MAX,
        record.len() <= u32::MAX,
    ensures
        parse_records(records_frame(records) + record_frame(record)) == Some(records.push(record)),
{
    lemma_records_frame_push(records, record);
    let all = records.push(record);
    assert forall|i: int| 0 <= i < all.len() implies (#[trigger] all[i]).len() <= u32::MAX by {
        if i < records.len() {
            assert(all[i] == records[i]);
        }
    }
    law_read_log_returns_written_records(all);
}

} // verus!
