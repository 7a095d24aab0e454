//! The Redis-style text front end: turning a client's line into a command, turning
//! an answer into a RESP reply, and rendering a RESP reply for a person to read.
use crate::raft::Command;
use crate::text::decimal;
use crate::text::push_decimal;
use vstd::prelude::*;
use vstd::string::*;
use vstd::utf8::valid_utf8;
use vstd::utf8::decode_utf8;
use vstd::slice::slice_subrange;

verus! {

/// The address the front end listens on.
pub struct RedisServer {
    pub addr: String,
}

impl RedisServer {
    /// A front end for `addr`.
    pub fn new(addr: String) -> (server: Self)
        ensures
            server.addr == addr,
    {
        RedisServer { addr }
    }
}

// ---------------------------------------------------------------------------
// Text functions of std
// ---------------------------------------------------------------------------

/// What `String::from_utf8_lossy` makes of `bytes`.
pub uninterp spec fn lossy_text(bytes: Seq<u8>) -> Seq<char>;

/// The words that `str::split_whitespace` finds in `text`.
pub uninterp spec fn whitespace_words(text: Seq<char>) -> Seq<Seq<char>>;

/// What `str::to_uppercase` makes of `text`.
pub uninterp spec fn uppercase(text: Seq<char>) -> Seq<char>;

/// What `str::trim` leaves of `text`.
pub uninterp spec fn trimmed(text: Seq<char>) -> Seq<char>;

/// `String::from_utf8_lossy`: the text of `bytes`, with every invalid sequence
/// replaced by U+FFFD. Valid UTF-8 is decoded as it is; beyond that the result is
/// only named.
#[verifier::external_body]
fn decode_lossy(bytes: &[u8]) -> (text: String)
    ensures
        text@ == lossy_text(bytes@),
        valid_utf8(bytes@) ==> text@ == decode_utf8(bytes@),
{
    String::from_utf8_lossy(bytes).into_owned()
}

/// `str::split_whitespace`, each word copied into a `String`: the words of `text`,
/// in order. (Leading and trailing whitespace never changes this result, so a
/// `trim` before it has no effect.)
#[verifier::external_body]
fn split_words(text: &str) -> (words: Vec<String>)
    ensures
        words@.map_values(|w: String| w@) == whitespace_words(text@),
{
    text.split_whitespace().map(|w| w.to_string()).collect()
}

/// `str::to_uppercase`: `text` in upper case, by Unicode's rules.
#[verifier::external_body]
fn to_upper(text: &str) -> (upper: String)
    ensures
        upper@ == uppercase(text@),
{
    text.to_uppercase()
}

/// `str::trim`: `text` without leading and trailing whitespace.
#[verifier::external_body]
fn trim_text(text: &str) -> (t: String)
    ensures
        t@ == trimmed(text@),
{
    text.trim().to_string()
}

// ---------------------------------------------------------------------------
// Requests
// ---------------------------------------------------------------------------

/// How the answer to a request is written back.
#[derive(Clone, Copy, Debug, PartialEq, Eq, Structural)]
pub enum ReplyStyle {
    /// `+<answer>\r\n`
    Simple,
    /// `$<byte length>\r\n<answer>\r\n`
    Bulk,
    /// `:<answer>\r\n`
    Integer,
}

/// What a client's line asks for.
#[derive(Debug)]
pub enum RedisRequest {
    /// A line with no words: nothing is answered.
    Blank,
    /// An unknown command or a wrong number of arguments.
    Unknown,
    /// A command for the node, and how to write its answer.
    Forward(Command, ReplyStyle),
    /// A read of the key, answered as a bulk string.
    Get(String),
}

/// `r` is the request for a line whose words are `words` and whose first word in
/// upper case is `verb`.
pub open spec fn request_for(verb: Seq<char>, words: Seq<Seq<char>>, r: RedisRequest) -> bool {
    if verb == seq!['S', 'E', 'T'] && words.len() == 3 {
        r matches RedisRequest::Forward(Command::SetKey(k, v), ReplyStyle::Simple) && k@ == words[1]
            && v@ == words[2]
    } else if verb == seq!['G', 'E', 'T'] && words.len() == 2 {
        r matches RedisRequest::Get(k) && k@ == words[1]
    } else if verb == seq!['D', 'E', 'L'] && words.len() == 2 {
        r matches RedisRequest::Forward(Command::Delete(k), ReplyStyle::Integer) && k@ == words[1]
    } else if verb == seq!['K', 'E', 'Y', 'S'] {
        r matches RedisRequest::Forward(Command::Keys, ReplyStyle::Bulk)
    } else if verb == seq!['F', 'L', 'U', 'S', 'H', 'A', 'L', 'L'] {
        r matches RedisRequest::Forward(Command::Flush, ReplyStyle::Simple)
    } else {
        r is Unknown
    }
}

/// The request named by the upper-cased first word `verb` and the words of the line:
/// `SET k v`, `GET k`, `DEL k`, `KEYS ...` and `FLUSHALL ...`.
pub fn request_from_words(verb: &String, words: &Vec<String>) -> (r: RedisRequest)
    ensures
        request_for(verb@, words@.map_values(|w: String| w@), r),
{
    proof {
        reveal_strlit("SET");
        reveal_strlit("GET");
        reveal_strlit("DEL");
        reveal_strlit("KEYS");
        reveal_strlit("FLUSHALL");
    }
    let ghost ws = words@.map_values(|w: String| w@);
    let set_word = String::from_str("SET");
    let get_word = String::from_str("GET");
    let del_word = String::from_str("DEL");
    let keys_word = String::from_str("KEYS");
    let flush_word = String::from_str("FLUSHALL");
    assert(set_word@ =~= seq!['S', 'E', 'T']);
    assert(get_word@ =~= seq!['G', 'E', 'T']);
    assert(del_word@ =~= seq!['D', 'E', 'L']);
    assert(keys_word@ =~= seq!['K', 'E', 'Y', 'S']);
    assert(flush_word@ =~= seq!['F', 'L', 'U', 'S', 'H', 'A', 'L', 'L']);
    if *verb == set_word && words.len() == 3 {
        assert(ws[1] == words@[1]@ && ws[2] == words@[2]@);
        RedisRequest::Forward(
            Command::SetKey(words[1].clone(), words[2].clone()),
            ReplyStyle::Simple,
        )
    } else if *verb == get_word && words.len() == 2 {
        assert(ws[1] == words@[1]@);
        RedisRequest::Get(words[1].clone())
    } else if *verb == del_word && words.len() == 2 {
        assert(ws[1] == words@[1]@);
        RedisRequest::Forward(Command::Delete(words[1].clone()), ReplyStyle::Integer)
    } else if *verb == keys_word {
        RedisRequest::Forward(Command::Keys, ReplyStyle::Bulk)
    } else if *verb == flush_word {
        RedisRequest::Forward(Command::Flush, ReplyStyle::Simple)
    } else {
        RedisRequest::Unknown
    }
}

// ---------------------------------------------------------------------------
// RESP arrays of bulk strings
// ---------------------------------------------------------------------------

/// An ASCII digit.
pub open spec fn is_digit(c: u8) -> bool {
    48 <= c && c <= 57
}

/// The first position at or after `pos` that does not hold a digit.
pub open spec fn digits_end(b: Seq<u8>, pos: int) -> int
    decreases b.len() - pos,
{
    if pos < 0 || pos >= b.len() || !is_digit(b[pos]) {
        pos
    } else {
        digits_end(b, pos + 1)
    }
}

/// The decimal value of the digits of `b` from `pos` up to `end`.
pub open spec fn digits_value(b: Seq<u8>, pos: int, end: int) -> int
    decreases end - pos,
{
    if end <= pos {
        0
    } else {
        digits_value(b, pos, end - 1) * 10 + (b[end - 1] - 48)
    }
}

/// A decimal number at `pos` closed by `\r\n`: its value and the position after the
/// `\r\n`. There is none when no digit stands at `pos`, when the `\r\n` is missing,
/// or when the value exceeds the length of `b` (no count or length in `b` can be
/// that large).
pub open spec fn resp_number(b: Seq<u8>, pos: int) -> Option<(int, int)> {
    let e = digits_end(b, pos);
    if 0 <= pos < e && e + 1 < b.len() && b[e] == 13 && b[e + 1] == 10 && digits_value(b, pos, e)
        <= b.len() {
        Some((digits_value(b, pos, e), e + 2))
    } else {
        None
    }
}

/// A bulk string at `pos` (`$<length>\r\n<bytes>\r\n`): its bytes and the position
/// after it.
pub open spec fn resp_bulk(b: Seq<u8>, pos: int) -> Option<(Seq<u8>, int)> {
    if 0 <= pos < b.len() && b[pos] == 36 {
        match resp_number(b, pos + 1) {
            Some((n, p)) => if p + n + 2 <= b.len() && b[p + n] == 13 && b[p + n + 1] == 10 {
                Some((b.subrange(p, p + n), p + n + 2))
            } else {
                None
            },
            None => None,
        }
    } else {
        None
    }
}

/// `count` bulk strings one after the other from `pos`.
pub open spec fn resp_bulks(b: Seq<u8>, pos: int, count: nat) -> Option<Seq<Seq<u8>>>
    decreases count,
{
    if count == 0 {
        Some(Seq::empty())
    } else {
        match resp_bulk(b, pos) {
            Some((w, p)) => match resp_bulks(b, p, (count - 1) as nat) {
                Some(ws) => Some(seq![w] + ws),
                None => None,
            },
            None => None,
        }
    }
}

/// The bulk strings of a RESP array at the start of `b`
/// (`*<count>\r\n` and `count` bulk strings); what follows the array is not read.
pub open spec fn resp_array(b: Seq<u8>) -> Option<Seq<Seq<u8>>> {
    if b.len() > 0 && b[0] == 42 {
        match resp_number(b, 1) {
            Some((n, p)) => resp_bulks(b, p, n as nat),
            None => None,
        }
    } else {
        None
    }
}

proof fn lemma_digits_end_skip(b: Seq<u8>, pos: int, i: int)
    requires
        0 <= pos <= i <= b.len(),
        forall|j: int| pos <= j < i ==> is_digit(#[trigger] b[j]),
    ensures
        digits_end(b, pos) == digits_end(b, i),
        digits_end(b, i) >= i,
    decreases i - pos,
{
    if pos < i {
        lemma_digits_end_skip(b, pos + 1, i);
    } else {
        lemma_digits_end_at_least(b, i);
    }
}

proof fn lemma_digits_end_at_least(b: Seq<u8>, pos: int)
    requires
        0 <= pos,
    ensures
        digits_end(b, pos) >= pos,
        digits_end(b, pos) <= b.len() || digits_end(b, pos) == pos,
        forall|j: int| pos <= j < digits_end(b, pos) ==> is_digit(#[trigger] b[j]),
    decreases b.len() - pos,
{
    if pos >= b.len() || !is_digit(b[pos]) {
    } else {
        lemma_digits_end_at_least(b, pos + 1);
    }
}

proof fn lemma_digits_value_grows(b: Seq<u8>, pos: int, i: int, e: int)
    requires
        pos <= i <= e,
        forall|j: int| pos <= j < e ==> is_digit(#[trigger] b[j]),
    ensures
        digits_value(b, pos, i) <= digits_value(b, pos, e),
        digits_value(b, pos, i) >= 0,
    decreases e - i,
{
    if i < e {
        lemma_digits_value_grows(b, pos, i, e - 1);
        lemma_digits_value_grows(b, pos, e - 1, e - 1);
    } else {
        lemma_digits_value_nonneg(b, pos, i);
    }
}

proof fn lemma_digits_value_nonneg(b: Seq<u8>, pos: int, e: int)
    requires
        forall|j: int| pos <= j < e ==> is_digit(#[trigger] b[j]),
    ensures
        digits_value(b, pos, e) >= 0,
    decreases e - pos,
{
    if e > pos {
        lemma_digits_value_nonneg(b, pos, e - 1);
    }
}

/// Reads the number `resp_number` describes at `pos`.
fn read_number(b: &[u8], pos: usize) -> (r: Option<(usize, usize)>)
    requires
        pos <= b@.len(),
    ensures
        match r {
            Some((v, next)) => resp_number(b@, pos as int) == Some((v as int, next as int)),
            None => resp_number(b@, pos as int) is None,
        },
{
    let len = b.len();
    let mut i = pos;
    let mut acc: u128 = 0;
    while i < len && 48 <= b[i] && b[i] <= 57
        invariant
            pos <= i <= len,
            len == b@.len(),
            acc as int == digits_value(b@, pos as int, i as int),
            acc <= len,
            forall|j: int| pos <= j < i ==> is_digit(#[trigger] b@[j]),
        decreases len - i,
    {
        acc = acc * 10 + (b[i] - 48) as u128;
        i = i + 1;
        if acc > len as u128 {
            proof {
                lemma_digits_end_skip(b@, pos as int, i as int);
                lemma_digits_end_at_least(b@, pos as int);
                lemma_digits_value_grows(b@, pos as int, i as int, digits_end(b@, pos as int));
            }
            return None;
        }
    }
    proof {
        lemma_digits_end_skip(b@, pos as int, i as int);
    }
    if pos < i && i < len && len - i >= 2 && b[i] == 13 && b[i + 1] == 10 {
        Some((acc as usize, i + 2))
    } else {
        None
    }
}

/// Reads the bulk string that `resp_bulk` describes at `pos`: the range of its bytes
/// and the position after it.
fn read_bulk(b: &[u8], pos: usize) -> (r: Option<(usize, usize, usize)>)
    requires
        pos <= b@.len(),
    ensures
        match r {
            Some((start, end, next)) => start <= end <= b@.len() && next <= b@.len()
                && resp_bulk(b@, pos as int) == Some((b@.subrange(start as int, end as int), next as int)),
            None => resp_bulk(b@, pos as int) is None,
        },
{
    let len = b.len();
    if pos < len && b[pos] == 36 {
        match read_number(b, pos + 1) {
            Some((n, p)) => {
                if n <= len - p && len - p - n >= 2 && b[p + n] == 13 && b[p + n + 1] == 10 {
                    Some((p, p + n, p + n + 2))
                } else {
                    None
                }
            },
            None => None,
        }
    } else {
        None
    }
}

/// Prepends `done` to the words of `rest`, if there are any.
pub open spec fn prepend_words(done: Seq<Seq<u8>>, rest: Option<Seq<Seq<u8>>>) -> Option<Seq<Seq<u8>>> {
    match rest {
        Some(ws) => Some(done + ws),
        None => None,
    }
}

/// Reads the `count` bulk strings at `pos`, each decoded (lossily) as text.
fn read_bulk_words(b: &[u8], pos: usize, count: usize) -> (r: Option<Vec<String>>)
    requires
        pos <= b@.len(),
    ensures
        match resp_bulks(b@, pos as int, count as nat) {
            Some(ws) => r matches Some(words) && words@.map_values(|w: String| w@) == ws.map_values(
                |w: Seq<u8>| lossy_text(w),
            ),
            None => r is None,
        },
{
    let mut words: Vec<String> = Vec::new();
    let ghost mut done: Seq<Seq<u8>> = Seq::empty();
    let mut p = pos;
    let mut k: usize = 0;
    while k < count
        invariant
            k <= count,
            p <= b@.len(),
            done.len() == k,
            words@.map_values(|w: String| w@) == done.map_values(|w: Seq<u8>| lossy_text(w)),
            resp_bulks(b@, pos as int, count as nat) == prepend_words(
                done,
                resp_bulks(b@, p as int, (count - k) as nat),
            ),
        decreases count - k,
    {
        match read_bulk(b, p) {
            Some((start, end, next)) => {
                let piece = slice_subrange(b, start, end);
                let text = decode_lossy(piece);
                proof {
                    let w = b@.subrange(start as int, end as int);
                    assert(done + (seq![w] + resp_bulks(b@, next as int, (count - k - 1) as nat)->0)
                        =~= (done + seq![w]) + resp_bulks(b@, next as int, (count - k - 1) as nat)->0);
                    assert(words@.push(text).map_values(|w: String| w@) =~= words@.map_values(
                        |w: String| w@,
                    ).push(text@));
                    assert((done + seq![w]).map_values(|w: Seq<u8>| lossy_text(w)) =~= done.map_values(
                        |w: Seq<u8>| lossy_text(w),
                    ).push(lossy_text(w)));
                    done = done + seq![w];
                }
                words.push(text);
                p = next;
                k = k + 1;
            },
            None => {
                return None;
            },
        }
    }
    proof {
        assert(done + Seq::<Seq<u8>>::empty() =~= done);
    }
    Some(words)
}

/// Reads the RESP array that `resp_array` describes, each bulk string decoded
/// (lossily) as text.
fn read_resp_array(b: &[u8]) -> (r: Option<Vec<String>>)
    ensures
        match resp_array(b@) {
            Some(ws) => r matches Some(words) && words@.map_values(|w: String| w@) == ws.map_values(
                |w: Seq<u8>| lossy_text(w),
            ),
            None => r is None,
        },
{
    if b.len() > 0 && b[0] == 42 {
        match read_number(b, 1) {
            Some((n, p)) => read_bulk_words(b, p, n),
            None => None,
        }
    } else {
        None
    }
}

/// The request for the words of a client's message: none is a blank line, otherwise
/// the first word, upper-cased, picks the command.
pub open spec fn request_for_words(words: Seq<Seq<char>>, r: RedisRequest) -> bool {
    if words.len() == 0 {
        r is Blank
    } else {
        request_for(uppercase(words[0]), words, r)
    }
}

/// The request in the bytes a client sent. A message that starts with `*` is a RESP
/// array of bulk strings, as standard Redis clients send, whose strings (decoded
/// lossily) are the words; one that is not well formed is an unknown command. Any
/// other message is an inline command: decoded (lossily) as text and split into
/// words at whitespace.
pub fn parse_request(input: &[u8]) -> (r: RedisRequest)
    ensures
        if input@.len() > 0 && input@[0] == 42 {
            match resp_array(input@) {
                Some(ws) => request_for_words(ws.map_values(|w: Seq<u8>| lossy_text(w)), r),
                None => r is Unknown,
            }
        } else {
            request_for_words(whitespace_words(lossy_text(input@)), r)
        },
{
    let words = if input.len() > 0 && input[0] == 42 {
        match read_resp_array(input) {
            Some(words) => words,
            None => {
                return RedisRequest::Unknown;
            },
        }
    } else {
        let text = decode_lossy(input);
        split_words(text.as_str())
    };
    proof {
        assert(words@.map_values(|w: String| w@).len() == words@.len());
    }
    if words.len() == 0 {
        RedisRequest::Blank
    } else {
        let verb = to_upper(words[0].as_str());
        proof {
            assert(words@.map_values(|w: String| w@)[0] == words@[0]@);
        }
        request_from_words(&verb, &words)
    }
}

// ---------------------------------------------------------------------------
// Replies
// ---------------------------------------------------------------------------

/// `\r\n`
pub open spec fn crlf() -> Seq<char> {
    seq!['\r', '\n']
}

/// The RESP reply carrying `answer`, which is `byte_len` bytes long in UTF-8, in the
/// given style.
pub open spec fn reply_text(style: ReplyStyle, answer: Seq<char>, byte_len: nat) -> Seq<char> {
    match style {
        ReplyStyle::Simple => seq!['+'] + answer + crlf(),
        ReplyStyle::Bulk => seq!['$'] + decimal(byte_len) + crlf() + answer + crlf(),
        ReplyStyle::Integer => seq![':'] + answer + crlf(),
    }
}

/// Writes `answer` as a RESP reply of the given style; a bulk reply states the
/// answer's length in UTF-8 bytes.
pub fn format_reply(style: ReplyStyle, answer: &str) -> (reply: String)
    ensures
        reply@ == reply_text(style, answer@, answer.len() as nat),
{
    proof {
        reveal_strlit("+");
        reveal_strlit("$");
        reveal_strlit(":");
        reveal_strlit("\r\n");
    }
    match style {
        ReplyStyle::Simple => {
            let mut reply = String::from_str("+");
            reply.append(answer);
            reply.append("\r\n");
            assert(reply@ =~= reply_text(style, answer@, answer.len() as nat));
            reply
        },
        ReplyStyle::Bulk => {
            let mut reply = String::from_str("$");
            push_decimal(&mut reply, answer.len() as u64);
            reply.append("\r\n");
            reply.append(answer);
            reply.append("\r\n");
            assert(reply@ =~= reply_text(style, answer@, answer.len() as nat));
            reply
        },
        ReplyStyle::Integer => {
            let mut reply = String::from_str(":");
            reply.append(answer);
            reply.append("\r\n");
            assert(reply@ =~= reply_text(style, answer@, answer.len() as nat));
            reply
        },
    }
}

/// The error reply to an unknown command.
pub open spec fn unknown_command_text() -> Seq<char> {
    seq!['-', 'E', 'R', 'R', ' ', 'u', 'n', 'k', 'n', 'o', 'w', 'n', ' ', 'c', 'o', 'm', 'm', 'a', 'n', 'd', '\r', '\n']
}

/// `-ERR unknown command\r\n`
pub fn unknown_command_reply() -> (reply: String)
    ensures
        reply@ == unknown_command_text(),
{
    proof {
        reveal_strlit("-ERR unknown command\r\n");
    }
    let reply = String::from_str("-ERR unknown command\r\n");
    assert(reply@ =~= unknown_command_text());
    reply
}

// ---------------------------------------------------------------------------
// Reading replies (the interactive client)
// ---------------------------------------------------------------------------

/// Whether `s` holds `\r\n` at position `i`.
pub open spec fn crlf_at(s: Seq<char>, i: int) -> bool {
    0 <= i && i + 1 < s.len() && s[i] == '\r' && s[i + 1] == '\n'
}

/// The first position at or after `from` where `s` holds `\r\n`, or -1.
pub open spec fn find_crlf(s: Seq<char>, from: int) -> int
    decreases s.len() - from,
{
    if from < 0 || from + 1 >= s.len() {
        -1
    } else if crlf_at(s, from) {
        from
    } else {
        find_crlf(s, from + 1)
    }
}

/// The second of the pieces that splitting `s` at every `\r\n` gives, when there
/// are at least two.
pub open spec fn second_line(s: Seq<char>) -> Option<Seq<char>> {
    let a = find_crlf(s, 0);
    if a < 0 {
        None
    } else {
        let b = find_crlf(s, a + 2);
        Some(
            s.subrange(
                a + 2,
                if b < 0 {
                    s.len() as int
                } else {
                    b
                },
            ),
        )
    }
}

/// What the client prints for the reply `r`: for `+`, `:` and `-` replies the rest
/// of the reply trimmed, for `$` replies the line after the header (or the whole
/// reply trimmed when there is no such line), each followed by a newline; anything
/// else as it came.
pub open spec fn rendered_reply(r: Seq<char>) -> Seq<char> {
    if r.len() > 0 && (r[0] == '+' || r[0] == ':' || r[0] == '-') {
        trimmed(r.drop_first()) + seq!['\n']
    } else if r.len() > 0 && r[0] == '$' {
        match second_line(r) {
            Some(line) => line + seq!['\n'],
            None => trimmed(r) + seq!['\n'],
        }
    } else {
        r
    }
}

/// The first position at or after `from` where `s` holds `\r\n`.
fn find_crlf_from(s: &str, len: usize, from: usize) -> (r: Option<usize>)
    requires
        len == s@.len(),
    ensures
        match r {
            Some(i) => i == find_crlf(s@, from as int) && i >= 0,
            None => find_crlf(s@, from as int) == -1,
        },
    decreases len - from,
{
    if from >= len || from + 1 >= len {
        None
    } else if s.get_char(from) == '\r' && s.get_char(from + 1) == '\n' {
        Some(from)
    } else {
        find_crlf_from(s, len, from + 1)
    }
}

proof fn lemma_find_crlf_range(s: Seq<char>, from: int)
    ensures
        find_crlf(s, from) == -1 || (from <= find_crlf(s, from) && find_crlf(s, from) + 1 < s.len()),
    decreases s.len() - from,
{
    if from < 0 || from + 1 >= s.len() {
    } else if crlf_at(s, from) {
    } else {
        lemma_find_crlf_range(s, from + 1);
    }
}

/// The text the interactive client prints for the bytes of a reply: the bytes are
/// decoded (lossily) and rendered as `rendered_reply` says.
pub fn render_reply(reply: &[u8]) -> (out: String)
    ensures
        out@ == rendered_reply(lossy_text(reply@)),
{
    proof {
        reveal_strlit("\n");
    }
    let text = decode_lossy(reply);
    let response = text.as_str();
    let len = response.unicode_len();
    if len > 0 {
        let first = response.get_char(0);
        if first == '+' || first == ':' || first == '-' {
            let rest = response.substring_char(1, len);
            assert(rest@ =~= response@.drop_first());
            let mut out = trim_text(rest);
            out.append("\n");
            return out;
        }
        if first == '$' {
            match find_crlf_from(response, len, 0) {
                Some(a) => {
                    proof {
                        lemma_find_crlf_range(response@, 0);
                        lemma_find_crlf_range(response@, a + 2);
                    }
                    let end = match find_crlf_from(response, len, a + 2) {
                        Some(b) => b,
                        None => len,
                    };
                    let mut out = response.substring_char(a + 2, end).to_string();
                    out.append("\n");
                    return out;
                },
                None => {
                    let mut out = trim_text(response);
                    out.append("\n");
                    return out;
                },
            }
        }
    }
    response.to_string()
}

/// What the interactive client does with a line typed at its prompt.
#[derive(Debug)]
pub enum CliLine {
    /// Nothing but whitespace: prompt again.
    Blank,
    /// `EXIT` or `QUIT` (in any case): leave, after recording the line in the history.
    Quit(String),
    /// `HELP` (in any case): list the commands, after recording the line in the history.
    Help(String),
    /// Anything else: record it in the history and send it to the server.
    Send(String),
}

/// How the interactive client treats `line`: the line is trimmed; an empty line is
/// skipped, and the trimmed line in upper case picks quitting or help.
pub fn classify_cli_line(line: &str) -> (r: CliLine)
    ensures
        ({
            let t = trimmed(line@);
            let up = uppercase(t);
            if t.len() == 0 {
                r is Blank
            } else if up == seq!['E', 'X', 'I', 'T'] || up == seq!['Q', 'U', 'I', 'T'] {
                r matches CliLine::Quit(s) && s@ == t
            } else if up == seq!['H', 'E', 'L', 'P'] {
                r matches CliLine::Help(s) && s@ == t
            } else {
                r matches CliLine::Send(s) && s@ == t
            }
        }),
{
    proof {
        reveal_strlit("EXIT");
        reveal_strlit("QUIT");
        reveal_strlit("HELP");
    }
    let t = trim_text(line);
    if t.as_str().unicode_len() == 0 {
        return CliLine::Blank;
    }
    let up = to_upper(t.as_str());
    let exit_word = String::from_str("EXIT");
    let quit_word = String::from_str("QUIT");
    let help_word = String::from_str("HELP");
    assert(exit_word@ =~= seq!['E', 'X', 'I', 'T']);
    assert(quit_word@ =~= seq!['Q', 'U', 'I', 'T']);
    assert(help_word@ =~= seq!['H', 'E', 'L', 'P']);
    if up == exit_word || up == quit_word {
        CliLine::Quit(t)
    } else if up == help_word {
        CliLine::Help(t)
    } else {
        CliLine::Send(t)
    }
}

} // verus!
