//! The Redis layout of the multi-node broker: key names, pub/sub channel names, the encoding
//! of stream entry ids and of remembered positions, and the decisions taken on what Redis
//! answers (routing of incoming messages, recovery from a range of the history stream, expiry
//! of presence entries). The round trips to Redis themselves are the server's.

use vstd::prelude::*;
use crate::broker::Recovered;
use crate::protocol::{ClientInfo, Publication, PublicationModel, StreamPosition, presence_view};
use crate::strmap::StrMap;
use crate::text::{
    decimal, decimal_string, first_segment, first_segment_spec, parse_u64, parse_u64_spec,
    same_text, split_once, split_once_spec, strip_prefix, lemma_parse_decimal,
    lemma_split_after_decimal,
};

verus! {

/// The script that numbers a publication and appends it to the history stream, atomically:
/// `INCR` the sequence, `XADD` the entry `<offset>-0` (history capped near `ARGV[1]`), and set
/// the epoch if missing. It answers `{offset, epoch}`.
pub const PUBLISH_LUA: &'static str = "
local offset = redis.call('INCR', KEYS[1])
redis.call('XADD', KEYS[2], 'MAXLEN', '~', ARGV[1], offset .. '-0', 'd', ARGV[2])
local epoch = redis.call('GET', KEYS[3])
if not epoch then epoch = ARGV[3]; redis.call('SET', KEYS[3], epoch) end
return {offset, epoch}
";

/// The name of the `kind` key of `channel`: `<prefix>:<kind>:<channel>`.
pub open spec fn key_spec(prefix: Seq<char>, kind: Seq<char>, channel: Seq<char>) -> Seq<char> {
    prefix + ":"@ + kind + ":"@ + channel
}

/// The name of the `kind` key of `channel` under `prefix`.
pub fn key(prefix: &str, kind: &str, channel: &str) -> (k: String)
    ensures
        k@ == key_spec(prefix@, kind@, channel@),
{
    let mut k = prefix.to_owned();
    k.append(":");
    k.append(kind);
    k.append(":");
    k.append(channel);
    k
}

/// The pub/sub channel of the engine channel `channel`.
pub fn data_channel(prefix: &str, channel: &str) -> (k: String)
    ensures
        k@ == key_spec(prefix@, "ch"@, channel@),
{
    key(prefix, "ch", channel)
}

/// The pattern that matches every data channel: `<prefix>:ch:*`.
pub fn data_pattern(prefix: &str) -> (p: String)
    ensures
        p@ == prefix@ + ":ch:*"@,
{
    let mut p = prefix.to_owned();
    p.append(":ch:*");
    p
}

/// The prefix of every data channel: `<prefix>:ch:`.
pub fn data_prefix(prefix: &str) -> (p: String)
    ensures
        p@ == prefix@ + ":ch:"@,
{
    let mut p = prefix.to_owned();
    p.append(":ch:");
    p
}

/// The control channel: `<prefix>:control`.
pub fn control_channel(prefix: &str) -> (p: String)
    ensures
        p@ == prefix@ + ":control"@,
{
    let mut p = prefix.to_owned();
    p.append(":control");
    p
}

/// Where a message that arrived on a pub/sub channel goes.
#[derive(Debug)]
pub enum Incoming {
    /// A control command (its payload is a JSON `ControlCommand`).
    Control,
    /// A reply for the local subscribers of this engine channel.
    Deliver(String),
}

/// The engine channel of the pub/sub channel `full`: its name without the data prefix (the
/// whole name if it lacks the prefix).
pub open spec fn logical_channel(prefix: Seq<char>, full: Seq<char>) -> Seq<char> {
    let strip = prefix + ":ch:"@;
    if strip.len() <= full.len() && full.take(strip.len() as int) == strip {
        full.skip(strip.len() as int)
    } else {
        full
    }
}

/// Routes a message that arrived on the pub/sub channel `full`: the control channel carries
/// commands; any other channel is a data channel, whose engine channel is its name without the
/// data prefix (the whole name if it lacks the prefix).
pub fn route(prefix: &str, full: &str) -> (r: Incoming)
    ensures
        full@ == prefix@ + ":control"@ ==> r is Control,
        full@ != prefix@ + ":control"@ ==> (r matches Incoming::Deliver(ch) && ch@ == logical_channel(
            prefix@,
            full@,
        )),
{
    let control = control_channel(prefix);
    if same_text(full, control.as_str()) {
        return Incoming::Control;
    }
    let strip = data_prefix(prefix);
    match strip_prefix(full, strip.as_str()) {
        Some(logical) => Incoming::Deliver(logical),
        None => Incoming::Deliver(full.to_owned()),
    }
}

/// The id of the history entry of `offset`: `<offset>-0`.
pub open spec fn entry_id_spec(offset: u64) -> Seq<char> {
    decimal(offset as nat) + "-0"@
}

/// The offset of a history entry id: the number before its first `-` (0 if that is no number).
pub open spec fn entry_offset_spec(id: Seq<char>) -> u64 {
    match parse_u64_spec(first_segment_spec(id, '-')) {
        Some(o) => o,
        None => 0,
    }
}

/// The id of the history entry of `offset`.
pub fn entry_id(offset: u64) -> (id: String)
    ensures
        id@ == entry_id_spec(offset),
{
    let mut id = decimal_string(offset as u128);
    id.append("-0");
    id
}

/// The offset of a history entry id.
pub fn entry_offset(id: &str) -> (o: u64)
    ensures
        o == entry_offset_spec(id@),
{
    let head = first_segment(id, '-');
    match parse_u64(head.as_str()) {
        Some(o) => o,
        None => 0,
    }
}

/// An entry id written for an offset reads back as that offset.
pub proof fn lemma_entry_id_round_trip(offset: u64)
    ensures
        entry_offset_spec(entry_id_spec(offset)) == offset,
{
    assert('-' as int == 45);
    assert("-0"@ =~= seq!['-', '0']) by {
        reveal_strlit("-0");
    }
    assert(entry_id_spec(offset) =~= decimal(offset as nat) + seq!['-'] + seq!['0']);
    lemma_split_after_decimal(offset as nat, '-', seq!['0']);
    lemma_parse_decimal(offset);
}

/// The start of a history range strictly after `since`: `(<since>-0`.
pub fn range_start(since: u64) -> (s: String)
    ensures
        s@ == "("@ + entry_id_spec(since),
{
    let mut s = String::from_str("(");
    let id = entry_id(since);
    s.append(id.as_str());
    s
}

/// A position as it is remembered under an idempotency key: `<offset>:<epoch>`.
pub open spec fn encode_position_spec(offset: u64, epoch: Seq<char>) -> Seq<char> {
    decimal(offset as nat) + ":"@ + epoch
}

/// A remembered position read back: split at the first `:`, the offset must be a number.
pub open spec fn decode_position_spec(s: Seq<char>) -> Option<(u64, Seq<char>)> {
    match split_once_spec(s, ':') {
        Some((o, e)) => match parse_u64_spec(o) {
            Some(n) => Some((n, e)),
            None => None,
        },
        None => None,
    }
}

/// Encodes a position for the idempotency cache.
pub fn encode_position(pos: &StreamPosition) -> (s: String)
    ensures
        s@ == encode_position_spec(pos.offset, pos.epoch@),
{
    let mut s = decimal_string(pos.offset as u128);
    s.append(":");
    s.append(pos.epoch.as_str());
    s
}

/// Decodes a position from the idempotency cache (none if the text is not one).
pub fn decode_position(s: &str) -> (r: Option<StreamPosition>)
    ensures
        match r {
            Some(p) => decode_position_spec(s@) == Some((p.offset, p.epoch@)),
            None => decode_position_spec(s@) is None,
        },
{
    match split_once(s, ':') {
        Some((o, e)) => match parse_u64(o.as_str()) {
            Some(n) => Some(StreamPosition { offset: n, epoch: e }),
            None => None,
        },
        None => None,
    }
}

/// A remembered position reads back as itself, whatever its epoch holds.
pub proof fn lemma_position_round_trip(offset: u64, epoch: Seq<char>)
    ensures
        decode_position_spec(encode_position_spec(offset, epoch)) == Some((offset, epoch)),
{
    assert(':' as int == 58);
    assert(":"@ =~= seq![':']) by {
        reveal_strlit(":");
    }
    assert(encode_position_spec(offset, epoch) =~= decimal(offset as nat) + seq![':'] + epoch);
    lemma_split_after_decimal(offset as nat, ':', epoch);
    lemma_parse_decimal(offset);
}

/// The offset stored in the sequence key (0 when the key is missing), as `u64`.
pub fn stored_offset(v: Option<i64>) -> (o: u64)
    ensures
        o == match v {
            Some(x) => x as u64,
            None => 0,
        },
{
    match v {
        Some(x) => #[verifier::truncate] (x as u64),
        None => 0,
    }
}

/// Whether a position from `since_epoch` belongs to another epoch than `epoch` (an empty
/// epoch means "from the start of the current stream").
pub fn epoch_mismatch(since_epoch: &str, epoch: &str) -> (b: bool)
    ensures
        b == (since_epoch@.len() != 0 && since_epoch@ != epoch@),
{
    !since_epoch.is_empty() && !same_text(since_epoch, epoch)
}

/// The recovery answer when the client's epoch is not the stream's: nothing recovered, no
/// publications, the stream's current position.
pub fn epoch_mismatch_answer(current: u64, epoch: String) -> (r: Recovered)
    ensures
        !r.recovered,
        r.publications@.len() == 0,
        r.position.offset == current,
        r.position.epoch@ == epoch@,
{
    let publications: Vec<Publication> = Vec::new();
    Recovered { recovered: false, publications, position: StreamPosition { offset: current, epoch } }
}

/// The recovery answer from the history entries after `since` (id and data of each, oldest
/// first, at most the limit asked), the stream's current offset and epoch: the publications
/// carry the offsets of their ids and no client info; the client recovered when they reach from
/// just after `since` up to the current offset, or, with none, when nothing was published after
/// `since`.
pub fn recovered_from_range(
    entries: Vec<(String, Vec<u8>)>,
    since: u64,
    current: u64,
    epoch: String,
) -> (r: Recovered)
    ensures
        r.position.offset == current,
        r.position.epoch@ == epoch@,
        r.publications@.len() == entries@.len(),
        forall|i: int| 0 <= i < entries@.len() ==> {
            &&& (#[trigger] r.publications@[i])@.offset == entry_offset_spec(entries@[i].0@)
            &&& r.publications@[i]@.data == entries@[i].1@
            &&& r.publications@[i]@.info is None
            &&& r.publications@[i]@.tags == Map::<Seq<char>, Seq<char>>::empty()
        },
        r.recovered == if entries@.len() > 0 {
            &&& entry_offset_spec(entries@[0].0@) <= since + 1
            &&& entry_offset_spec(entries@[entries@.len() - 1].0@) == current
        } else {
            current == since
        },
{
    let mut publications: Vec<Publication> = Vec::new();
    let n = entries.len();
    let mut i: usize = 0;
    while i < n
        invariant
            n == entries@.len(),
            i <= n,
            publications@.len() == i,
            forall|j: int| 0 <= j < i ==> {
                &&& (#[trigger] publications@[j])@.offset == entry_offset_spec(entries@[j].0@)
                &&& publications@[j]@.data == entries@[j].1@
                &&& publications@[j]@.info is None
                &&& publications@[j]@.tags == Map::<Seq<char>, Seq<char>>::empty()
            },
        decreases n - i,
    {
        let offset = entry_offset(entries[i].0.as_str());
        let data = entries[i].1.clone();
        assert(data@ =~= entries@[i as int].1@);
        let tags: StrMap<String> = StrMap::new();
        let p = Publication { data, offset, info: None, tags };
        assert(p@.tags =~= Map::<Seq<char>, Seq<char>>::empty());
        publications.push(p);
        i = i + 1;
    }
    let recovered = if n > 0 {
        let first = publications[0].offset;
        let last = publications[n - 1].offset;
        (first == 0 || first - 1 <= since) && last == current
    } else {
        current == since
    };
    Recovered { recovered, publications, position: StreamPosition { offset: current, epoch } }
}

/// Whether a publication with this history size and flag is numbered and kept in history.
pub fn recoverable(history_size: usize, transient: bool) -> (b: bool)
    ensures
        b == crate::broker::is_recoverable(history_size as nat, transient),
{
    history_size > 0 && !transient
}

/// The time at which a presence entry added at `now` with a lifetime of `ttl_secs` expires.
pub fn presence_expire_at(now: u64, ttl_secs: u64) -> (t: u64)
    requires
        now + ttl_secs <= u64::MAX,
    ensures
        t == now + ttl_secs,
{
    now + ttl_secs
}

/// How long the presence keys of a channel are kept: a minute past the entries' lifetime.
pub fn presence_keep_secs(ttl_secs: u64) -> (k: i64)
    requires
        ttl_secs + 60 <= u64::MAX,
    ensures
        k == (ttl_secs + 60) as i64,
{
    #[verifier::truncate] ((ttl_secs + 60) as i64)
}

/// How long an idempotency key is kept: its lifetime, at least a second.
pub fn idempotency_expiry(ttl_secs: u64) -> (k: u64)
    ensures
        k == if ttl_secs == 0 { 1 } else { ttl_secs },
{
    if ttl_secs == 0 {
        1
    } else {
        ttl_secs
    }
}

/// Position `i` holds the last decoded entry of client `c` among the first `n` of the lists.
pub open spec fn latest_entry(
    live: Seq<String>,
    infos: Seq<Option<ClientInfo>>,
    c: Seq<char>,
    i: int,
    n: int,
) -> bool {
    &&& 0 <= i < n
    &&& live[i]@ == c
    &&& infos[i] is Some
    &&& forall|k: int| i < k < n ==> !(live[k]@ == c && #[trigger] infos[k] is Some)
}

pub open spec fn min_len(a: nat, b: nat) -> int {
    if a < b { a as int } else { b as int }
}

/// The presence of a channel from its live clients (in the order Redis listed them) and what
/// their entries decoded to: each client whose entry decoded is present with its info (a client
/// listed twice keeps its last info).
pub fn presence_from(live: Vec<String>, infos: Vec<Option<ClientInfo>>) -> (m: StrMap<ClientInfo>)
    ensures
        forall|c: Seq<char>| #[trigger] m@.dom().contains(c) <==> exists|i: int|
            0 <= i < live@.len() && i < infos@.len() && live@[i]@ == c && infos@[i] is Some,
        forall|c: Seq<char>, i: int|
            #[trigger] latest_entry(live@, infos@, c, i, min_len(live@.len(), infos@.len()))
                ==> m@[c]@ == infos@[i]->0@,
{
    let mut m: StrMap<ClientInfo> = StrMap::new();
    let n = if live.len() < infos.len() {
        live.len()
    } else {
        infos.len()
    };
    proof {
        assert(m@.dom() =~= Set::<Seq<char>>::empty());
    }
    let mut i: usize = 0;
    while i < n
        invariant
            i <= n,
            n <= live@.len(),
            n <= infos@.len(),
            n == live@.len() || n == infos@.len(),
            forall|c: Seq<char>| #[trigger] m@.dom().contains(c) <==> exists|j: int|
                0 <= j < i && live@[j]@ == c && infos@[j] is Some,
            forall|c: Seq<char>, j: int|
                #[trigger] latest_entry(live@, infos@, c, j, i as int) ==> m@[c]@ == infos@[j]->0@,
        decreases n - i,
    {
        match &infos[i] {
            Some(info) => {
                let _ = m.insert(live[i].clone(), info.clone());
                assert forall|c: Seq<char>, j: int|
                    #[trigger] latest_entry(live@, infos@, c, j, i + 1) implies m@[c]@
                        == infos@[j]->0@ by {
                    if c == live@[i as int]@ {
                        if j < i {
                            assert(infos@[i as int] is Some);
                        }
                    } else {
                        assert(latest_entry(live@, infos@, c, j, i as int));
                    }
                }
                assert forall|c: Seq<char>| #[trigger] m@.dom().contains(c) <==> exists|j: int|
                    0 <= j < i + 1 && live@[j]@ == c && infos@[j] is Some by {
                    if c == live@[i as int]@ {
                        assert(live@[i as int]@ == c && infos@[i as int] is Some);
                    }
                    if exists|j: int| 0 <= j < i + 1 && live@[j]@ == c && infos@[j] is Some {
                        let j = choose|j: int| 0 <= j < i + 1 && live@[j]@ == c && infos@[j] is Some;
                        if j < i {
                            assert(exists|j2: int| 0 <= j2 < i && live@[j2]@ == c && infos@[j2] is Some);
                        }
                    }
                }
            },
            None => {
                assert forall|c: Seq<char>, j: int|
                    #[trigger] latest_entry(live@, infos@, c, j, i + 1) implies m@[c]@
                        == infos@[j]->0@ by {
                    assert(j != i);
                    assert(latest_entry(live@, infos@, c, j, i as int));
                }
                assert forall|c: Seq<char>| #[trigger] m@.dom().contains(c) <==> exists|j: int|
                    0 <= j < i + 1 && live@[j]@ == c && infos@[j] is Some by {
                    if exists|j: int| 0 <= j < i + 1 && live@[j]@ == c && infos@[j] is Some {
                        let j = choose|j: int| 0 <= j < i + 1 && live@[j]@ == c && infos@[j] is Some;
                        assert(j < i);
                        assert(exists|j2: int| 0 <= j2 < i && live@[j2]@ == c && infos@[j2] is Some);
                    }
                }
            },
        }
        i = i + 1;
    }
    m
}

} // verus!
