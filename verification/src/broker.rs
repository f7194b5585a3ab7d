//! Channel state: offsets, epochs, history (recovery) and presence. The engine keeps it in the
//! in-memory broker of its node. [`crate::redis`] holds the Redis key layout and the decisions
//! taken on what Redis answers; the server uses Redis only to carry control commands between
//! nodes, so channel state is not shared across nodes.

use vstd::prelude::*;
use std::collections::VecDeque;
use dashmap::DashMap;
use crate::protocol::{
    ClientInfo, ClientInfoModel, Publication, PublicationModel, Push, PushEvent, Reply,
    ReplyPayload, StreamPosition, info_view, pubs_view, presence_view,
};
use crate::strmap::StrMap;
use crate::text::{hex, hex_string};

verus! {

/// What a recovery found: whether the client's gap is covered, the missed publications, and the
/// current position of the stream.
#[derive(Debug)]
pub struct Recovered {
    pub recovered: bool,
    pub publications: Vec<Publication>,
    pub position: StreamPosition,
}

/// The text of a broker failure.
pub open spec fn error_text(e: BrokerError) -> Seq<char> {
    match e {
        BrokerError::Redis(m) => "redis: "@ + m@,
        BrokerError::Decode(m) => "decode: "@ + m@,
    }
}

/// A failure of a broker.
#[derive(Debug, Clone)]
pub enum BrokerError {
    Redis(String),
    Decode(String),
}

impl BrokerError {
    /// The error's text, as its `Display` renders it.
    pub fn message(&self) -> (s: String)
        ensures
            s@ == error_text(*self),
    {
        match self {
            BrokerError::Redis(m) => {
                let mut s = String::from_str("redis: ");
                s.append(m.as_str());
                s
            },
            BrokerError::Decode(m) => {
                let mut s = String::from_str("decode: ");
                s.append(m.as_str());
                s
            },
        }
    }
}

/// An action addressed to the node that owns a connection.
#[derive(Debug, Clone)]
pub enum ControlCommand {
    Disconnect { user: String, client: String, code: u32, reason: String },
    Unsubscribe { user: String, channel: String },
}

/// A push carrying a publication of `channel` (`id = 0`).
pub fn pub_push(channel: &str, publication: Publication) -> (r: Reply)
    ensures
        r.id == 0,
        r.error is None,
        r.payload matches Some(ReplyPayload::Push(p)) && p.channel@ == channel@ && p.event == Some(
            PushEvent::Pub(publication),
        ),
{
    Reply {
        id: 0,
        error: None,
        payload: Some(
            ReplyPayload::Push(
                Push { channel: channel.to_owned(), event: Some(PushEvent::Pub(publication)) },
            ),
        ),
    }
}

/// `std::time::SystemTime::now()` since the Unix epoch, in nanoseconds (0 if the clock is set
/// before the epoch). Nothing is stated of the value: it is the machine's clock.
#[verifier::external_body]
pub(crate) fn unix_nanos() -> u128 {
    std::time::SystemTime::now().duration_since(std::time::UNIX_EPOCH).map(|d| d.as_nanos()).unwrap_or(0)
}

/// `std::time::SystemTime::now()` since the Unix epoch, in seconds (0 if the clock is set before
/// the epoch). Nothing is stated of the value: it is the machine's clock.
#[verifier::external_body]
pub(crate) fn unix_secs() -> u64 {
    std::time::SystemTime::now().duration_since(std::time::UNIX_EPOCH).map(|d| d.as_secs()).unwrap_or(0)
}

/// A fresh epoch: the current time in nanoseconds, in lowercase hexadecimal.
pub fn new_epoch() -> (e: String)
    ensures
        exists|n: nat| e@ == hex(n),
{
    let n = unix_nanos();
    hex_string(n)
}

/// The state of a channel stream as values.
pub struct StreamModel {
    pub offset: u64,
    pub epoch: Seq<char>,
    pub history: Seq<PublicationModel>,
}

/// The history holds the last publications of the stream: consecutive offsets ending at the
/// stream's offset.
pub open spec fn consistent(m: StreamModel) -> bool {
    &&& m.history.len() <= m.offset
    &&& forall|i: int|
        0 <= i < m.history.len() ==> (#[trigger] m.history[i]).offset == m.offset - m.history.len()
            + 1 + i
}

/// The last `n` elements of `s` (all of them when there are fewer).
pub open spec fn keep_last<A>(s: Seq<A>, n: nat) -> Seq<A> {
    if s.len() > n {
        s.skip(s.len() - n)
    } else {
        s
    }
}

/// Whether a publication with this history size and flag goes into the stream (gets an offset
/// and a place in history).
pub open spec fn is_recoverable(history_size: nat, transient: bool) -> bool {
    history_size > 0 && !transient
}

/// A publication as a publish makes it.
pub open spec fn published(
    m: StreamModel,
    data: Seq<u8>,
    info: Option<ClientInfoModel>,
    transient: bool,
    history_size: nat,
) -> PublicationModel {
    PublicationModel {
        data,
        offset: if is_recoverable(history_size, transient) {
            (m.offset + 1) as u64
        } else {
            0
        },
        info,
        tags: Map::empty(),
    }
}

/// The stream after a publish.
pub open spec fn after_publish(
    m: StreamModel,
    data: Seq<u8>,
    info: Option<ClientInfoModel>,
    transient: bool,
    history_size: nat,
) -> StreamModel {
    if is_recoverable(history_size, transient) {
        StreamModel {
            offset: (m.offset + 1) as u64,
            epoch: m.epoch,
            history: keep_last(
                m.history.push(published(m, data, info, transient, history_size)),
                history_size,
            ),
        }
    } else {
        m
    }
}

/// The first `n` elements of `s` (all of them when there are fewer).
pub open spec fn first_n<A>(s: Seq<A>, n: nat) -> Seq<A> {
    if s.len() > n {
        s.take(n as int)
    } else {
        s
    }
}

/// Whether a client that has seen up to `since` misses nothing that history does not hold.
pub open spec fn gap_covered(m: StreamModel, since: u64) -> bool {
    if m.history.len() > 0 {
        m.history[0].offset <= since + 1
    } else {
        m.offset == since
    }
}

/// The publications after `since`, at most `limit` of them, oldest first.
pub open spec fn after_offset(m: StreamModel, since: u64, limit: nat) -> Seq<PublicationModel> {
    first_n(m.history.filter(|p: PublicationModel| p.offset > since), limit)
}

/// The publications in history after `since`, all of them.
pub open spec fn missed(m: StreamModel, since: u64) -> Seq<PublicationModel> {
    m.history.filter(|p: PublicationModel| p.offset > since)
}

/// Recovery from `(since_offset, since_epoch)`: `(recovered, publications)`. A position from
/// another epoch cannot be recovered; an empty epoch means "from the start of this stream". The
/// client recovered when history still holds everything after its position and the limit let
/// all of it through.
pub open spec fn recover_spec(
    m: StreamModel,
    since_offset: u64,
    since_epoch: Seq<char>,
    limit: nat,
) -> (bool, Seq<PublicationModel>) {
    if since_epoch.len() != 0 && since_epoch != m.epoch {
        (false, Seq::empty())
    } else {
        (
            gap_covered(m, since_offset) && missed(m, since_offset).len() <= limit,
            after_offset(m, since_offset, limit),
        )
    }
}

/// A channel stream: its offset (the number of publications it has numbered), its epoch, and
/// its recent history.
#[derive(Debug)]
pub struct Stream {
    offset: u64,
    epoch: String,
    history: VecDeque<Publication>,
}

impl View for Stream {
    type V = StreamModel;

    closed spec fn view(&self) -> StreamModel {
        StreamModel { offset: self.offset, epoch: self.epoch@, history: pubs_view(self.history@) }
    }
}

impl Stream {
    #[verifier::type_invariant]
    closed spec fn inv(self) -> bool {
        consistent(self@)
    }

    /// A new stream with no publications.
    pub fn new(epoch: String) -> (s: Self)
        ensures
            s@.offset == 0,
            s@.epoch == epoch@,
            s@.history == Seq::<PublicationModel>::empty(),
    {
        let s = Stream { offset: 0, epoch, history: VecDeque::new() };
        assert(pubs_view(s.history@) =~= Seq::<PublicationModel>::empty());
        s
    }

    /// Every stream keeps its history consistent.
    pub fn lemma_consistent(&self)
        ensures
            consistent(self@),
    {
        proof {
            use_type_invariant(self);
        }
    }

    /// The current position.
    pub fn position(&self) -> (p: StreamPosition)
        ensures
            p.offset == self@.offset,
            p.epoch@ == self@.epoch,
    {
        StreamPosition { offset: self.offset, epoch: self.epoch.clone() }
    }

    /// Publishes `data`: a recoverable publication (history size above zero, not transient)
    /// gets the next offset and goes into history, which keeps the last `history_size` of them;
    /// any other publication gets offset 0 and leaves the stream unchanged.
    pub fn publish(
        &mut self,
        data: Vec<u8>,
        info: Option<ClientInfo>,
        transient: bool,
        history_size: usize,
    ) -> (p: Publication)
        requires
            is_recoverable(history_size as nat, transient) ==> old(self)@.offset < u64::MAX,
        ensures
            p@ == published(old(self)@, data@, info_view(info), transient, history_size as nat),
            final(self)@ == after_publish(
                old(self)@,
                data@,
                info_view(info),
                transient,
                history_size as nat,
            ),
    {
        proof {
            use_type_invariant(&*self);
        }
        let ghost m = self@;
        let recoverable = history_size > 0 && !transient;
        let offset = if recoverable {
            self.offset + 1
        } else {
            0
        };
        let publication = Publication { data, offset, info, tags: StrMap::new() };
        assert(publication.tags@.map_values(|s: String| s@) =~= Map::<Seq<char>, Seq<char>>::empty());
        if recoverable {
            let mut hist: VecDeque<Publication> = VecDeque::new();
            std::mem::swap(&mut hist, &mut self.history);
            hist.push_back(publication.clone());
            let ghost full = pubs_view(hist@);
            assert(full =~= m.history.push(publication@));
            let mut dropped: usize = 0;
            let initial_len = hist.len();
            assert(full.len() == hist@.len());
            assert(initial_len as int == hist@.len());
            while hist.len() > history_size
                invariant
                    pubs_view(hist@) == full.skip(dropped as int),
                    hist@.len() + dropped == full.len(),
                    full.len() <= usize::MAX,
                    dropped == 0 || hist@.len() >= history_size,
                    history_size > 0,
                decreases hist@.len(),
            {
                let ghost before = hist@;
                let _ = hist.pop_front();
                assert(hist@ =~= before.subrange(1, before.len() as int));
                assert(pubs_view(hist@) =~= full.skip(dropped as int + 1)) by {
                    assert forall|j: int| 0 <= j < hist@.len() implies pubs_view(hist@)[j] == full.skip(dropped as int + 1)[j] by {
                        assert(pubs_view(hist@)[j] == hist@[j]@);
                        assert(hist@[j] == before[j + 1]);
                        assert(pubs_view(before)[j + 1] == before[j + 1]@);
                        assert(pubs_view(before)[j + 1] == full.skip(dropped as int)[j + 1]);
                    }
                }
                dropped = dropped + 1;
            }
            assert(pubs_view(hist@) =~= keep_last(full, history_size as nat)) by {
                if full.len() > history_size {
                    assert(dropped == full.len() - history_size);
                } else {
                    assert(dropped == 0);
                    assert(full.skip(0) =~= full);
                }
            }
            self.offset = offset;
            let ghost kept = pubs_view(hist@);
            assert(consistent(StreamModel { offset, epoch: m.epoch, history: kept })) by {
                assert forall|i: int| 0 <= i < kept.len() implies (#[trigger] kept[i]).offset
                    == offset - kept.len() + 1 + i by {
                    let j = i + (full.len() - kept.len());
                    assert(kept[i] == full[j]);
                    if j < m.history.len() {
                        assert(full[j] == m.history[j]);
                    }
                }
            }
            self.history = hist;
        }
        publication
    }

    /// Recovery for a client that has seen up to `since` (see [`recover_spec`]).
    pub fn recover(&self, since: &StreamPosition, limit: usize) -> (r: Recovered)
        ensures
            r.position.offset == self@.offset,
            r.position.epoch@ == self@.epoch,
            (r.recovered, pubs_view(r.publications@)) == recover_spec(
                self@,
                since.offset,
                since.epoch@,
                limit as nat,
            ),
    {
        proof {
            use_type_invariant(self);
        }
        let position = self.position();
        if !since.epoch.as_str().is_empty() && since.epoch != self.epoch {
            let publications: Vec<Publication> = Vec::new();
            assert(pubs_view(publications@) =~= Seq::<PublicationModel>::empty());
            return Recovered { recovered: false, publications, position };
        }
        let ghost h = self@.history;
        let ghost pred = |p: PublicationModel| p.offset > since.offset;
        let mut publications: Vec<Publication> = Vec::new();
        let mut i: usize = 0;
        let mut matched: usize = 0;
        let n = self.history.len();
        assert(h.take(0).filter(pred) =~= Seq::<PublicationModel>::empty());
        while i < n
            invariant
                n == h.len(),
                i <= n,
                h == pubs_view(self.history@),
                pred == (|p: PublicationModel| p.offset > since.offset),
                pubs_view(publications@) == first_n(h.take(i as int).filter(pred), limit as nat),
                matched == h.take(i as int).filter(pred).len(),
                matched <= i,
            decreases n - i,
        {
            let p = &self.history[i];
            assert(h[i as int] == p@);
            assert(h.take(i as int + 1) =~= h.take(i as int).push(h[i as int]));
            proof {
                h.take(i as int).lemma_filter_push(h[i as int], pred);
            }
            if p.offset > since.offset {
                if publications.len() < limit {
                    let ghost before = publications@;
                    publications.push(p.clone());
                    assert(pubs_view(publications@) =~= pubs_view(before).push(p@));
                }
                matched = matched + 1;
            }
            i = i + 1;
        }
        assert(h.take(n as int) =~= h);
        let covered = if n > 0 {
            let f = self.history[0].offset;
            assert(h[0].offset == f);
            f == 0 || f - 1 <= since.offset
        } else {
            self.offset == since.offset
        };
        let recovered = covered && matched <= limit;
        Recovered { recovered, publications, position }
    }
}

/// The state of a channel as values.
pub struct ChannelModel {
    pub stream: StreamModel,
    pub presence: Map<Seq<char>, ClientInfoModel>,
}

/// Per-channel state of the in-memory broker.
#[derive(Debug)]
pub struct ChannelState {
    pub stream: Stream,
    pub presence: StrMap<ClientInfo>,
}

impl View for ChannelState {
    type V = ChannelModel;

    open spec fn view(&self) -> ChannelModel {
        ChannelModel { stream: self.stream@, presence: presence_view(self.presence@) }
    }
}

impl ChannelState {
    /// A fresh channel with a new epoch, no publications and nobody present.
    pub fn new() -> (s: Self)
        ensures
            s@.stream.offset == 0,
            exists|n: nat| s@.stream.epoch == hex(n),
            s@.stream.history == Seq::<PublicationModel>::empty(),
            s@.presence == Map::<Seq<char>, ClientInfoModel>::empty(),
    {
        let s = ChannelState { stream: Stream::new(new_epoch()), presence: StrMap::new() };
        assert(presence_view(s.presence@) =~= Map::<Seq<char>, ClientInfoModel>::empty());
        s
    }
}

/// What the broker's channel table holds: channel name to channel state.
pub uninterp spec fn channel_states(m: DashMap<String, ChannelState>) -> Map<Seq<char>, ChannelState>;

/// What the broker's idempotency cache holds: key to the position of the first publish.
pub uninterp spec fn idempotency_entries(m: DashMap<String, StreamPosition>) -> Map<Seq<char>, StreamPosition>;

/// `DashMap::new` for the channel table: an empty map.
#[verifier::external_body]
fn states_new() -> (r: DashMap<String, ChannelState>)
    ensures
        channel_states(r) =~= Map::empty(),
{
    DashMap::new()
}

/// `DashMap::insert` on the channel table: sets the state of `k`; returns the state it replaces.
#[verifier::external_body]
fn states_insert(m: &mut DashMap<String, ChannelState>, k: String, v: ChannelState) -> (r: Option<ChannelState>)
    ensures
        channel_states(*final(m)) == channel_states(*old(m)).insert(k@, v),
        r is Some == channel_states(*old(m)).dom().contains(k@),
        r matches Some(x) ==> x == channel_states(*old(m))[k@],
{
    m.insert(k, v)
}

/// `DashMap::remove` on the channel table: takes out the state of `k`, if any.
#[verifier::external_body]
fn states_remove(m: &mut DashMap<String, ChannelState>, k: &str) -> (r: Option<ChannelState>)
    ensures
        channel_states(*final(m)) == channel_states(*old(m)).remove(k@),
        r is Some == channel_states(*old(m)).dom().contains(k@),
        r matches Some(x) ==> x == channel_states(*old(m))[k@],
{
    m.remove(k).map(|(_, v)| v)
}

/// `DashMap::new` for the idempotency cache: an empty map.
#[verifier::external_body]
fn idem_new() -> (r: DashMap<String, StreamPosition>)
    ensures
        idempotency_entries(r) =~= Map::empty(),
{
    DashMap::new()
}

/// `DashMap::insert` on the idempotency cache.
#[verifier::external_body]
fn idem_insert(m: &mut DashMap<String, StreamPosition>, k: String, v: StreamPosition) -> (r: Option<StreamPosition>)
    ensures
        idempotency_entries(*final(m)) == idempotency_entries(*old(m)).insert(k@, v),
        r is Some == idempotency_entries(*old(m)).dom().contains(k@),
        r matches Some(x) ==> x == idempotency_entries(*old(m))[k@],
{
    m.insert(k, v)
}

/// `DashMap::get` on the idempotency cache, cloning the position found (with the library's
/// `StreamPosition::clone`, which keeps both fields).
#[verifier::external_body]
fn idem_get(m: &DashMap<String, StreamPosition>, k: &str) -> (r: Option<StreamPosition>)
    ensures
        r is Some == idempotency_entries(*m).dom().contains(k@),
        r matches Some(x) ==> x == idempotency_entries(*m)[k@],
{
    m.get(k).map(|v| v.clone())
}

/// What a publish to `ch` did to the channel table, given the position and publication it
/// returned: the stream (created if missing, with some epoch) took the publication, presence and
/// the other channels stayed as they were.
pub open spec fn publish_effect(
    before: Map<Seq<char>, ChannelModel>,
    after: Map<Seq<char>, ChannelModel>,
    ch: Seq<char>,
    data: Seq<u8>,
    info: Option<ClientInfoModel>,
    transient: bool,
    history_size: nat,
    pos: StreamPosition,
    p: PublicationModel,
) -> bool {
    let known = before.dom().contains(ch);
    let m0 = if known {
        before[ch].stream
    } else {
        StreamModel { offset: 0, epoch: after[ch].stream.epoch, history: Seq::empty() }
    };
    &&& p == published(m0, data, info, transient, history_size)
    &&& after[ch].stream == after_publish(m0, data, info, transient, history_size)
    &&& after[ch].presence == (if known { before[ch].presence } else { Map::empty() })
    &&& pos.offset == p.offset
    &&& pos.epoch@ == m0.epoch
    &&& (!known ==> exists|n: nat| after[ch].stream.epoch == hex(n))
    &&& after.dom() == before.dom().insert(ch)
    &&& forall|c: Seq<char>|
        c != ch && #[trigger] before.dom().contains(c) ==> after[c] == before[c]
}

/// Whether a publish to `ch` would number past the largest offset.
pub open spec fn offset_exhausted(chans: Map<Seq<char>, ChannelModel>, ch: Seq<char>, history_size: nat, transient: bool) -> bool {
    is_recoverable(history_size, transient) && chans.dom().contains(ch) && chans[ch].stream.offset == u64::MAX
}

/// The in-memory broker of a single node: channel states and the idempotency cache.
pub struct MemoryBroker {
    states: DashMap<String, ChannelState>,
    idempotency: DashMap<String, StreamPosition>,
}

/// The broker's channels by their models.
pub open spec fn channels_view(m: Map<Seq<char>, ChannelState>) -> Map<Seq<char>, ChannelModel> {
    m.map_values(|s: ChannelState| s@)
}

impl MemoryBroker {
    /// The channel table.
    pub closed spec fn channels(&self) -> Map<Seq<char>, ChannelModel> {
        channels_view(channel_states(self.states))
    }

    /// The idempotency cache.
    pub closed spec fn idempotent(&self) -> Map<Seq<char>, StreamPosition> {
        idempotency_entries(self.idempotency)
    }

    /// An empty broker.
    pub fn new() -> (b: Self)
        ensures
            b.channels() == Map::<Seq<char>, ChannelModel>::empty(),
            b.idempotent() == Map::<Seq<char>, StreamPosition>::empty(),
    {
        let b = MemoryBroker { states: states_new(), idempotency: idem_new() };
        assert(b.channels() =~= Map::<Seq<char>, ChannelModel>::empty());
        b
    }

    /// Takes the state of `channel` out of the table, creating it if missing.
    fn take_state(&mut self, channel: &str) -> (s: ChannelState)
        ensures
            old(self).channels().dom().contains(channel@) ==> s@ == old(self).channels()[channel@],
            !old(self).channels().dom().contains(channel@) ==> {
                &&& s@.stream.offset == 0
                &&& exists|n: nat| s@.stream.epoch == hex(n)
                &&& s@.stream.history == Seq::<PublicationModel>::empty()
                &&& s@.presence == Map::<Seq<char>, ClientInfoModel>::empty()
            },
            final(self).channels() == old(self).channels().remove(channel@),
            final(self).idempotent() == old(self).idempotent(),
    {
        let r = states_remove(&mut self.states, channel);
        assert(self.channels() =~= old(self).channels().remove(channel@));
        match r {
            Some(s) => s,
            None => ChannelState::new(),
        }
    }

    /// Puts the state of `channel` back.
    fn put_state(&mut self, channel: &str, s: ChannelState)
        requires
            !old(self).channels().dom().contains(channel@),
        ensures
            final(self).channels() == old(self).channels().insert(channel@, s@),
            final(self).idempotent() == old(self).idempotent(),
    {
        let _ = states_insert(&mut self.states, channel.to_owned(), s);
        assert(self.channels() =~= old(self).channels().insert(channel@, s@));
    }

    /// The position of `channel`'s stream, creating the stream (with a new epoch) if missing.
    pub fn ensure_epoch(&mut self, channel: &str) -> (p: StreamPosition)
        ensures
            old(self).channels().dom().contains(channel@) ==> {
                &&& final(self).channels() == old(self).channels()
                &&& p.offset == old(self).channels()[channel@].stream.offset
                &&& p.epoch@ == old(self).channels()[channel@].stream.epoch
            },
            !old(self).channels().dom().contains(channel@) ==> {
                &&& p.offset == 0
                &&& exists|n: nat| p.epoch@ == hex(n)
                &&& final(self).channels() == old(self).channels().insert(
                    channel@,
                    ChannelModel {
                        stream: StreamModel {
                            offset: 0,
                            epoch: p.epoch@,
                            history: Seq::empty(),
                        },
                        presence: Map::empty(),
                    },
                )
            },
            final(self).idempotent() == old(self).idempotent(),
    {
        let s = self.take_state(channel);
        let p = s.stream.position();
        self.put_state(channel, s);
        proof {
            if old(self).channels().dom().contains(channel@) {
                assert(self.channels() =~= old(self).channels());
            }
        }
        p
    }

    /// Publishes to `channel` (see [`Stream::publish`]); the stream is created if missing.
    /// Returns the position of the publication (offset 0 when it is not recoverable) and the
    /// publication. The broker delivers nothing itself: its caller fans the publication out to
    /// the local subscribers (see [`crate::api::ApiService::publish`]).
    pub fn publish(
        &mut self,
        channel: &str,
        data: Vec<u8>,
        info: Option<ClientInfo>,
        transient: bool,
        history_size: usize,
    ) -> (r: (StreamPosition, Publication))
        requires
            !offset_exhausted(old(self).channels(), channel@, history_size as nat, transient),
        ensures
            publish_effect(
                old(self).channels(),
                final(self).channels(),
                channel@,
                data@,
                info_view(info),
                transient,
                history_size as nat,
                r.0,
                r.1@,
            ),
            final(self).idempotent() == old(self).idempotent(),
    {
        let mut s = self.take_state(channel);
        let ghost m0 = s@.stream;
        let publication = s.stream.publish(data, info, transient, history_size);
        let position = StreamPosition { offset: publication.offset, epoch: s.stream.position().epoch };
        let delivered = publication.clone();
        self.put_state(channel, s);
        assert(self.channels().dom() =~= old(self).channels().dom().insert(channel@));
        (position, delivered)
    }

    /// Recovery on `channel` (see [`Stream::recover`]). The channel's stream is consistent, so a
    /// recovered answer holds every publication after `since`, each once, in order. A channel
    /// without state counts as recovered, with nothing to deliver and the default position.
    pub fn recover(&mut self, channel: &str, since: &StreamPosition, limit: usize) -> (r: Recovered)
        ensures
            final(self).channels() == old(self).channels(),
            final(self).idempotent() == old(self).idempotent(),
            old(self).channels().dom().contains(channel@) ==> {
                let m = old(self).channels()[channel@].stream;
                &&& r.position.offset == m.offset
                &&& r.position.epoch@ == m.epoch
                &&& (r.recovered, pubs_view(r.publications@)) == recover_spec(
                    m,
                    since.offset,
                    since.epoch@,
                    limit as nat,
                )
                &&& consistent(m)
                &&& r.recovered ==> {
                    &&& r.publications@.len() == if since.offset <= m.offset {
                        m.offset - since.offset
                    } else {
                        0
                    }
                    &&& forall|i: int|
                        0 <= i < r.publications@.len() ==> (#[trigger] r.publications@[i]).offset
                            == since.offset + 1 + i
                }
            },
            !old(self).channels().dom().contains(channel@) ==> {
                &&& r.recovered
                &&& r.publications@.len() == 0
                &&& r.position.offset == 0
                &&& r.position.epoch@ == Seq::<char>::empty()
            },
    {
        let r = states_remove(&mut self.states, channel);
        match r {
            Some(s) => {
                s.stream.lemma_consistent();
                let rec = s.stream.recover(since, limit);
                proof {
                    if rec.recovered {
                        lemma_recovery_has_no_gaps(s.stream@, since.offset, since.epoch@, limit as nat);
                        assert forall|i: int| 0 <= i < rec.publications@.len() implies (#[trigger] rec.publications@[i]).offset
                            == since.offset + 1 + i by {
                            assert(pubs_view(rec.publications@)[i] == rec.publications@[i]@);
                        }
                    }
                }
                let _ = states_insert(&mut self.states, channel.to_owned(), s);
                assert(self.channels() =~= old(self).channels());
                rec
            },
            None => {
                assert(self.channels() =~= old(self).channels());
                Recovered { recovered: true, publications: Vec::new(), position: StreamPosition::default() }
            },
        }
    }

    /// Records `client` as present on `channel` with `info` (the channel is created if
    /// missing). Entries do not expire on a single node.
    pub fn presence_add(&mut self, channel: &str, client: &str, info: ClientInfo, _ttl_secs: u64)
        ensures
            final(self).channels().dom() == old(self).channels().dom().insert(channel@),
            final(self).channels()[channel@].presence == (if old(self).channels().dom().contains(channel@) {
                old(self).channels()[channel@].presence
            } else {
                Map::empty()
            }).insert(client@, info@),
            old(self).channels().dom().contains(channel@) ==> final(self).channels()[channel@].stream
                == old(self).channels()[channel@].stream,
            !old(self).channels().dom().contains(channel@) ==> {
                &&& final(self).channels()[channel@].stream.offset == 0
                &&& final(self).channels()[channel@].stream.history == Seq::<PublicationModel>::empty()
                &&& exists|n: nat| final(self).channels()[channel@].stream.epoch == hex(n)
            },
            forall|c: Seq<char>| c != channel@ && #[trigger] old(self).channels().dom().contains(c) ==> final(self).channels()[c] == old(self).channels()[c],
            final(self).idempotent() == old(self).idempotent(),
    {
        let mut s = self.take_state(channel);
        let ghost before = s@.presence;
        let _ = s.presence.insert(client.to_owned(), info);
        assert(s@.presence =~= before.insert(client@, info@));
        self.put_state(channel, s);
        assert(self.channels().dom() =~= old(self).channels().dom().insert(channel@));
    }

    /// Removes `client` from the presence of `channel` (nothing happens for an unknown channel).
    pub fn presence_remove(&mut self, channel: &str, client: &str)
        ensures
            final(self).channels().dom() == old(self).channels().dom(),
            old(self).channels().dom().contains(channel@) ==> {
                &&& final(self).channels()[channel@].presence == old(self).channels()[channel@].presence.remove(client@)
                &&& final(self).channels()[channel@].stream == old(self).channels()[channel@].stream
            },
            forall|c: Seq<char>| c != channel@ && #[trigger] old(self).channels().dom().contains(c) ==> final(self).channels()[c] == old(self).channels()[c],
            final(self).idempotent() == old(self).idempotent(),
    {
        let r = states_remove(&mut self.states, channel);
        match r {
            Some(mut s) => {
                let ghost before = s@.presence;
                let _ = s.presence.remove(client);
                assert(s@.presence =~= before.remove(client@));
                let _ = states_insert(&mut self.states, channel.to_owned(), s);
                assert(self.channels().dom() =~= old(self).channels().dom());
            },
            None => {
                assert(self.channels() =~= old(self).channels());
            },
        }
    }

    /// The clients present on `channel` (empty for an unknown channel).
    pub fn presence_list(&mut self, channel: &str) -> (r: StrMap<ClientInfo>)
        ensures
            final(self).channels() == old(self).channels(),
            final(self).idempotent() == old(self).idempotent(),
            presence_view(r@) == if old(self).channels().dom().contains(channel@) {
                old(self).channels()[channel@].presence
            } else {
                Map::empty()
            },
    {
        let r = states_remove(&mut self.states, channel);
        match r {
            Some(s) => {
                let list = s.presence.clone();
                assert(presence_view(list@) =~= presence_view(s.presence@));
                let _ = states_insert(&mut self.states, channel.to_owned(), s);
                assert(self.channels() =~= old(self).channels());
                list
            },
            None => {
                assert(self.channels() =~= old(self).channels());
                let list = StrMap::new();
                assert(presence_view(list@) =~= Map::<Seq<char>, ClientInfoModel>::empty());
                list
            },
        }
    }

    /// The offset of `channel`'s stream, if the channel exists.
    pub fn offset_of(&mut self, channel: &str) -> (o: Option<u64>)
        ensures
            final(self).channels() == old(self).channels(),
            final(self).idempotent() == old(self).idempotent(),
            o is Some == old(self).channels().dom().contains(channel@),
            o matches Some(x) ==> x == old(self).channels()[channel@].stream.offset,
    {
        match states_remove(&mut self.states, channel) {
            Some(s) => {
                let o = s.stream.position().offset;
                let _ = states_insert(&mut self.states, channel.to_owned(), s);
                assert(self.channels() =~= old(self).channels());
                Some(o)
            },
            None => {
                assert(self.channels() =~= old(self).channels());
                None
            },
        }
    }

    /// The position remembered for an idempotency key.
    pub fn idempotency_get(&self, key: &str) -> (r: Option<StreamPosition>)
        ensures
            r is Some == self.idempotent().dom().contains(key@),
            r matches Some(p) ==> p == self.idempotent()[key@],
    {
        idem_get(&self.idempotency, key)
    }

    /// Remembers the position of a publish under an idempotency key (no expiry on a single node).
    pub fn idempotency_put(&mut self, key: &str, pos: &StreamPosition, _ttl_secs: u64)
        ensures
            final(self).idempotent() == old(self).idempotent().insert(key@, *pos),
            final(self).channels() == old(self).channels(),
    {
        let _ = idem_insert(&mut self.idempotency, key.to_owned(), pos.clone());
    }
}

// ─── laws of a channel stream ───

/// A position from another epoch is never recovered, and nothing is delivered for it.
pub proof fn lemma_other_epoch_not_recovered(m: StreamModel, since_offset: u64, since_epoch: Seq<char>, limit: nat)
    requires
        since_epoch.len() != 0,
        since_epoch != m.epoch,
    ensures
        recover_spec(m, since_offset, since_epoch, limit) == (false, Seq::<PublicationModel>::empty()),
{
}

/// A publish keeps the history consistent: consecutive offsets ending at the stream's offset.
pub proof fn lemma_publish_keeps_consistency(
    m: StreamModel,
    data: Seq<u8>,
    info: Option<ClientInfoModel>,
    transient: bool,
    history_size: nat,
)
    requires
        consistent(m),
        is_recoverable(history_size, transient) ==> m.offset < u64::MAX,
    ensures
        consistent(after_publish(m, data, info, transient, history_size)),
{
    if is_recoverable(history_size, transient) {
        let p = published(m, data, info, transient, history_size);
        let full = m.history.push(p);
        let kept = keep_last(full, history_size);
        let off = (m.offset + 1) as u64;
        assert forall|i: int| 0 <= i < kept.len() implies (#[trigger] kept[i]).offset == off
            - kept.len() + 1 + i by {
            let j = i + (full.len() - kept.len());
            assert(kept[i] == full[j]);
            if j < m.history.len() {
                assert(full[j] == m.history[j]);
            }
        }
    }
}

/// Offsets of a stream only grow: a recoverable publication gets the next offset, any other one
/// offset 0 and leaves the stream (offset, epoch and history) as it was.
pub proof fn lemma_publish_offsets(
    m: StreamModel,
    data: Seq<u8>,
    info: Option<ClientInfoModel>,
    transient: bool,
    history_size: nat,
)
    requires
        is_recoverable(history_size, transient) ==> m.offset < u64::MAX,
    ensures
        is_recoverable(history_size, transient) ==> {
            &&& published(m, data, info, transient, history_size).offset == m.offset + 1
            &&& after_publish(m, data, info, transient, history_size).offset == m.offset + 1
            &&& after_publish(m, data, info, transient, history_size).epoch == m.epoch
        },
        !is_recoverable(history_size, transient) ==> {
            &&& published(m, data, info, transient, history_size).offset == 0
            &&& after_publish(m, data, info, transient, history_size) == m
        },
{
}

/// History never holds more publications than the history size of the last recoverable publish,
/// and the newest publication is its last element.
pub proof fn lemma_publish_bounds_history(
    m: StreamModel,
    data: Seq<u8>,
    info: Option<ClientInfoModel>,
    history_size: nat,
)
    requires
        history_size > 0,
        m.offset < u64::MAX,
    ensures
        after_publish(m, data, info, false, history_size).history.len() <= history_size,
        after_publish(m, data, info, false, history_size).history.last() == published(
            m,
            data,
            info,
            false,
            history_size,
        ),
{
    let full = m.history.push(published(m, data, info, false, history_size));
    assert(full.last() == published(m, data, info, false, history_size));
    if full.len() > history_size {
        assert(keep_last(full, history_size).last() == full.last());
    }
}

/// The publications after `since` in a consistent history are its last `m.offset - since`
/// entries (none when `since` is at or past the stream's offset), with consecutive offsets from
/// `since + 1`, provided history reaches back to `since + 1`.
proof fn lemma_missed(m: StreamModel, since: u64)
    requires
        consistent(m),
        gap_covered(m, since),
    ensures
        missed(m, since).len() == if since <= m.offset { m.offset - since } else { 0 },
        forall|i: int| 0 <= i < missed(m, since).len() ==> (#[trigger] missed(m, since)[i]).offset
            == since + 1 + i,
{
    let pred = |p: PublicationModel| p.offset > since;
    let h = m.history;
    assert(missed(m, since) == h.filter(pred));
    if since <= m.offset {
        let first = m.offset - h.len() + 1;
        let k = if h.len() == 0 { 0 } else { since + 1 - first };
        assert(0 <= k <= h.len());
        lemma_filter_is_suffix(h, pred, k);
    } else {
        lemma_filter_is_suffix(h, pred, h.len() as int);
        assert(h.skip(h.len() as int) =~= Seq::<PublicationModel>::empty());
    }
}

/// A publish as values: its data, its client info and whether it is transient.
pub type PublishModel = (Seq<u8>, Option<ClientInfoModel>, bool);

/// The stream after publishing each of `ps` in turn with history size `history_size`.
pub open spec fn after_publishes(m: StreamModel, ps: Seq<PublishModel>, history_size: nat) -> StreamModel
    decreases ps.len(),
{
    if ps.len() == 0 {
        m
    } else {
        let l = ps.last();
        after_publish(after_publishes(m, ps.drop_last(), history_size), l.0, l.1, l.2, history_size)
    }
}

/// Whether a publish is not transient.
pub open spec fn kept_kind() -> spec_fn(PublishModel) -> bool {
    |p: PublishModel| !p.2
}

/// Whether `m` is the stream holding, of the recoverable publishes `rec` made so far from a new
/// stream, the last `min(rec.len(), history_size)` in history, numbered consecutively up to
/// `rec.len()`.
pub open spec fn holds_last(m: StreamModel, rec: Seq<PublishModel>, history_size: nat) -> bool {
    let n = rec.len();
    let k = m.history.len();
    &&& m.offset == n
    &&& k == if n < history_size { n } else { history_size }
    &&& forall|i: int|
        0 <= i < k ==> #[trigger] m.history[i] == (PublicationModel {
            data: rec[n - k + i].0,
            offset: (n - k + 1 + i) as u64,
            info: rec[n - k + i].1,
            tags: Map::empty(),
        })
}

/// History over many publishes: after publishing `ps` in turn to a new stream with the same
/// history size `h > 0`, the stream's offset is the number `n` of publishes that were not
/// transient, and its history is exactly the last `min(n, h)` of them, with offsets counting up
/// to `n`; transient publications are never stored, and the epoch stays.
pub proof fn lemma_history_keeps_last(epoch: Seq<char>, ps: Seq<PublishModel>, h: nat)
    requires
        h > 0,
        ps.len() < u64::MAX,
    ensures
        holds_last(
            after_publishes(StreamModel { offset: 0, epoch, history: Seq::empty() }, ps, h),
            ps.filter(kept_kind()),
            h,
        ),
        after_publishes(StreamModel { offset: 0, epoch, history: Seq::empty() }, ps, h).epoch == epoch,
        ps.filter(kept_kind()).len() <= ps.len(),
    decreases ps.len(),
{
    let fresh = StreamModel { offset: 0, epoch, history: Seq::empty() };
    if ps.len() == 0 {
        assert(ps.filter(kept_kind()) =~= Seq::<PublishModel>::empty()) by {
            reveal(Seq::filter);
        }
    } else {
        let init = ps.drop_last();
        let l = ps.last();
        lemma_history_keeps_last(epoch, init, h);
        assert(ps =~= init.push(l));
        init.lemma_filter_push(l, kept_kind());
        let rec0 = init.filter(kept_kind());
        let rec = ps.filter(kept_kind());
        let m0 = after_publishes(fresh, init, h);
        let m1 = after_publishes(fresh, ps, h);
        assert(m1 == after_publish(m0, l.0, l.1, l.2, h));
        if !l.2 {
            assert(rec == rec0.push(l));
            let n = rec.len();
            let newp = published(m0, l.0, l.1, l.2, h);
            let full = m0.history.push(newp);
            let k0 = m0.history.len();
            let k = m1.history.len();
            assert(m1.history == keep_last(full, h));
            assert forall|i: int| 0 <= i < k implies #[trigger] m1.history[i] == (PublicationModel {
                data: rec[n - k + i].0,
                offset: (n - k + 1 + i) as u64,
                info: rec[n - k + i].1,
                tags: Map::empty(),
            }) by {
                let j = i + (full.len() - k);
                assert(m1.history[i] == full[j]);
                if j < k0 {
                    assert(full[j] == m0.history[j]);
                    assert(m0.history[j] == (PublicationModel {
                        data: rec0[rec0.len() - k0 + j].0,
                        offset: (rec0.len() - k0 + 1 + j) as u64,
                        info: rec0[rec0.len() - k0 + j].1,
                        tags: Map::empty(),
                    }));
                    assert(rec[n - k + i] == rec0[rec0.len() - k0 + j]);
                } else {
                    assert(full[j] == newp);
                    assert(rec[n - k + i] == l);
                }
            }
        } else {
            assert(rec == rec0);
        }
    }
}

/// When recovery succeeds: for a consistent stream, a position in its epoch (or none) at most
/// its offset, whose history reaches back to the publication right after the position (its first
/// offset is at most `since + 1`, or it is empty and the position is the stream's offset), and a
/// limit that admits the `offset - since` missed publications, recovery succeeds and delivers
/// exactly offsets `since + 1` to the stream's offset. In particular a client that is caught up
/// (`since` is the stream's offset) recovers with nothing to deliver. And a recovery succeeds
/// only when history reaches back that far.
pub proof fn lemma_recovery_succeeds_exactly(m: StreamModel, since: u64, epoch: Seq<char>, limit: nat)
    requires
        consistent(m),
        epoch.len() == 0 || epoch == m.epoch,
    ensures
        (since <= m.offset && (m.history.len() > 0 ==> m.history[0].offset <= since + 1) && (m.history.len()
            == 0 ==> m.offset == since) && m.offset - since <= limit) ==> {
            &&& recover_spec(m, since, epoch, limit).0
            &&& recover_spec(m, since, epoch, limit).1.len() == m.offset - since
            &&& forall|i: int|
                0 <= i < recover_spec(m, since, epoch, limit).1.len() ==> (#[trigger] recover_spec(
                    m,
                    since,
                    epoch,
                    limit,
                ).1[i]).offset == since + 1 + i
        },
        since == m.offset ==> recover_spec(m, since, epoch, limit) == (true, Seq::<PublicationModel>::empty()),
        recover_spec(m, since, epoch, limit).0 ==> (m.history.len() > 0 ==> m.history[0].offset <= since + 1)
            && (m.history.len() == 0 ==> m.offset == since),
{
    if since == m.offset {
        if m.history.len() > 0 {
            assert(m.history[0].offset == m.offset - m.history.len() + 1);
        }
        assert(gap_covered(m, since));
        lemma_missed(m, since);
        assert(missed(m, since).len() == 0);
        assert(after_offset(m, since, limit) =~= Seq::<PublicationModel>::empty());
        if m.history.len() > 0 {
            assert(m.history[0].offset == m.offset - m.history.len() + 1);
        }
    }
    if since <= m.offset && (m.history.len() > 0 ==> m.history[0].offset <= since + 1) && (m.history.len()
        == 0 ==> m.offset == since) && m.offset - since <= limit {
        assert(gap_covered(m, since));
        lemma_missed(m, since);
        assert(after_offset(m, since, limit) == missed(m, since));
    }
}

/// Recovery without gaps: a client told it recovered gets every publication after its position,
/// in order, each once: offsets `since + 1` up to the stream's offset, nothing missing.
pub proof fn lemma_recovery_has_no_gaps(m: StreamModel, since: u64, epoch: Seq<char>, limit: nat)
    requires
        consistent(m),
        recover_spec(m, since, epoch, limit).0,
    ensures
        recover_spec(m, since, epoch, limit).1.len() == if since <= m.offset { m.offset - since } else { 0 },
        forall|i: int|
            0 <= i < recover_spec(m, since, epoch, limit).1.len() ==> (#[trigger] recover_spec(
                m,
                since,
                epoch,
                limit,
            ).1[i]).offset == since + 1 + i,
{
    lemma_missed(m, since);
    assert(after_offset(m, since, limit) == missed(m, since));
}

/// Recovery is complete: when the client's position is in this epoch, history still holds what
/// follows it, and the limit admits all of it, recovery succeeds.
pub proof fn lemma_recovery_complete(m: StreamModel, since: u64, epoch: Seq<char>, limit: nat)
    requires
        consistent(m),
        epoch.len() == 0 || epoch == m.epoch,
        since <= m.offset,
        gap_covered(m, since),
        m.offset - since <= limit,
    ensures
        recover_spec(m, since, epoch, limit).0,
{
    lemma_missed(m, since);
}

/// Filtering a sequence whose first `k` elements fail the predicate and whose other elements
/// pass it gives the suffix after `k`.
proof fn lemma_filter_is_suffix(h: Seq<PublicationModel>, pred: spec_fn(PublicationModel) -> bool, k: int)
    requires
        0 <= k <= h.len(),
        forall|i: int| 0 <= i < k ==> !pred(#[trigger] h[i]),
        forall|i: int| k <= i < h.len() ==> pred(#[trigger] h[i]),
    ensures
        h.filter(pred) == h.skip(k),
    decreases h.len(),
{
    if h.len() == 0 {
        assert(h.filter(pred) =~= Seq::<PublicationModel>::empty());
        assert(h.skip(k) =~= Seq::<PublicationModel>::empty());
    } else {
        let init = h.drop_last();
        reveal_with_fuel(Seq::filter, 1);
        if k == h.len() {
            lemma_filter_is_suffix(init, pred, k - 1);
            assert(h.filter(pred) == init.filter(pred));
            assert(init.skip(k - 1) =~= Seq::<PublicationModel>::empty());
            assert(h.skip(k) =~= Seq::<PublicationModel>::empty());
        } else {
            lemma_filter_is_suffix(init, pred, k);
            assert(h.filter(pred) == init.filter(pred).push(h.last()));
            assert(h.skip(k) =~= init.skip(k).push(h.last()));
        }
    }
}

} // verus!
