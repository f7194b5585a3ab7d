//! The single orchestrator of client commands and of the Server API on one node: access
//! checks, channel state in the broker, local routing in the hub, counters and lifecycle events.

use vstd::prelude::*;
use std::sync::Arc;
use tokio::sync::mpsc::Sender;
use crate::auth::{Claims, ClaimsModel, glob_match, glob_matches};
use crate::broker::{
    ChannelModel, MemoryBroker, Recovered, BrokerError, StreamModel, ControlCommand, pub_push,
    published, after_publish, recover_spec, is_recoverable, channels_view, publish_effect,
    offset_exhausted, error_text, consistent, first_n,
};
use crate::config::{Config, NamespaceConfig};
use crate::events::LifecycleEvent;
use crate::hub::{
    ConnHandle, ConnModel, Hub, ClientId, join_push, leave_push, members, claims_opt_view,
    unsubscribe_push, conns_without, index_without, unsub_selected, disconnect_sends,
    disconnect_selected, unsubscribe_sends, fanned_out, fan_out_set, SERVER_UNSUBSCRIBE_CODE,
};
use crate::metrics::{Metrics, bumped};
use crate::namespace::{check, check_spec, Action, Decision, decision_reason, claims_view};
use crate::protocol::{
    ClientInfo, ClientInfoModel, Command, push_view, ConnectRequest, ConnectResult, Error, HistoryRequest,
    HistoryResult, Method, PongResult, PresenceResult, Publication, PublishRequest,
    PublishResult, Reply, ReplyPayload, StreamPosition, SubscribeRequest, SubscribeResult,
    UnsubscribeResult, pubs_view, presence_view, info_view, PublicationModel, PushModel,
    PushEventModel,
};
use crate::strmap::StrMap;
use crate::text::{decimal, decimal_string, views};

verus! {

/// How many publications a recovery or a history read returns by default.
pub const RECOVER_LIMIT: usize = 100;

/// How long a presence entry lives without renewal, in seconds.
pub const PRESENCE_TTL_SECS: u64 = 60;

/// How long an idempotency key is remembered, in seconds.
pub const IDEMPOTENCY_TTL_SECS: u64 = 300;

/// A summary of the node for the Server API `info`.
#[derive(Debug)]
pub struct NodeStats {
    pub node: String,
    pub num_connections: usize,
    pub num_channels: usize,
}

/// The push of publication `p` on `ch`.
pub open spec fn pub_model(ch: Seq<char>, p: PublicationModel) -> PushModel {
    PushModel { channel: ch, event: Some(PushEventModel::Pub(p)) }
}

/// The push announcing that `info` joined `ch`.
pub open spec fn join_model(ch: Seq<char>, info: ClientInfoModel) -> PushModel {
    PushModel { channel: ch, event: Some(PushEventModel::Join(Some(info))) }
}

/// The push announcing that `info` left `ch`.
pub open spec fn leave_model(ch: Seq<char>, info: ClientInfoModel) -> PushModel {
    PushModel { channel: ch, event: Some(PushEventModel::Leave(Some(info))) }
}

/// A lifecycle event as values.
pub struct EventModel {
    pub kind: Seq<char>,
    pub node: Seq<char>,
    pub user: Seq<char>,
    pub client: Seq<char>,
    pub channel: Option<Seq<char>>,
}

pub open spec fn event_view(e: LifecycleEvent) -> EventModel {
    EventModel {
        kind: e.kind@,
        node: e.node@,
        user: e.user@,
        client: e.client@,
        channel: match e.channel {
            Some(c) => Some(c@),
            None => None,
        },
    }
}

/// The client info the engine attaches for a connection: its user and id, no extra data.
pub open spec fn info_model(user: Seq<char>, client: Seq<char>) -> ClientInfoModel {
    ClientInfoModel { user, client, conn_info: Seq::empty(), chan_info: Seq::empty() }
}

/// The user named by claims (empty without a token).
pub open spec fn claims_user(c: Option<ClaimsModel>) -> Seq<char> {
    match c {
        Some(c) => c.sub,
        None => Seq::empty(),
    }
}

/// The claims of a connection (none for an unknown connection).
pub open spec fn conn_claims(conns: Map<Seq<char>, ConnModel>, client: Seq<char>) -> Option<ClaimsModel> {
    if conns.dom().contains(client) {
        conns[client].claims
    } else {
        None
    }
}

/// The subscribers index after `client` leaves `channel`.
pub open spec fn without_member(
    index: Map<Seq<char>, Set<Seq<char>>>,
    channel: Seq<char>,
    client: Seq<char>,
) -> Map<Seq<char>, Set<Seq<char>>> {
    if index.dom().contains(channel) {
        let rest = index[channel].remove(client);
        if rest.is_empty() {
            index.remove(channel)
        } else {
            index.insert(channel, rest)
        }
    } else {
        index
    }
}

/// The connections after `channel` leaves the subscriptions of `client`.
pub open spec fn without_sub(conns: Map<Seq<char>, ConnModel>, client: Seq<char>, channel: Seq<char>) -> Map<Seq<char>, ConnModel> {
    if conns.dom().contains(client) {
        conns.insert(client, ConnModel { subs: conns[client].subs.remove(channel), ..conns[client] })
    } else {
        conns
    }
}

/// The connections after `channel` joins the subscriptions of `client`.
pub open spec fn with_sub(conns: Map<Seq<char>, ConnModel>, client: Seq<char>, channel: Seq<char>) -> Map<Seq<char>, ConnModel> {
    if conns.dom().contains(client) {
        conns.insert(client, ConnModel { subs: conns[client].subs.insert(channel), ..conns[client] })
    } else {
        conns
    }
}

/// The channels after `client` leaves the presence of `channel`.
pub open spec fn without_presence(
    chans: Map<Seq<char>, ChannelModel>,
    channel: Seq<char>,
    client: Seq<char>,
) -> Map<Seq<char>, ChannelModel> {
    if chans.dom().contains(channel) {
        chans.insert(
            channel,
            ChannelModel { presence: chans[channel].presence.remove(client), ..chans[channel] },
        )
    } else {
        chans
    }
}

/// The position of a stream.
pub open spec fn position_is(p: StreamPosition, m: StreamModel) -> bool {
    p.offset == m.offset && p.epoch@ == m.epoch
}

/// A stream as a channel that did not exist is created: no publications, some epoch.
pub open spec fn fresh_stream(m: StreamModel) -> bool {
    m.offset == 0 && m.history == Seq::<crate::protocol::PublicationModel>::empty()
}

/// The subscriber index after `client` leaves every channel in `subs`.
pub open spec fn leave_all(
    index: Map<Seq<char>, Set<Seq<char>>>,
    subs: Set<Seq<char>>,
    client: Seq<char>,
) -> Map<Seq<char>, Set<Seq<char>>> {
    Map::new(
        |c: Seq<char>| index.dom().contains(c) && !(subs.contains(c) && index[c].remove(client).is_empty()),
        |c: Seq<char>| if subs.contains(c) { index[c].remove(client) } else { index[c] },
    )
}

/// The channel table after `client` leaves the presence of every channel in `subs` whose
/// namespace tracks presence.
pub open spec fn presence_leave_all(
    chans: Map<Seq<char>, ChannelModel>,
    subs: Set<Seq<char>>,
    client: Seq<char>,
    cfg: Config,
) -> Map<Seq<char>, ChannelModel> {
    Map::new(
        |c: Seq<char>| chans.dom().contains(c),
        |c: Seq<char>| if subs.contains(c) && cfg.spec_namespace(c).presence {
            ChannelModel { presence: chans[c].presence.remove(client), ..chans[c] }
        } else {
            chans[c]
        },
    )
}

/// How many times `c` occurs in `s`.
pub open spec fn occurrences(s: Seq<Seq<char>>, c: Seq<char>) -> nat {
    s.filter(equals(c)).len()
}

/// The test "is `c`".
pub open spec fn equals(c: Seq<char>) -> spec_fn(Seq<char>) -> bool {
    |x: Seq<char>| x == c
}

/// The offset a channel's stream is at (0 for a channel without a stream).
pub open spec fn start_offset(chans: Map<Seq<char>, ChannelModel>, c: Seq<char>) -> u64 {
    if chans.dom().contains(c) {
        chans[c].stream.offset
    } else {
        0
    }
}

/// A counter after `n` increments.
pub open spec fn bumped_n(v: u64, n: nat) -> u64
    decreases n,
{
    if n == 0 {
        v
    } else {
        bumped(bumped_n(v, (n - 1) as nat))
    }
}

/// A prefix of a sequence holds no more occurrences of a value than the whole, and one more
/// than the shorter prefix when it ends with the value.
proof fn lemma_occurrences_prefix(s: Seq<Seq<char>>, k: int, c: Seq<char>)
    requires
        0 <= k <= s.len(),
    ensures
        occurrences(s.take(k), c) <= occurrences(s, c),
    decreases s.len() - k,
{
    if k < s.len() {
        lemma_occurrences_prefix(s, k + 1, c);
        s.take(k).lemma_filter_push(s[k], equals(c));
        assert(s.take(k + 1) =~= s.take(k).push(s[k]));
    } else {
        assert(s.take(k) =~= s);
    }
}

/// An optional string by its value.
pub open spec fn opt_str(o: Option<&str>) -> Option<Seq<char>> {
    match o {
        Some(s) => Some(s@),
        None => None,
    }
}

/// The user of a connection.
pub open spec fn subs_user(c: ConnModel) -> Seq<char> {
    c.user_id
}

/// The user of a connection (empty for an unknown connection).
pub open spec fn conn_user_id(conns: Map<Seq<char>, ConnModel>, client: Seq<char>) -> Seq<char> {
    if conns.dom().contains(client) {
        conns[client].user_id
    } else {
        Seq::empty()
    }
}

/// The engine of a node. Channel state is in the broker (in memory on a single node); the hub
/// routes locally. Lifecycle events wait in `events` until the server hands them to its sink.
pub struct ApiService {
    pub cfg: Arc<Config>,
    pub hub: Hub,
    pub broker: MemoryBroker,
    pub metrics: Metrics,
    pub events: Vec<LifecycleEvent>,
    pub node: String,
    pub counter: u64,
}

impl ApiService {
    /// The lifecycle events recorded and not yet taken.
    pub open spec fn pending_events(&self) -> Seq<EventModel> {
        self.events@.map_values(|e: LifecycleEvent| event_view(e))
    }

    /// The name of this node.
    pub open spec fn node_name(&self) -> Seq<char> {
        self.node@
    }

    /// The number in the next connection id.
    pub open spec fn next_id(&self) -> u64 {
        self.counter
    }

    /// The namespace policy of a channel.
    pub open spec fn ns(&self, channel: Seq<char>) -> NamespaceConfig {
        (*self.cfg).spec_namespace(channel)
    }

    /// The event `kind` of this node for `user`, `client` and `channel`.
    pub open spec fn event(
        &self,
        kind: Seq<char>,
        user: Seq<char>,
        client: Seq<char>,
        channel: Option<Seq<char>>,
    ) -> EventModel {
        EventModel { kind, node: self.node_name(), user, client, channel }
    }

    /// Whether two states are the same: nothing changed and nothing was handed to a queue.
    pub open spec fn unchanged(&self, other: &ApiService) -> bool {
        &&& self.same_but_sent(other)
        &&& other.hub.sent_log() == self.hub.sent_log()
    }

    /// Whether two states differ at most in what the hub handed to the connections' queues.
    pub open spec fn same_but_sent(&self, other: &ApiService) -> bool {
        &&& other.cfg == self.cfg
        &&& other.hub.conns() == self.hub.conns()
        &&& other.hub.index() == self.hub.index()
        &&& other.broker.channels() == self.broker.channels()
        &&& other.broker.idempotent() == self.broker.idempotent()
        &&& other.metrics == self.metrics
        &&& other.pending_events() == self.pending_events()
        &&& other.node_name() == self.node_name()
        &&& other.next_id() == self.next_id()
    }

    /// What a subscribe of `client` with `req` that returned `r` did, from `self` to `after`.
    pub open spec fn subscribe_post(
        &self,
        after: &ApiService,
        client: Seq<char>,
        req: &SubscribeRequest,
        r: Result<SubscribeResult, Error>,
    ) -> bool {
        let claims = conn_claims(self.hub.conns(), client);
        let decision = check_spec(*self.cfg, claims, req.channel@, Action::Subscribe);
        let ch = req.channel@;
        let ns = self.ns(ch);
        let full = self.subscriber_limit_reached(client, ch);
        &&& r is Err <==> (decision is Some || full)
        &&& r matches Err(e) ==> self.unchanged(after) && if decision is Some {
            e.code == 103 && !e.temporary && Some(e.message@) == decision
        } else {
            e.code == 106 && e.temporary && e.message@ == "subscriber_limit"@
        }
        &&& r matches Ok(res) ==> self.subscribe_ok(after, client, req, claims, ns, res)
    }

    /// Whether `ch` already has as many local subscribers as its namespace allows (a limit of 0
    /// is none), `client` not among them.
    pub open spec fn subscriber_limit_reached(&self, client: Seq<char>, ch: Seq<char>) -> bool {
        let ms = members(self.hub.index(), ch);
        &&& self.ns(ch).max_subscribers > 0
        &&& !ms.contains(client)
        &&& ms.len() >= self.ns(ch).max_subscribers
    }

    /// The effect of a granted subscribe.
    pub open spec fn subscribe_ok(
        &self,
        after: &ApiService,
        client: Seq<char>,
        req: &SubscribeRequest,
        claims: Option<ClaimsModel>,
        ns: NamespaceConfig,
        res: SubscribeResult,
    ) -> bool {
        let ch = req.channel@;
        let st = after.broker.channels()[ch].stream;
        let known = self.broker.channels().dom().contains(ch);
        let present = if known {
            self.broker.channels()[ch].presence
        } else {
            Map::empty()
        };
        let (since_offset, since_epoch) = match req.position {
            Some(p) => (p.offset, p.epoch@),
            None => (0u64, Seq::<char>::empty()),
        };
        &&& after.broker.channels().dom() == self.broker.channels().dom().insert(ch)
        &&& known ==> st == self.broker.channels()[ch].stream
        &&& !known ==> fresh_stream(st)
        &&& after.broker.channels()[ch].presence == if ns.presence {
            present.insert(client, info_model(claims_user(claims), client))
        } else {
            present
        }
        &&& forall|c: Seq<char>|
            c != ch && #[trigger] self.broker.channels().dom().contains(c)
                ==> after.broker.channels()[c] == self.broker.channels()[c]
        &&& after.broker.idempotent() == self.broker.idempotent()
        &&& after.hub.index() == self.hub.index().insert(ch, members(self.hub.index(), ch).insert(client))
        &&& after.hub.conns() == with_sub(self.hub.conns(), client, ch)
        &&& res.recoverable == (ns.history_size > 0)
        &&& res.positioned == (ns.history_size > 0)
        &&& (res.position matches Some(p) && position_is(p, st))
        &&& if req.recover && ns.history_size > 0 {
            (res.recovered, pubs_view(res.publications@)) == recover_spec(
                st,
                since_offset,
                since_epoch,
                RECOVER_LIMIT as nat,
            )
        } else {
            !res.recovered && res.publications@.len() == 0
        }
        &&& after.metrics == (Metrics { subscriptions: bumped(self.metrics.subscriptions), ..self.metrics })
        &&& after.pending_events() == self.pending_events().push(
            self.event("subscribed"@, claims_user(claims), client, Some(ch)),
        )
        &&& if ns.join_leave {
            fanned_out(
                self.hub.sent_log(),
                after.hub,
                ch,
                Some(join_model(ch, info_model(claims_user(claims), client))),
            )
        } else {
            after.hub.sent_log() == self.hub.sent_log()
        }
    }

    /// A service for `cfg` over a hub and a broker; the node name comes from the configuration
    /// and connection ids start at 1.
    pub fn new(cfg: Arc<Config>, hub: Hub, broker: MemoryBroker) -> (s: Self)
        ensures
            s.cfg == cfg,
            s.hub == hub,
            s.broker == broker,
            s.node_name() == cfg.server.node_name@,
            s.next_id() == 1,
            s.pending_events() == Seq::<EventModel>::empty(),
            s.metrics.messages_published == 0,
            s.metrics.subscriptions == 0,
            s.metrics.unsubscriptions == 0,
            s.metrics.connections_opened == 0,
            s.metrics.connections_closed == 0,
    {
        let node = cfg.server.node_name.clone();
        let s = ApiService {
            cfg,
            hub,
            broker,
            metrics: Metrics::default(),
            events: Vec::new(),
            node,
            counter: 1,
        };
        assert(s.pending_events() =~= Seq::<EventModel>::empty());
        s
    }

    /// A single-node service: an empty hub and an empty in-memory broker.
    pub fn in_memory(cfg: Arc<Config>) -> (s: Self)
        ensures
            s.cfg == cfg,
            s.hub.conns() == Map::<Seq<char>, ConnModel>::empty(),
            s.hub.index() == Map::<Seq<char>, Set<Seq<char>>>::empty(),
            s.broker.channels() == Map::<Seq<char>, ChannelModel>::empty(),
            s.broker.idempotent() == Map::<Seq<char>, StreamPosition>::empty(),
            s.node_name() == cfg.server.node_name@,
            s.next_id() == 1,
            s.pending_events() == Seq::<EventModel>::empty(),
    {
        ApiService::new(cfg, Hub::new(), MemoryBroker::new())
    }

    /// Hands over the lifecycle events recorded so far, oldest first.
    pub fn take_events(&mut self) -> (es: Vec<LifecycleEvent>)
        ensures
            es@.map_values(|e: LifecycleEvent| event_view(e)) == old(self).pending_events(),
            final(self).pending_events() == Seq::<EventModel>::empty(),
            final(self).cfg == old(self).cfg,
            final(self).hub == old(self).hub,
            final(self).broker == old(self).broker,
            final(self).metrics == old(self).metrics,
            final(self).node_name() == old(self).node_name(),
            final(self).next_id() == old(self).next_id(),
    {
        let mut es: Vec<LifecycleEvent> = Vec::new();
        std::mem::swap(&mut es, &mut self.events);
        assert(self.pending_events() =~= Seq::<EventModel>::empty());
        es
    }

    fn emit_event(&mut self, kind: &str, user: &str, client: &str, channel: Option<String>)
        ensures
            final(self).pending_events() == old(self).pending_events().push(
                old(self).event(
                    kind@,
                    user@,
                    client@,
                    match channel {
                        Some(c) => Some(c@),
                        None => None,
                    },
                ),
            ),
            final(self).cfg == old(self).cfg,
            final(self).hub == old(self).hub,
            final(self).broker == old(self).broker,
            final(self).metrics == old(self).metrics,
            final(self).node_name() == old(self).node_name(),
            final(self).next_id() == old(self).next_id(),
    {
        let e = LifecycleEvent {
            kind: kind.to_owned(),
            node: self.node.clone(),
            user: user.to_owned(),
            client: client.to_owned(),
            channel,
        };
        let ghost before = self.events@;
        self.events.push(e);
        assert(self.pending_events() =~= before.map_values(|e: LifecycleEvent| event_view(e)).push(
            event_view(e),
        ));
    }

    /// Registers a connection with its claims (none: no token) and its reply queue. Its id is
    /// `<node>-<n>` for the next number `n`.
    pub fn register(&mut self, claims: Option<Claims>, tx: Sender<Reply>) -> (id: String)
        ensures
            id@ == old(self).node_name() + "-"@ + decimal(old(self).next_id() as nat),
            final(self).next_id() == bumped(old(self).next_id()),
            final(self).hub.conns() == old(self).hub.conns().insert(
                id@,
                ConnModel {
                    user_id: claims_user(claims_opt_view(claims)),
                    claims: claims_opt_view(claims),
                    subs: Set::empty(),
                },
            ),
            final(self).hub.index() == old(self).hub.index(),
            final(self).metrics == (Metrics { connections_opened: bumped(old(self).metrics.connections_opened), ..old(self).metrics }),
            final(self).broker == old(self).broker,
            final(self).cfg == old(self).cfg,
            final(self).pending_events() == old(self).pending_events(),
            final(self).node_name() == old(self).node_name(),
    {
        let mut id = self.node.clone();
        id.append("-");
        let n = decimal_string(self.counter as u128);
        id.append(n.as_str());
        self.counter = self.counter.wrapping_add(1);
        let user = match &claims {
            Some(c) => c.sub.clone(),
            None => String::new(),
        };
        let subs: StrMap<()> = StrMap::new();
        let handle = ConnHandle { user_id: user, claims, tx, subs };
        assert(handle@.subs =~= Set::<Seq<char>>::empty());
        self.hub.insert_conn(id.clone(), handle);
        Metrics::inc(&mut self.metrics.connections_opened);
        id
    }

    fn authorize(&self, channel: &str, action: Action, claims: Option<&Claims>) -> (r: Result<(), Error>)
        ensures
            r is Ok <==> check_spec(*self.cfg, claims_view(claims), channel@, action) is None,
            r matches Err(e) ==> e.code == 103 && !e.temporary && Some(e.message@) == check_spec(
                *self.cfg,
                claims_view(claims),
                channel@,
                action,
            ),
    {
        match check(&self.cfg, claims, channel, action) {
            Decision::Allow => Ok(()),
            Decision::Deny(reason) => Err(err(103, reason, false)),
        }
    }

    fn client_info(&self, client_id: &str, claims: Option<&Claims>) -> (i: ClientInfo)
        ensures
            i@ == info_model(claims_user(claims_view(claims)), client_id@),
    {
        let user = match claims {
            Some(c) => c.sub.clone(),
            None => String::new(),
        };
        let i = ClientInfo { user, client: client_id.to_owned(), conn_info: Vec::new(), chan_info: Vec::new() };
        assert(i.conn_info@ =~= Seq::<u8>::empty());
        assert(i.chan_info@ =~= Seq::<u8>::empty());
        i
    }

    /// What an unsubscribe of `client` from `ch` did, from `self` to `after`.
    pub open spec fn unsubscribe_post(&self, after: &ApiService, client: Seq<char>, ch: Seq<char>) -> bool {
        let claims = conn_claims(self.hub.conns(), client);
        &&& after.cfg == self.cfg
        &&& after.hub.index() == without_member(self.hub.index(), ch, client)
        &&& after.hub.conns() == without_sub(self.hub.conns(), client, ch)
        &&& after.broker.channels() == if self.ns(ch).presence {
            without_presence(self.broker.channels(), ch, client)
        } else {
            self.broker.channels()
        }
        &&& after.broker.idempotent() == self.broker.idempotent()
        &&& after.metrics == (Metrics { unsubscriptions: bumped(self.metrics.unsubscriptions), ..self.metrics })
        &&& after.pending_events() == self.pending_events().push(
            self.event("unsubscribed"@, claims_user(claims), client, Some(ch)),
        )
        &&& after.node_name() == self.node_name()
        &&& after.next_id() == self.next_id()
        &&& if self.ns(ch).join_leave {
            fanned_out(
                self.hub.sent_log(),
                after.hub,
                ch,
                Some(leave_model(ch, info_model(claims_user(claims), client))),
            )
        } else {
            after.hub.sent_log() == self.hub.sent_log()
        }
    }

    /// Unsubscribes client `client_id` from `channel`: it stops being a local subscriber, leaves
    /// the presence of the channel (if the namespace tracks presence), and its leave is pushed
    /// to the remaining subscribers (if the namespace announces joins and leaves). Always
    /// succeeds.
    pub fn unsubscribe(&mut self, client_id: &str, channel: &str) -> (r: UnsubscribeResult)
        ensures
            old(self).unsubscribe_post(final(self), client_id@, channel@),
    {
        let claims = self.hub.claims_of(client_id);
        let ghost claims_m = claims_opt_view(claims);
        let _ = self.hub.remove_sub(channel, client_id);
        self.hub.conn_remove_sub(client_id, channel);
        let cfg = self.cfg.clone();
        let ns = cfg.namespace(channel);
        if ns.presence {
            self.broker.presence_remove(channel, client_id);
            assert(self.broker.channels() =~= without_presence(old(self).broker.channels(), channel@, client_id@));
        }
        if ns.join_leave {
            let info = self.client_info(client_id, claims.as_ref());
            self.hub.fan_out(channel, leave_push(channel, info));
        }
        Metrics::inc(&mut self.metrics.unsubscriptions);
        let user = match &claims {
            Some(c) => c.sub.clone(),
            None => String::new(),
        };
        assert(user@ == claims_user(claims_m));
        self.emit_event("unsubscribed", user.as_str(), client_id, Some(channel.to_owned()));
        UnsubscribeResult {}
    }

    /// Whether a client publish of `req` could not be numbered (the channel's offset is at its
    /// largest value).
    pub open spec fn publish_exhausted(&self, req: &PublishRequest) -> bool {
        offset_exhausted(
            self.broker.channels(),
            req.channel@,
            self.ns(req.channel@).history_size as nat,
            req.transient,
        )
    }

    /// What a client publish of `req` by `client` that returned `r` did.
    pub open spec fn publish_post(
        &self,
        after: &ApiService,
        client: Seq<char>,
        req: &PublishRequest,
        r: Result<PublishResult, Error>,
    ) -> bool {
        let claims = conn_claims(self.hub.conns(), client);
        let decision = check_spec(*self.cfg, claims, req.channel@, Action::Publish);
        &&& r is Err <==> decision is Some
        &&& r matches Err(e) ==> e.code == 103 && !e.temporary && Some(e.message@) == decision
            && self.unchanged(after)
        &&& r matches Ok(res) ==> {
            &&& res.position is Some
            &&& exists|p: PublicationModel| #![trigger pub_model(req.channel@, p)] {
                &&& publish_effect(
                    self.broker.channels(),
                    after.broker.channels(),
                    req.channel@,
                    req.data@,
                    Some(info_model(claims_user(claims), client)),
                    req.transient,
                    self.ns(req.channel@).history_size as nat,
                    res.position->0,
                    p,
                )
                &&& fanned_out(self.hub.sent_log(), after.hub, req.channel@, Some(pub_model(req.channel@, p)))
            }
            &&& after.broker.idempotent() == self.broker.idempotent()
            &&& after.hub.conns() == self.hub.conns()
            &&& after.hub.index() == self.hub.index()
            &&& after.metrics == (Metrics { messages_published: bumped(self.metrics.messages_published), ..self.metrics })
            &&& after.pending_events() == self.pending_events()
            &&& after.cfg == self.cfg
            &&& after.node_name() == self.node_name()
            &&& after.next_id() == self.next_id()
        }
    }

    /// Publishes `req.data` to `req.channel` from client `client_id`, after the access check;
    /// the publication goes to the local subscribers of the channel.
    pub fn publish(&mut self, client_id: &str, req: &PublishRequest) -> (r: Result<PublishResult, Error>)
        requires
            !old(self).publish_exhausted(req),
        ensures
            old(self).publish_post(final(self), client_id@, req, r),
    {
        let channel = req.channel.as_str();
        let claims = self.hub.claims_of(client_id);
        let claims_ref = claims.as_ref();
        let ghost claims_m = claims_opt_view(claims);
        assert(claims_view(claims_ref) == claims_m);
        match self.authorize(channel, Action::Publish, claims_ref) {
            Ok(()) => {},
            Err(e) => {
                return Err(e);
            },
        }
        let cfg = self.cfg.clone();
        let ns = cfg.namespace(channel);
        let info = self.client_info(client_id, claims_ref);
        let ghost info_m = info@;
        let data = req.data.clone();
        assert(data@ =~= req.data@);
        let (pos, publication) = self.broker.publish(
            channel,
            data,
            Some(info),
            req.transient,
            ns.history_size,
        );
        let ghost pm = publication@;
        self.hub.fan_out(channel, pub_push(channel, publication));
        Metrics::inc(&mut self.metrics.messages_published);
        let res = PublishResult { position: Some(pos) };
        assert(publish_effect(
            old(self).broker.channels(),
            self.broker.channels(),
            req.channel@,
            req.data@,
            Some(info_model(claims_user(claims_m), client_id@)),
            req.transient,
            old(self).ns(req.channel@).history_size as nat,
            res.position->0,
            pm,
        ));
        assert(fanned_out(old(self).hub.sent_log(), self.hub, req.channel@, Some(pub_model(req.channel@, pm))));
        Ok(res)
    }

    /// What a presence query of `client` on `ch` that returned `r` did (nothing) and answered.
    pub open spec fn presence_post(
        &self,
        after: &ApiService,
        client: Seq<char>,
        ch: Seq<char>,
        r: Result<PresenceResult, Error>,
    ) -> bool {
        let decision = check_spec(*self.cfg, conn_claims(self.hub.conns(), client), ch, Action::Presence);
        &&& self.unchanged(after)
        &&& r is Err <==> decision is Some
        &&& r matches Err(e) ==> e.code == 103 && !e.temporary && Some(e.message@) == decision
        &&& r matches Ok(res) ==> presence_view(res.presence@) == if self.broker.channels().dom().contains(ch) {
            self.broker.channels()[ch].presence
        } else {
            Map::empty()
        }
    }

    /// The clients present on `channel`, after the access check.
    pub fn presence(&mut self, client_id: &str, channel: &str) -> (r: Result<PresenceResult, Error>)
        ensures
            old(self).presence_post(final(self), client_id@, channel@, r),
    {
        let claims = self.hub.claims_of(client_id);
        let claims_ref = claims.as_ref();
        assert(claims_view(claims_ref) == claims_opt_view(claims));
        match self.authorize(channel, Action::Presence, claims_ref) {
            Ok(()) => {},
            Err(e) => {
                return Err(e);
            },
        }
        let presence = self.broker.presence_list(channel);
        Ok(PresenceResult { presence })
    }

    /// The publication limit of a history request: its limit when positive, else the default.
    pub open spec fn history_limit(req: &HistoryRequest) -> nat {
        if req.limit > 0 {
            req.limit as nat
        } else {
            RECOVER_LIMIT as nat
        }
    }

    /// What a history query of `client` with `req` that returned `r` did (nothing) and answered:
    /// the oldest publications in history, up to the limit, and the stream position.
    pub open spec fn history_post(
        &self,
        after: &ApiService,
        client: Seq<char>,
        req: &HistoryRequest,
        r: Result<HistoryResult, Error>,
    ) -> bool {
        let ch = req.channel@;
        let decision = check_spec(*self.cfg, conn_claims(self.hub.conns(), client), ch, Action::History);
        &&& self.unchanged(after)
        &&& r is Err <==> decision is Some
        &&& r matches Err(e) ==> e.code == 103 && !e.temporary && Some(e.message@) == decision
        &&& r matches Ok(res) ==> if self.broker.channels().dom().contains(ch) {
            let m = self.broker.channels()[ch].stream;
            &&& pubs_view(res.publications@) == recover_spec(m, 0, Seq::empty(), ApiService::history_limit(req)).1
            &&& (res.position matches Some(p) && position_is(p, m))
        } else {
            &&& res.publications@.len() == 0
            &&& (res.position matches Some(p) && p.offset == 0 && p.epoch@.len() == 0)
        }
    }

    /// The channel's history from the start of the stream, after the access check.
    pub fn history(&mut self, client_id: &str, req: &HistoryRequest) -> (r: Result<HistoryResult, Error>)
        ensures
            old(self).history_post(final(self), client_id@, req, r),
    {
        let claims = self.hub.claims_of(client_id);
        let claims_ref = claims.as_ref();
        assert(claims_view(claims_ref) == claims_opt_view(claims));
        match self.authorize(req.channel.as_str(), Action::History, claims_ref) {
            Ok(()) => {},
            Err(e) => {
                return Err(e);
            },
        }
        let limit: usize = if req.limit > 0 {
            req.limit as usize
        } else {
            RECOVER_LIMIT
        };
        let since = StreamPosition::default();
        let r = self.broker.recover(req.channel.as_str(), &since, limit);
        Ok(HistoryResult { publications: r.publications, position: Some(r.position) })
    }

    /// What a command of `client` that was answered with `r` did, from `self` to `after`: each
    /// method as its own operation states it; a ping is answered with a pong; a second connect
    /// and token refreshes are refused (codes 108 and 109); a command without a method gets no
    /// answer.
    pub open spec fn command_post(&self, after: &ApiService, client: Seq<char>, cmd: Command, r: Option<Reply>) -> bool {
        match cmd.method {
            None => r is None && self.unchanged(after),
            Some(m) => r matches Some(rep) && rep.id == cmd.id && match m {
                Method::Subscribe(req) => match (rep.error, rep.payload) {
                    (None, Some(ReplyPayload::Subscribe(res))) => self.subscribe_post(after, client, &req, Ok(res)),
                    (Some(e), None) => self.subscribe_post(after, client, &req, Err(e)),
                    _ => false,
                },
                Method::Unsubscribe(req) => rep.error is None && (rep.payload matches Some(ReplyPayload::Unsubscribe(_)))
                    && self.unsubscribe_post(after, client, req.channel@),
                Method::Publish(req) => match (rep.error, rep.payload) {
                    (None, Some(ReplyPayload::Publish(res))) => self.publish_post(after, client, &req, Ok(res)),
                    (Some(e), None) => self.publish_post(after, client, &req, Err(e)),
                    _ => false,
                },
                Method::Presence(req) => match (rep.error, rep.payload) {
                    (None, Some(ReplyPayload::Presence(res))) => self.presence_post(after, client, req.channel@, Ok(res)),
                    (Some(e), None) => self.presence_post(after, client, req.channel@, Err(e)),
                    _ => false,
                },
                Method::History(req) => match (rep.error, rep.payload) {
                    (None, Some(ReplyPayload::History(res))) => self.history_post(after, client, &req, Ok(res)),
                    (Some(e), None) => self.history_post(after, client, &req, Err(e)),
                    _ => false,
                },
                Method::Ping(_) => rep.error is None && (rep.payload matches Some(ReplyPayload::Pong(_)))
                    && self.unchanged(after),
                Method::Connect(_) => rep.payload is None && (rep.error matches Some(e) && e.code == 108
                    && e.message@ == "already_connected"@ && !e.temporary) && self.unchanged(after),
                Method::Refresh(_) => rep.payload is None && (rep.error matches Some(e) && e.code == 109
                    && e.message@ == "refresh_not_implemented"@ && !e.temporary) && self.unchanged(after),
                Method::SubRefresh(_) => rep.payload is None && (rep.error matches Some(e) && e.code == 109
                    && e.message@ == "refresh_not_implemented"@ && !e.temporary) && self.unchanged(after),
            },
        }
    }

    /// Whether a command carries a publish that could not be numbered.
    pub open spec fn command_exhausted(&self, cmd: Command) -> bool {
        cmd.method matches Some(Method::Publish(req)) && self.publish_exhausted(&req)
    }

    /// Answers one client command (see [`ApiService::command_post`]).
    pub fn handle_command(&mut self, client_id: &str, cmd: Command) -> (r: Option<Reply>)
        requires
            !old(self).command_exhausted(cmd),
        ensures
            old(self).command_post(final(self), client_id@, cmd, r),
    {
        let ghost cmd0 = cmd;
        let id = cmd.id;
        let method = match cmd.method {
            Some(m) => m,
            None => {
                return None;
            },
        };
        let result: Result<ReplyPayload, Error> = match method {
            Method::Subscribe(req) => match self.subscribe(client_id, &req) {
                Ok(res) => Ok(ReplyPayload::Subscribe(res)),
                Err(e) => Err(e),
            },
            Method::Unsubscribe(req) => Ok(ReplyPayload::Unsubscribe(self.unsubscribe(client_id, req.channel.as_str()))),
            Method::Publish(req) => match self.publish(client_id, &req) {
                Ok(res) => Ok(ReplyPayload::Publish(res)),
                Err(e) => Err(e),
            },
            Method::Presence(req) => match self.presence(client_id, req.channel.as_str()) {
                Ok(res) => Ok(ReplyPayload::Presence(res)),
                Err(e) => Err(e),
            },
            Method::History(req) => match self.history(client_id, &req) {
                Ok(res) => Ok(ReplyPayload::History(res)),
                Err(e) => Err(e),
            },
            Method::Ping(_) => Ok(ReplyPayload::Pong(PongResult {})),
            Method::Connect(_) => Err(err(108, "already_connected", false)),
            Method::Refresh(_) => Err(err(109, "refresh_not_implemented", false)),
            Method::SubRefresh(_) => Err(err(109, "refresh_not_implemented", false)),
        };
        Some(match result {
            Ok(payload) => Reply { id, error: None, payload: Some(payload) },
            Err(error) => Reply { id, error: Some(error), payload: None },
        })
    }

    /// Whether dropping a connection announces its leave on `ch`: the namespace tracks presence
    /// and announces joins and leaves.
    pub open spec fn leaves_on_drop(&self, ch: Seq<char>) -> bool {
        self.ns(ch).presence && self.ns(ch).join_leave
    }

    /// Whether hand-over `e` is the leave push of `client` (of `user`) on one of the channels
    /// `chs` that announce its leave when it drops (see [`ApiService::leaves_on_drop`]), handed
    /// to a connection that the fan-out on that channel targets in `after`.
    pub open spec fn is_leave_of(
        &self,
        after: &ApiService,
        chs: Set<Seq<char>>,
        user: Seq<char>,
        client: Seq<char>,
        e: (Seq<char>, Reply),
    ) -> bool {
        exists|ch: Seq<char>|
            #![trigger chs.contains(ch)]
            chs.contains(ch) && self.leaves_on_drop(ch) && push_view(e.1) == Some(
                leave_model(ch, info_model(user, client)),
            ) && fan_out_set(after.hub.index(), after.hub.conns(), ch).contains(e.0)
    }

    /// Whether the log of `after`, from position `n` on, hands a push saying `m` to `t`.
    pub open spec fn handed(after: &ApiService, n: int, t: Seq<char>, m: PushModel) -> bool {
        exists|k: int|
            #![trigger after.hub.sent_log()[k]]
            n <= k < after.hub.sent_log().len() && after.hub.sent_log()[k].0 == t && push_view(
                after.hub.sent_log()[k].1,
            ) == Some(m)
    }

    /// Whether the log of `after`, from position `n` on, holds the leave pushes of `client` (of
    /// `user`) from the channels `chs`: each entry is one of them (see
    /// [`ApiService::is_leave_of`]), and each target of the fan-out in `after` on each channel of
    /// `chs` that announces the leave was handed that channel's leave.
    pub open spec fn leaves_sent(
        &self,
        after: &ApiService,
        n: int,
        chs: Set<Seq<char>>,
        user: Seq<char>,
        client: Seq<char>,
    ) -> bool {
        let log = after.hub.sent_log();
        &&& 0 <= n <= log.len()
        &&& forall|k: int| n <= k < log.len() ==> #[trigger] self.is_leave_of(after, chs, user, client, log[k])
        &&& forall|ch: Seq<char>, t: Seq<char>|
            chs.contains(ch) && self.leaves_on_drop(ch) && #[trigger] fan_out_set(
                after.hub.index(),
                after.hub.conns(),
                ch,
            ).contains(t) ==> ApiService::handed(after, n, t, leave_model(ch, info_model(user, client)))
    }

    /// What dropping connection `client` did, from `self` to `after`.
    pub open spec fn cleanup_post(&self, after: &ApiService, client: Seq<char>) -> bool {
        if self.hub.conns().dom().contains(client) {
            let conn = self.hub.conns()[client];
            &&& after.hub.conns() == self.hub.conns().remove(client)
            &&& after.hub.index() == leave_all(self.hub.index(), conn.subs, client)
            &&& after.broker.channels() == presence_leave_all(self.broker.channels(), conn.subs, client, *self.cfg)
            &&& after.broker.idempotent() == self.broker.idempotent()
            &&& after.metrics == (Metrics { connections_closed: bumped(self.metrics.connections_closed), ..self.metrics })
            &&& after.pending_events() == self.pending_events().push(
                self.event("disconnected"@, conn.user_id, client, None),
            )
            &&& after.hub.sent_log().take(self.hub.sent_log().len() as int) == self.hub.sent_log()
            &&& self.leaves_sent(after, self.hub.sent_log().len() as int, conn.subs, conn.user_id, client)
            &&& after.cfg == self.cfg
            &&& after.node_name() == self.node_name()
            &&& after.next_id() == self.next_id()
        } else {
            self.unchanged(after)
        }
    }

    /// Drops connection `client_id`: it leaves every channel it was subscribed to, and the
    /// presence of those whose namespace tracks presence; its leave is pushed on those that also
    /// announce joins and leaves.
    pub fn cleanup(&mut self, client_id: &str)
        ensures
            old(self).cleanup_post(final(self), client_id@),
    {
        let conn = match self.hub.remove_conn(client_id) {
            Some(c) => c,
            None => {
                assert(self.hub.conns() =~= old(self).hub.conns());
                return;
            },
        };
        Metrics::inc(&mut self.metrics.connections_closed);
        self.emit_event("disconnected", conn.user_id.as_str(), client_id, None);
        let ghost i0 = old(self).hub.index();
        let ghost c0 = old(self).broker.channels();
        let ghost subs = conn@.subs;
        let ghost cl = client_id@;
        let ghost user = conn@.user_id;
        let ghost n0 = old(self).hub.sent_log().len();
        let cfg = self.cfg.clone();
        let channels = conn.subs.keys();
        assert(self.hub.sent_log() == old(self).hub.sent_log());
        assert(self.hub.sent_log().take(n0 as int) =~= old(self).hub.sent_log());
        assert(leave_all(i0, Set::empty(), cl) =~= i0);
        assert(presence_leave_all(c0, Set::empty(), cl, *cfg) =~= c0);
        assert(views(channels@).take(0).to_set() =~= Set::<Seq<char>>::empty());
        let mut i: usize = 0;
        while i < channels.len()
            invariant
                i <= channels@.len(),
                views(channels@).no_duplicates(),
                views(channels@).to_set() == subs,
                cl == client_id@,
                i0 == old(self).hub.index(),
                c0 == old(self).broker.channels(),
                cfg == self.cfg,
                self.hub.index() == leave_all(i0, views(channels@).take(i as int).to_set(), cl),
                self.broker.channels() == presence_leave_all(c0, views(channels@).take(i as int).to_set(), cl, *cfg),
                self.hub.conns() == old(self).hub.conns().remove(cl),
                self.broker.idempotent() == old(self).broker.idempotent(),
                self.metrics == (Metrics { connections_closed: bumped(old(self).metrics.connections_closed), ..old(self).metrics }),
                self.pending_events() == old(self).pending_events().push(
                    old(self).event("disconnected"@, subs_user(conn@), cl, None),
                ),
                self.node_name() == old(self).node_name(),
                self.next_id() == old(self).next_id(),
                conn@.user_id == old(self).hub.conns()[cl].user_id,
                user == conn@.user_id,
                self.cfg == old(self).cfg,
                n0 == old(self).hub.sent_log().len(),
                self.hub.sent_log().take(n0 as int) == old(self).hub.sent_log(),
                old(self).leaves_sent(self, n0 as int, views(channels@).take(i as int).to_set(), user, cl),
            decreases channels@.len() - i,
        {
            let channel = channels[i].as_str();
            let ghost ch = channel@;
            let ghost done = views(channels@).take(i as int).to_set();
            let ghost i1 = self.hub.index();
            let ghost c1 = self.broker.channels();
            let ghost s_prev = *self;
            assert(views(channels@)[i as int] == ch);
            assert(!done.contains(ch)) by {
                if done.contains(ch) {
                    let j = choose|j: int| 0 <= j < i && views(channels@).take(i as int)[j] == ch;
                    assert(views(channels@)[j] == views(channels@)[i as int]);
                }
            }
            assert(views(channels@).take(i as int + 1).to_set() =~= done.insert(ch)) by {
                assert(views(channels@).take(i as int + 1) =~= views(channels@).take(i as int).push(ch));
                views(channels@).take(i as int).lemma_push_to_set_commute(ch);
            }
            let _ = self.hub.remove_sub(channel, client_id);
            proof {
                let target = leave_all(i0, done.insert(ch), cl);
                let now = self.hub.index();
                assert(i1.dom().contains(ch) == i0.dom().contains(ch));
                if i0.dom().contains(ch) {
                    assert(i1[ch] == i0[ch]);
                }
                assert forall|x: Seq<char>| #[trigger] now.dom().contains(x) == target.dom().contains(x) by {
                    if x != ch {
                        assert(now.dom().contains(x) == i1.dom().contains(x));
                        assert(target.dom().contains(x) == i1.dom().contains(x));
                    } else {
                        if i0.dom().contains(ch) {
                            let rest = i0[ch].remove(cl);
                            assert(target.dom().contains(ch) == !rest.is_empty());
                            assert(now.dom().contains(ch) == !rest.is_empty());
                        }
                    }
                }
                assert forall|x: Seq<char>| #[trigger] now.dom().contains(x) implies now[x] == target[x] by {
                    if x != ch {
                        assert(now[x] == i1[x]);
                        assert(target[x] == i1[x]);
                    } else {
                        assert(now[ch] == i0[ch].remove(cl));
                    }
                }
                assert(now =~= target);
            }
            let ns = cfg.namespace(channel);
            if ns.presence {
                self.broker.presence_remove(channel, client_id);
            }
            let ghost s_mid = *self;
            let ghost lm = leave_model(ch, info_model(user, cl));
            assert(*ns == old(self).ns(ch));
            if ns.presence && ns.join_leave {
                let info = ClientInfo {
                    user: conn.user_id.clone(),
                    client: client_id.to_owned(),
                    conn_info: Vec::new(),
                    chan_info: Vec::new(),
                };
                assert(info.conn_info@ =~= Seq::<u8>::empty());
                assert(info.chan_info@ =~= Seq::<u8>::empty());
                let reply = leave_push(channel, info);
                assert(push_view(reply) == Some(lm));
                self.hub.fan_out(channel, reply);
            }
            proof {
                lemma_leaves_step(*old(self), s_prev, s_mid, *self, n0 as int, done, ch, user, cl);
            }
            assert(self.broker.channels() =~= presence_leave_all(c0, done.insert(ch), cl, *cfg));
            i = i + 1;
        }
        assert(views(channels@).take(channels@.len() as int) =~= views(channels@));
        assert(user == old(self).hub.conns()[cl].user_id);
    }

    /// The channels of a connect request that `client` may subscribe to.
    pub open spec fn connect_granted(&self, client: Seq<char>, req: &ConnectRequest) -> Set<Seq<char>> {
        req.subs@.dom().filter(
            |c: Seq<char>|
                check_spec(*self.cfg, conn_claims(self.hub.conns(), client), c, Action::Subscribe) is None
                    && !self.subscriber_limit_reached(client, c),
        )
    }

    /// Whether the subscription of `client` to `c`, asked with `sr` and answered with `res`,
    /// stands in this state: the client is a local subscriber of `c` and has it among its
    /// subscriptions, and the answer carries the position of the stream of `c` and, when
    /// recovery was asked and the channel keeps history, what recovering from `sr`'s position
    /// gives.
    pub open spec fn restored(&self, client: Seq<char>, c: Seq<char>, sr: SubscribeRequest, res: SubscribeResult) -> bool {
        let st = self.broker.channels()[c].stream;
        let ns = self.ns(c);
        let (since_offset, since_epoch) = match sr.position {
            Some(p) => (p.offset, p.epoch@),
            None => (0u64, Seq::<char>::empty()),
        };
        &&& members(self.hub.index(), c).contains(client)
        &&& self.hub.conns().dom().contains(client) ==> self.hub.conns()[client].subs.contains(c)
        &&& self.broker.channels().dom().contains(c)
        &&& res.recoverable == (ns.history_size > 0)
        &&& res.positioned == (ns.history_size > 0)
        &&& (res.position matches Some(p) && position_is(p, st))
        &&& if sr.recover && ns.history_size > 0 {
            (res.recovered, pubs_view(res.publications@)) == recover_spec(
                st,
                since_offset,
                since_epoch,
                RECOVER_LIMIT as nat,
            )
        } else {
            !res.recovered && res.publications@.len() == 0
        }
    }

    /// Completes the connection of `client_id`: restores the subscriptions of `req.subs` (each
    /// under its map key as channel) in one round trip, and answers with the connection's id,
    /// the ping interval and the result of each granted subscription.
    pub fn connect(&mut self, client_id: &str, req: &ConnectRequest) -> (r: ConnectResult)
        ensures
            r.client@ == client_id@,
            r.ping_interval_ms == old(self).cfg.server.ws.ping_interval_ms as u32,
            r.expires_in_s == 0,
            r.data@.len() == 0,
            r.session@.len() == 0,
            r.subs@.dom() == old(self).connect_granted(client_id@, req),
            forall|c: Seq<char>| #[trigger] r.subs@.dom().contains(c) ==> final(self).restored(
                client_id@,
                c,
                req.subs@[c],
                r.subs@[c],
            ),
            final(self).pending_events().len() > 0,
            final(self).pending_events().last() == old(self).event(
                "connected"@,
                conn_user_id(old(self).hub.conns(), client_id@),
                client_id@,
                None,
            ),
            final(self).hub.conns().dom() == old(self).hub.conns().dom(),
            conn_user_id(final(self).hub.conns(), client_id@) == conn_user_id(old(self).hub.conns(), client_id@),
            conn_claims(final(self).hub.conns(), client_id@) == conn_claims(old(self).hub.conns(), client_id@),
            final(self).cfg == old(self).cfg,
            final(self).node_name() == old(self).node_name(),
            final(self).next_id() == old(self).next_id(),
    {
        let ghost claims0 = conn_claims(old(self).hub.conns(), client_id@);
        let ghost user0 = conn_user_id(old(self).hub.conns(), client_id@);
        let ghost granted = old(self).connect_granted(client_id@, req);
        let ghost f = |c: Seq<char>|
            check_spec(*old(self).cfg, claims0, c, Action::Subscribe) is None
                && !old(self).subscriber_limit_reached(client_id@, c);
        let mut subs: StrMap<SubscribeResult> = StrMap::new();
        let n = req.subs.len();
        proof {
            use_type_invariant(&req.subs);
            req.subs.lemma_key_seq_len();
        }
        assert(req.subs.key_seq().take(0).to_set().filter(f) =~= subs@.dom());
        let mut i: usize = 0;
        while i < n
            invariant
                i <= n,
                n == req.subs.key_seq().len(),
                req.subs.key_seq().no_duplicates(),
                req.subs.key_seq().to_set() == req.subs@.dom(),
                f == (|c: Seq<char>|
                    check_spec(*old(self).cfg, claims0, c, Action::Subscribe) is None
                        && !old(self).subscriber_limit_reached(client_id@, c)),
                self.cfg == old(self).cfg,
                conn_claims(self.hub.conns(), client_id@) == claims0,
                conn_user_id(self.hub.conns(), client_id@) == user0,
                self.hub.conns().dom() == old(self).hub.conns().dom(),
                self.node_name() == old(self).node_name(),
                self.next_id() == old(self).next_id(),
                subs@.dom() == req.subs.key_seq().take(i as int).to_set().filter(f),
                forall|c: Seq<char>| #[trigger] subs@.dom().contains(c) ==> self.restored(
                    client_id@,
                    c,
                    req.subs@[c],
                    subs@[c],
                ),
                forall|c: Seq<char>|
                    !req.subs.key_seq().take(i as int).contains(c) ==> #[trigger] members(self.hub.index(), c)
                        == members(old(self).hub.index(), c),
            decreases n - i,
        {
            let (key, v) = req.subs.entry_at(i);
            let position = match &v.position {
                Some(p) => Some(p.clone()),
                None => None,
            };
            let sreq = SubscribeRequest {
                channel: key.clone(),
                token: v.token.clone(),
                recover: v.recover,
                position,
            };
            let ghost before = self.hub.conns();
            let ghost s0 = *self;
            let ghost done = req.subs.key_seq().take(i as int);
            proof {
                assert(!done.contains(key@)) by {
                    if done.contains(key@) {
                        let j = choose|j: int| 0 <= j < i && done[j] == key@;
                        assert(req.subs.key_seq()[j] == req.subs.key_seq()[i as int]);
                    }
                }
                assert(members(self.hub.index(), key@) == members(old(self).hub.index(), key@));
                assert(self.subscriber_limit_reached(client_id@, key@) == old(self).subscriber_limit_reached(client_id@, key@));
            }
            let res = self.subscribe(client_id, &sreq);
            proof {
                assert(req.subs.key_seq().take(i as int + 1) =~= done.push(key@));
                done.lemma_push_to_set_commute(key@);
                assert forall|c: Seq<char>|
                    !req.subs.key_seq().take(i as int + 1).contains(c) implies #[trigger] members(self.hub.index(), c)
                        == members(old(self).hub.index(), c) by {
                    assert(req.subs.key_seq().take(i as int + 1)[i as int] == key@);
                    assert(!done.contains(c)) by {
                        if done.contains(c) {
                            let j = choose|j: int| 0 <= j < i && done[j] == c;
                            assert(req.subs.key_seq().take(i as int + 1)[j] == c);
                        }
                    }
                    assert(c != key@);
                    assert(members(self.hub.index(), c) == members(s0.hub.index(), c));
                }
                assert forall|c: Seq<char>| #[trigger] subs@.dom().contains(c) implies self.restored(
                    client_id@,
                    c,
                    req.subs@[c],
                    subs@[c],
                ) by {
                    if res is Ok {
                        assert(c != key@);
                        assert(s0.broker.channels().dom().contains(c));
                    }
                }
                if res is Ok {
                    assert(conn_claims(with_sub(before, client_id@, key@), client_id@) == conn_claims(before, client_id@));
                    assert(conn_user_id(with_sub(before, client_id@, key@), client_id@) == conn_user_id(before, client_id@));
                    assert(with_sub(before, client_id@, key@).dom() =~= before.dom());
                }
            }
            match res {
                Ok(r) => {
                    proof {
                        assert(sreq.position == v.position);
                        assert(self.restored(client_id@, key@, *v, r));
                    }
                    let _ = subs.insert(key.clone(), r);
                    assert(subs@.dom() =~= req.subs.key_seq().take(i as int + 1).to_set().filter(f));
                },
                Err(_) => {
                    assert(subs@.dom() =~= req.subs.key_seq().take(i as int + 1).to_set().filter(f));
                },
            }
            i = i + 1;
        }
        proof {
            assert(req.subs.key_seq().take(n as int) =~= req.subs.key_seq());
            assert(subs@.dom() =~= granted);
        }
        let user = self.hub.user_of(client_id);
        self.emit_event("connected", user.as_str(), client_id, None);
        let ping = #[verifier::truncate] (self.cfg.server.ws.ping_interval_ms as u32);
        let data: Vec<u8> = Vec::new();
        ConnectResult {
            client: client_id.to_owned(),
            ping_interval_ms: ping,
            expires_in_s: 0,
            data,
            subs,
            session: String::new(),
        }
    }

    /// Subscribes client `client_id` to `req.channel`, after the access check and the check of
    /// the namespace's subscriber limit (error 106, temporary). On success the
    /// channel's stream exists, the client is a local subscriber, it is present (if the
    /// namespace tracks presence), a join is pushed (if the namespace announces joins), and the
    /// result carries the stream position and, when asked and the channel keeps history, the
    /// recovery of what the client missed.
    pub fn subscribe(&mut self, client_id: &str, req: &SubscribeRequest) -> (r: Result<SubscribeResult, Error>)
        ensures
            old(self).subscribe_post(final(self), client_id@, req, r),
            final(self).cfg == old(self).cfg,
            final(self).node_name() == old(self).node_name(),
            final(self).next_id() == old(self).next_id(),
    {
        let channel = req.channel.as_str();
        let claims = self.hub.claims_of(client_id);
        let claims_ref = claims.as_ref();
        let ghost claims_m = claims_opt_view(claims);
        assert(claims_view(claims_ref) == claims_m);
        match self.authorize(channel, Action::Subscribe, claims_ref) {
            Ok(()) => {},
            Err(e) => {
                return Err(e);
            },
        }
        assert(claims_m == conn_claims(old(self).hub.conns(), client_id@));
        let cfg = self.cfg.clone();
        let ns = cfg.namespace(channel);
        if ns.max_subscribers > 0 {
            let (member, count) = self.hub.subscriber_count(channel, client_id);
            if !member && count >= ns.max_subscribers as usize {
                return Err(err(106, "subscriber_limit", true));
            }
        }
        let recoverable = ns.history_size > 0;
        let _ = self.broker.ensure_epoch(channel);
        let ghost b1 = self.broker.channels();
        assert(forall|c: Seq<char>| c != req.channel@ && #[trigger] old(self).broker.channels().dom().contains(c)
            ==> b1.dom().contains(c) && b1[c] == old(self).broker.channels()[c]);
        let _ = self.hub.add_sub(channel, client_id);
        self.hub.conn_add_sub(client_id, channel);
        let info = self.client_info(client_id, claims_ref);
        if ns.presence {
            self.broker.presence_add(channel, client_id, info.clone(), PRESENCE_TTL_SECS);
        }
        if ns.join_leave {
            self.hub.fan_out(channel, join_push(channel, info));
        }
        let ghost b2 = self.broker.channels();
        assert(forall|c: Seq<char>| c != req.channel@ && #[trigger] b1.dom().contains(c)
            ==> b2[c] == b1[c]);
        let ghost st = self.broker.channels()[req.channel@].stream;
        let (recovered, publications, position) = if req.recover && recoverable {
            let since = match &req.position {
                Some(p) => p.clone(),
                None => StreamPosition::default(),
            };
            let r = self.broker.recover(channel, &since, RECOVER_LIMIT);
            (r.recovered, r.publications, r.position)
        } else {
            let pos = self.broker.ensure_epoch(channel);
            let publications: Vec<Publication> = Vec::new();
            (false, publications, pos)
        };
        Metrics::inc(&mut self.metrics.subscriptions);
        let user = match &claims {
            Some(c) => c.sub.clone(),
            None => String::new(),
        };
        assert(user@ == claims_user(claims_m));
        self.emit_event("subscribed", user.as_str(), client_id, Some(req.channel.clone()));
        let res = SubscribeResult {
            recoverable,
            position: Some(position),
            recovered,
            publications,
            positioned: recoverable,
        };
        proof {
            let ch = req.channel@;
            assert(*ns == old(self).ns(ch));
            assert(self.broker.channels().dom() =~= old(self).broker.channels().dom().insert(ch));
            assert(old(self).broker.channels().dom().contains(ch) ==> self.broker.channels()[ch].stream == old(self).broker.channels()[ch].stream);
            assert(!old(self).broker.channels().dom().contains(ch) ==> fresh_stream(self.broker.channels()[ch].stream));
            assert(self.broker.idempotent() == old(self).broker.idempotent());
            assert(self.hub.conns() == with_sub(old(self).hub.conns(), client_id@, ch));
            assert(res.position matches Some(p) && position_is(p, self.broker.channels()[ch].stream));
            assert(self.pending_events() == old(self).pending_events().push(
                old(self).event("subscribed"@, claims_user(claims_m), client_id@, Some(ch))));
            let known = old(self).broker.channels().dom().contains(ch);
            let present = if known { old(self).broker.channels()[ch].presence } else { Map::empty() };
            assert(self.broker.channels()[ch].presence == if old(self).ns(ch).presence {
                present.insert(client_id@, info_model(claims_user(claims_m), client_id@))
            } else {
                present
            });
            assert(forall|c: Seq<char>|
                c != ch && #[trigger] old(self).broker.channels().dom().contains(c)
                    ==> self.broker.channels()[c] == old(self).broker.channels()[c]);
            assert(self.hub.index() == old(self).hub.index().insert(ch, members(old(self).hub.index(), ch).insert(client_id@)));
            assert(res.recoverable == (old(self).ns(ch).history_size > 0));
            assert(self.metrics == (Metrics { subscriptions: bumped(old(self).metrics.subscriptions), ..old(self).metrics }));
            assert(old(self).subscribe_ok(self, client_id@, req, claims_m, old(self).ns(ch), res));
        }
        Ok(res)
    }

    /// The outcome of validating a connection token, as the protocol answers it: the claims,
    /// or error 101 with the validator's message (not temporary).
    pub fn authenticate(&self, validated: Result<Claims, String>) -> (r: Result<Claims, Error>)
        ensures
            match validated {
                Ok(c) => r matches Ok(c2) && c2@ == c@,
                Err(m) => r matches Err(e) && e.code == 101 && e.message@ == m@ && !e.temporary,
            },
    {
        match validated {
            Ok(c) => Ok(c),
            Err(m) => Err(err(101, m.as_str(), false)),
        }
    }

    /// What the connect of a new connection `client` with claims `claims` and request `req`,
    /// answered with `res`, did: the answer names the connection, carries the ping interval
    /// and no expiry, and holds the result of each requested channel that the claims may
    /// subscribe to and whose subscriber limit leaves room, each of which stands in `after`; the
    /// last event recorded is the connection's `connected`.
    pub open spec fn connected(
        &self,
        after: &ApiService,
        client: Seq<char>,
        claims: ClaimsModel,
        req: &ConnectRequest,
        res: ConnectResult,
    ) -> bool {
        &&& res.client@ == client
        &&& res.ping_interval_ms == self.cfg.server.ws.ping_interval_ms as u32
        &&& res.expires_in_s == 0
        &&& res.subs@.dom() == req.subs@.dom().filter(
            |c: Seq<char>|
                check_spec(*self.cfg, Some(claims), c, Action::Subscribe) is None
                    && !self.subscriber_limit_reached(client, c),
        )
        &&& forall|c: Seq<char>| #[trigger] res.subs@.dom().contains(c) ==> after.restored(
            client,
            c,
            req.subs@[c],
            res.subs@[c],
        )
        &&& after.pending_events().len() > 0
        &&& after.pending_events().last() == self.event("connected"@, claims.sub, client, None)
    }

    /// Accepts the first command of a connection, given what validating the token of its
    /// `Connect` gave (see [`connect_token`]). A first command that is no `Connect` gets no
    /// answer and opens nothing. A refused token is answered with error 101 under the command's
    /// id. A valid one registers the connection (with the reply queue `tx`), restores the
    /// requested subscriptions, and is answered with the `ConnectResult`; the new connection's
    /// id is returned too.
    pub fn handshake(&mut self, cmd: Command, validated: Result<Claims, String>, tx: Sender<Reply>) -> (r: (Option<Reply>, Option<String>))
        ensures
            match cmd.method {
                Some(Method::Connect(creq)) => match validated {
                    Err(m) => {
                        &&& r.1 is None
                        &&& old(self).unchanged(final(self))
                        &&& (r.0 matches Some(reply) && reply.id == cmd.id && reply.payload is None
                            && (reply.error matches Some(e) && e.code == 101 && e.message@ == m@
                            && !e.temporary))
                    },
                    Ok(c) => {
                        &&& (r.1 matches Some(cid) && cid@ == old(self).node_name() + "-"@ + decimal(
                            old(self).next_id() as nat,
                        ))
                        &&& final(self).hub.conns().dom() == old(self).hub.conns().dom().insert(r.1->0@)
                        &&& final(self).hub.conns()[r.1->0@].user_id == c@.sub
                        &&& final(self).hub.conns()[r.1->0@].claims == Some(c@)
                        &&& (r.0 matches Some(reply) && reply.id == cmd.id && reply.error is None
                            && (reply.payload matches Some(ReplyPayload::Connect(res))
                            && old(self).connected(final(self), r.1->0@, c@, &creq, res)))
                    },
                },
                _ => r.0 is None && r.1 is None && old(self).unchanged(final(self)),
            },
    {
        let id = cmd.id;
        let creq = match cmd.method {
            Some(Method::Connect(c)) => c,
            _ => {
                return (None, None);
            },
        };
        match self.authenticate(validated) {
            Ok(claims) => {
                let ghost cm = claims@;
                let client_id = self.register(Some(claims), tx);
                let ghost s1 = *self;
                let res = self.connect(client_id.as_str(), &creq);
                proof {
                    assert(conn_claims(s1.hub.conns(), client_id@) == Some(cm));
                    assert(s1.connect_granted(client_id@, &creq) =~= creq.subs@.dom().filter(
                        |c: Seq<char>|
                            check_spec(*old(self).cfg, Some(cm), c, Action::Subscribe) is None
                                && !old(self).subscriber_limit_reached(client_id@, c),
                    ));
                    assert(conn_user_id(s1.hub.conns(), client_id@) == cm.sub);
                }
                let reply = Reply { id, error: None, payload: Some(ReplyPayload::Connect(res)) };
                (Some(reply), Some(client_id))
            },
            Err(error) => {
                let reply = Reply { id, error: Some(error), payload: None };
                (Some(reply), None)
            },
        }
    }

    /// Opens an SSE session for a validated token: registers it (with the reply queue `tx`),
    /// connects it with an empty request, and returns its id and the first event, the
    /// `ConnectResult` as a push-like reply (`id = 0`).
    pub fn sse_open(&mut self, claims: Claims, tx: Sender<Reply>) -> (r: (String, Reply))
        ensures
            r.0@ == old(self).node_name() + "-"@ + decimal(old(self).next_id() as nat),
            final(self).hub.conns().dom() == old(self).hub.conns().dom().insert(r.0@),
            final(self).hub.conns()[r.0@].user_id == claims@.sub,
            r.1.id == 0,
            r.1.error is None,
            r.1.payload matches Some(ReplyPayload::Connect(res)) && res.client@ == r.0@
                && res.subs@.dom().len() == 0,
    {
        let ghost sub = claims@.sub;
        let sid = self.register(Some(claims), tx);
        let req = ConnectRequest {
            token: String::new(),
            subs: StrMap::new(),
            headers: StrMap::new(),
            name: String::new(),
            protocol_version: 0,
        };
        proof {
            assert(req.subs@.dom() =~= Set::<Seq<char>>::empty());
        }
        let res = self.connect(sid.as_str(), &req);
        assert(res.subs@.dom() =~= Set::<Seq<char>>::empty());
        let initial = Reply { id: 0, error: None, payload: Some(ReplyPayload::Connect(res)) };
        (sid, initial)
    }

    // ─── Server API (trusted callers: the HTTP and gRPC layers check API keys) ───

    /// Whether a backend publish to `ch` with `key` would have to number past the largest
    /// offset (a remembered key answers without publishing).
    pub open spec fn api_publish_exhausted(&self, ch: Seq<char>, key: Option<Seq<char>>) -> bool {
        !(key is Some && self.broker.idempotent().dom().contains(key->0))
            && offset_exhausted(self.broker.channels(), ch, self.ns(ch).history_size as nat, false)
    }

    /// What a backend publish of `data` to `ch` with idempotency key `key` that returned `r`
    /// did: a remembered key answers with the position it was first published at and changes
    /// nothing; otherwise the data is published (no client info, not transient) and, with a
    /// key, the key remembers the new position.
    pub open spec fn api_publish_post(
        &self,
        after: &ApiService,
        ch: Seq<char>,
        data: Seq<u8>,
        key: Option<Seq<char>>,
        r: Result<StreamPosition, BrokerError>,
    ) -> bool {
        if key is Some && self.broker.idempotent().dom().contains(key->0) {
            &&& r == Ok::<StreamPosition, BrokerError>(self.broker.idempotent()[key->0])
            &&& self.unchanged(after)
        } else {
            &&& r is Ok
            &&& exists|p: PublicationModel| #![trigger pub_model(ch, p)] {
                &&& publish_effect(
                    self.broker.channels(),
                    after.broker.channels(),
                    ch,
                    data,
                    None,
                    false,
                    self.ns(ch).history_size as nat,
                    r->Ok_0,
                    p,
                )
                &&& fanned_out(self.hub.sent_log(), after.hub, ch, Some(pub_model(ch, p)))
            }
            &&& after.broker.idempotent() == match key {
                Some(k) => self.broker.idempotent().insert(k, r->Ok_0),
                None => self.broker.idempotent(),
            }
            &&& after.hub.conns() == self.hub.conns()
            &&& after.hub.index() == self.hub.index()
            &&& after.metrics == (Metrics { messages_published: bumped(self.metrics.messages_published), ..self.metrics })
            &&& after.pending_events() == self.pending_events()
            &&& after.cfg == self.cfg
            &&& after.node_name() == self.node_name()
            &&& after.next_id() == self.next_id()
        }
    }

    /// Publishes `data` to `channel` from the backend; the publication goes to the local
    /// subscribers. Idempotent when a key is given: a key seen before answers with the
    /// position of its first publish.
    pub fn api_publish(&mut self, channel: &str, data: Vec<u8>, idempotency_key: Option<&str>) -> (r: Result<StreamPosition, BrokerError>)
        requires
            !old(self).api_publish_exhausted(channel@, opt_str(idempotency_key)),
        ensures
            old(self).api_publish_post(final(self), channel@, data@, opt_str(idempotency_key), r),
    {
        match idempotency_key {
            Some(k) => {
                match self.broker.idempotency_get(k) {
                    Some(pos) => {
                        return Ok(pos);
                    },
                    None => {},
                }
            },
            None => {},
        }
        let cfg = self.cfg.clone();
        let ns = cfg.namespace(channel);
        let ghost d = data@;
        let (pos, publication) = self.broker.publish(channel, data, None, false, ns.history_size);
        let ghost pm = publication@;
        self.hub.fan_out(channel, pub_push(channel, publication));
        Metrics::inc(&mut self.metrics.messages_published);
        match idempotency_key {
            Some(k) => {
                self.broker.idempotency_put(k, &pos, IDEMPOTENCY_TTL_SECS);
            },
            None => {},
        }
        let r: Result<StreamPosition, BrokerError> = Ok(pos);
        assert(publish_effect(
            old(self).broker.channels(),
            self.broker.channels(),
            channel@,
            d,
            None,
            false,
            old(self).ns(channel@).history_size as nat,
            r->Ok_0,
            pm,
        ));
        assert(fanned_out(old(self).hub.sent_log(), self.hub, channel@, Some(pub_model(channel@, pm))));
        r
    }

    /// Whether every channel of a broadcast to `list` has room for the offsets it would number.
    pub open spec fn broadcast_fits(&self, list: Seq<Seq<char>>) -> bool {
        forall|c: Seq<char>|
            #![trigger list.contains(c)]
            list.contains(c) && self.ns(c).history_size > 0 ==> start_offset(self.broker.channels(), c)
                + occurrences(list, c) <= u64::MAX
    }

    /// Publishes `data` once to each channel of `channels` (in order) from the backend, and
    /// answers with the offset each channel got (0 for a channel without history; for a
    /// channel named twice, its last offset).
    pub fn api_broadcast(&mut self, channels: &Vec<String>, data: Vec<u8>) -> (out: StrMap<u64>)
        requires
            old(self).broadcast_fits(views(channels@)),
        ensures
            out@.dom() == views(channels@).to_set(),
            forall|c: Seq<char>| #[trigger] out@.dom().contains(c) ==> out@[c] == if old(self).ns(c).history_size > 0 {
                final(self).broker.channels()[c].stream.offset
            } else {
                0
            },
            final(self).broker.channels().dom() == old(self).broker.channels().dom().union(views(channels@).to_set()),
            forall|c: Seq<char>| #[trigger] views(channels@).contains(c) ==> final(self).broker.channels()[c].stream.offset
                == start_offset(old(self).broker.channels(), c) + if old(self).ns(c).history_size > 0 {
                    occurrences(views(channels@), c)
                } else {
                    0
                },
            forall|c: Seq<char>| #[trigger] old(self).broker.channels().dom().contains(c) ==> {
                &&& final(self).broker.channels()[c].stream.epoch == old(self).broker.channels()[c].stream.epoch
                &&& final(self).broker.channels()[c].presence == old(self).broker.channels()[c].presence
                &&& !views(channels@).contains(c) ==> final(self).broker.channels()[c] == old(self).broker.channels()[c]
            },
            final(self).broker.idempotent() == old(self).broker.idempotent(),
            final(self).hub.conns() == old(self).hub.conns(),
            final(self).hub.index() == old(self).hub.index(),
            final(self).metrics == (Metrics {
                messages_published: bumped_n(old(self).metrics.messages_published, channels@.len()),
                ..old(self).metrics
            }),
            final(self).pending_events() == old(self).pending_events(),
            final(self).cfg == old(self).cfg,
            final(self).node_name() == old(self).node_name(),
            final(self).next_id() == old(self).next_id(),
    {
        let ghost list = views(channels@);
        let ghost c0 = self.broker.channels();
        let ghost s0 = *self;
        let mut out: StrMap<u64> = StrMap::new();
        proof {
            assert(list.take(0) =~= Seq::<Seq<char>>::empty());
            assert(list.take(0).to_set() =~= Set::<Seq<char>>::empty());
            assert(out@.dom() =~= Set::<Seq<char>>::empty());
            assert(c0.dom().union(Set::<Seq<char>>::empty()) =~= c0.dom());
        }
        let mut i: usize = 0;
        while i < channels.len()
            invariant
                i <= channels@.len(),
                list == views(channels@),
                c0 == s0.broker.channels(),
                s0.broadcast_fits(list),
                self.cfg == s0.cfg,
                self.hub.conns() == s0.hub.conns(),
                self.hub.index() == s0.hub.index(),
                self.broker.idempotent() == s0.broker.idempotent(),
                self.metrics == (Metrics {
                    messages_published: bumped_n(s0.metrics.messages_published, i as nat),
                    ..s0.metrics
                }),
                self.pending_events() == s0.pending_events(),
                self.node_name() == s0.node_name(),
                self.next_id() == s0.next_id(),
                data@ == data@,
                self.broker.channels().dom() == c0.dom().union(list.take(i as int).to_set()),
                forall|c: Seq<char>| #[trigger] list.take(i as int).contains(c) ==> self.broker.channels()[c].stream.offset
                    == start_offset(c0, c) + if s0.ns(c).history_size > 0 {
                        occurrences(list.take(i as int), c)
                    } else {
                        0
                    },
                forall|c: Seq<char>| #[trigger] c0.dom().contains(c) ==> {
                    &&& self.broker.channels()[c].stream.epoch == c0[c].stream.epoch
                    &&& self.broker.channels()[c].presence == c0[c].presence
                    &&& !list.take(i as int).contains(c) ==> self.broker.channels()[c] == c0[c]
                },
                out@.dom() == list.take(i as int).to_set(),
                forall|c: Seq<char>| #[trigger] out@.dom().contains(c) ==> out@[c] == if s0.ns(c).history_size > 0 {
                    self.broker.channels()[c].stream.offset
                } else {
                    0
                },
            decreases channels@.len() - i,
        {
            let ch = &channels[i];
            let ghost cur = self.broker.channels();
            let ghost done = list.take(i as int);
            proof {
                assert(list[i as int] == ch@);
                assert(list.take(i as int + 1) =~= done.push(ch@));
                done.lemma_push_to_set_commute(ch@);
                assert(list.contains(ch@));
                lemma_occurrences_prefix(list, i as int + 1, ch@);
                done.lemma_filter_push(ch@, equals(ch@));
                if !done.contains(ch@) {
                    assert(occurrences(done, ch@) == 0) by {
                        assert(done.filter(equals(ch@)) =~= Seq::<Seq<char>>::empty()) by {
                            if done.filter(equals(ch@)).len() > 0 {
                                let y = done.filter(equals(ch@))[0];
                                assert(done.filter(equals(ch@)).contains(y));
                                done.lemma_filter_contains_rev(equals(ch@), y);
                            }
                        }
                    }
                }
                if cur.dom().contains(ch@) {
                    if done.contains(ch@) {
                        assert(cur[ch@].stream.offset == start_offset(c0, ch@) + if s0.ns(ch@).history_size > 0 {
                            occurrences(done, ch@)
                        } else {
                            0
                        });
                    } else {
                        assert(c0.dom().contains(ch@));
                        assert(cur[ch@] == c0[ch@]);
                    }
                }
            }
            let d = data.clone();
            assert(d@ =~= data@);
            let r = self.api_publish(ch.as_str(), d, None);
            match r {
                Ok(pos) => {
                    let _ = out.insert(ch.clone(), pos.offset);
                },
                Err(_) => {},
            }
            proof {
                let nxt = list.take(i as int + 1);
                let hs = s0.ns(ch@).history_size as nat;
                let pm = choose|p: crate::protocol::PublicationModel| publish_effect(
                    cur,
                    self.broker.channels(),
                    ch@,
                    data@,
                    None,
                    false,
                    hs,
                    r->Ok_0,
                    p,
                );
                assert(publish_effect(cur, self.broker.channels(), ch@, data@, None, false, hs, r->Ok_0, pm));
                assert forall|c: Seq<char>| #[trigger] nxt.contains(c) implies self.broker.channels()[c].stream.offset
                    == start_offset(c0, c) + if s0.ns(c).history_size > 0 {
                        occurrences(nxt, c)
                    } else {
                        0
                    } by {
                    done.lemma_filter_push(ch@, equals(c));
                    assert(nxt =~= done.push(ch@));
                    if c != ch@ {
                        assert(done.contains(c)) by {
                            let k = choose|k: int| 0 <= k < nxt.len() && nxt[k] == c;
                            assert(k < i);
                            assert(done[k] == c);
                        }
                        assert(!equals(c)(ch@));
                        assert(occurrences(nxt, c) == occurrences(done, c));
                        assert(cur.dom().contains(c));
                    } else {
                        assert(equals(c)(ch@));
                        assert(occurrences(nxt, c) == occurrences(done, c) + 1);
                        let m0 = if cur.dom().contains(ch@) {
                            cur[ch@].stream
                        } else {
                            StreamModel { offset: 0, epoch: self.broker.channels()[ch@].stream.epoch, history: Seq::empty() }
                        };
                        assert(self.broker.channels()[c].stream == after_publish(m0, data@, None, false, hs));
                        if !cur.dom().contains(c) {
                            assert(!c0.dom().contains(c));
                            assert(!done.contains(c));
                        }
                        assert(m0.offset == start_offset(c0, c) + if hs > 0 { occurrences(done, c) } else { 0 });
                    }
                }
                assert forall|c: Seq<char>| #[trigger] out@.dom().contains(c) implies out@[c] == if s0.ns(c).history_size > 0 {
                    self.broker.channels()[c].stream.offset
                } else {
                    0
                } by {
                    if c != ch@ {
                        assert(done.to_set().contains(c));
                        assert(cur.dom().contains(c));
                    }
                }
                assert forall|c: Seq<char>| #[trigger] c0.dom().contains(c) implies {
                    &&& self.broker.channels()[c].stream.epoch == c0[c].stream.epoch
                    &&& self.broker.channels()[c].presence == c0[c].presence
                    &&& !nxt.contains(c) ==> self.broker.channels()[c] == c0[c]
                } by {
                    assert(cur.dom().contains(c));
                    if c != ch@ {
                        if !nxt.contains(c) {
                            assert(!done.contains(c)) by {
                                if done.contains(c) {
                                    let k = choose|k: int| 0 <= k < done.len() && done[k] == c;
                                    assert(nxt[k] == c);
                                }
                            }
                        }
                    } else {
                        assert(nxt[i as int] == c);
                    }
                }
                assert(self.broker.channels().dom() =~= c0.dom().union(nxt.to_set()));
                assert(out@.dom() =~= nxt.to_set());
            }
            i = i + 1;
        }
        proof {
            assert(list.take(channels@.len() as int) =~= list);
        }
        out
    }

    /// The clients present on `channel` (empty for an unknown channel).
    pub fn api_presence(&mut self, channel: &str) -> (r: Result<StrMap<ClientInfo>, BrokerError>)
        ensures
            old(self).unchanged(final(self)),
            r matches Ok(m) && presence_view(m@) == if old(self).broker.channels().dom().contains(channel@) {
                old(self).broker.channels()[channel@].presence
            } else {
                Map::empty()
            },
    {
        Ok(self.broker.presence_list(channel))
    }

    /// The oldest publications in the history of `channel`, at most `limit`, and the stream
    /// position (the default position for an unknown channel).
    pub fn api_history(&mut self, channel: &str, limit: usize) -> (r: Result<(Vec<Publication>, StreamPosition), BrokerError>)
        ensures
            old(self).unchanged(final(self)),
            r is Ok,
            r matches Ok((pubs, pos)) && if old(self).broker.channels().dom().contains(channel@) {
                let m = old(self).broker.channels()[channel@].stream;
                &&& pubs_view(pubs@) == recover_spec(m, 0, Seq::empty(), limit as nat).1
                &&& position_is(pos, m)
            } else {
                &&& pubs@.len() == 0
                &&& pos.offset == 0
                &&& pos.epoch@.len() == 0
            },
    {
        let since = StreamPosition::default();
        let r = self.broker.recover(channel, &since, limit);
        Ok((r.publications, r.position))
    }

    /// The channels with local subscribers on this node, each once; with a non-empty pattern,
    /// only those it matches (glob by `:` segments).
    pub fn api_channels(&self, pattern: Option<&str>) -> (cs: Vec<String>)
        ensures
            views(cs@).no_duplicates(),
            views(cs@).to_set() == match pattern {
                Some(p) if p@.len() > 0 => self.hub.index().dom().filter(|c: Seq<char>| glob_matches(p@, c)),
                _ => self.hub.index().dom(),
            },
    {
        let all = self.hub.channels_list();
        match pattern {
            Some(p) => {
                if p.is_empty() {
                    return all;
                }
                let ghost f = |c: Seq<char>| glob_matches(p@, c);
                let mut out: Vec<String> = Vec::new();
                let mut i: usize = 0;
                while i < all.len()
                    invariant
                        i <= all@.len(),
                        f == (|c: Seq<char>| glob_matches(p@, c)),
                        views(out@) == views(all@).take(i as int).filter(f),
                    decreases all@.len() - i,
                {
                    proof {
                        views(all@).take(i as int).lemma_filter_push(views(all@)[i as int], f);
                        assert(views(all@).take(i as int + 1) =~= views(all@).take(i as int).push(
                            views(all@)[i as int],
                        ));
                    }
                    if glob_match(p, all[i].as_str()) {
                        let ghost before = out@;
                        out.push(all[i].clone());
                        assert(views(out@) =~= views(before).push(all@[i as int]@));
                    }
                    i = i + 1;
                }
                proof {
                    assert(views(all@).take(all@.len() as int) =~= views(all@));
                    crate::hub::lemma_filter_no_dup(views(all@), f);
                    crate::hub::lemma_filter_to_set(views(all@), f);
                }
                out
            },
            None => all,
        }
    }

    /// The node's name and its numbers of connections and of channels with local subscribers.
    pub fn api_info(&self) -> (s: NodeStats)
        ensures
            s.node@ == self.node_name(),
            s.num_connections == self.hub.conns().dom().len(),
            s.num_channels == self.hub.index().dom().len(),
    {
        NodeStats {
            node: self.node.clone(),
            num_connections: self.hub.num_connections(),
            num_channels: self.hub.num_channels(),
        }
    }

    /// Carries out a control command on this node's connections (a single node executes what
    /// it publishes on the control channel at once).
    pub fn control(&mut self, cmd: ControlCommand)
        ensures
            match cmd {
                ControlCommand::Disconnect { user, client, code, reason } => {
                    &&& old(self).same_but_sent(final(self))
                    &&& final(self).hub.sent_log().len() >= old(self).hub.sent_log().len()
                    &&& final(self).hub.sent_log().take(old(self).hub.sent_log().len() as int)
                        == old(self).hub.sent_log()
                    &&& disconnect_sends(
                        final(self).hub.sent_log().skip(old(self).hub.sent_log().len() as int),
                        disconnect_selected(old(self).hub.conns(), user@, client@),
                        code,
                        reason@,
                    )
                },
                ControlCommand::Unsubscribe { user, channel } => {
                    let sel = unsub_selected(old(self).hub.conns(), user@, channel@);
                    &&& final(self).hub.conns() == conns_without(old(self).hub.conns(), channel@, sel)
                    &&& final(self).hub.index() == index_without(old(self).hub.index(), channel@, sel)
                    &&& final(self).hub.sent_log().len() >= old(self).hub.sent_log().len()
                    &&& final(self).hub.sent_log().take(old(self).hub.sent_log().len() as int) == old(self).hub.sent_log()
                    &&& unsubscribe_sends(
                        final(self).hub.sent_log().skip(old(self).hub.sent_log().len() as int),
                        sel,
                        channel@,
                        SERVER_UNSUBSCRIBE_CODE,
                        "server"@,
                    )
                    &&& final(self).broker.channels() == old(self).broker.channels()
                    &&& final(self).broker.idempotent() == old(self).broker.idempotent()
                    &&& final(self).metrics == old(self).metrics
                    &&& final(self).pending_events() == old(self).pending_events()
                    &&& final(self).cfg == old(self).cfg
                    &&& final(self).node_name() == old(self).node_name()
                    &&& final(self).next_id() == old(self).next_id()
                },
            },
    {
        self.hub.control(cmd);
    }

    /// Forced disconnect of the connections that `(user, client)` selects: each is pushed a
    /// `Disconnect` with `code` and `reason`, once. The engine's state does not change.
    pub fn api_disconnect(&mut self, user: &str, client: &str, code: u32, reason: &str)
        ensures
            old(self).same_but_sent(final(self)),
            final(self).hub.sent_log().len() >= old(self).hub.sent_log().len(),
            final(self).hub.sent_log().take(old(self).hub.sent_log().len() as int) == old(self).hub.sent_log(),
            disconnect_sends(
                final(self).hub.sent_log().skip(old(self).hub.sent_log().len() as int),
                disconnect_selected(old(self).hub.conns(), user@, client@),
                code,
                reason@,
            ),
    {
        let cmd = ControlCommand::Disconnect {
            user: user.to_owned(),
            client: client.to_owned(),
            code,
            reason: reason.to_owned(),
        };
        self.control(cmd);
    }

    /// Server-side unsubscribe of `user` from `channel` on this node: every connection of the
    /// user subscribed to the channel leaves it and is pushed an `Unsubscribe`.
    pub fn api_unsubscribe(&mut self, user: &str, channel: &str)
        ensures
            final(self).hub.conns() == conns_without(
                old(self).hub.conns(),
                channel@,
                unsub_selected(old(self).hub.conns(), user@, channel@),
            ),
            final(self).hub.index() == index_without(
                old(self).hub.index(),
                channel@,
                unsub_selected(old(self).hub.conns(), user@, channel@),
            ),
            final(self).broker.channels() == old(self).broker.channels(),
            final(self).broker.idempotent() == old(self).broker.idempotent(),
            final(self).metrics == old(self).metrics,
            final(self).pending_events() == old(self).pending_events(),
            final(self).cfg == old(self).cfg,
            final(self).node_name() == old(self).node_name(),
            final(self).next_id() == old(self).next_id(),
    {
        let cmd = ControlCommand::Unsubscribe { user: user.to_owned(), channel: channel.to_owned() };
        self.control(cmd);
    }

    /// Whether `user` has a connection on this node, and how many.
    pub fn api_user_online(&self, user: &str) -> (r: (bool, usize))
        ensures
            r.1 == self.hub.conns().dom().filter(|id: Seq<char>| self.hub.conns()[id].user_id == user@).len(),
            r.0 == (r.1 > 0),
    {
        let n = self.hub.user_connection_count(user);
        (n > 0, n)
    }
}

/// One step of dropping a connection keeps the leave pushes stated: `before` has them for the
/// channels `done`; `mid` is `before` with `client` gone from the subscribers of `ch` (not in
/// `done`), and `after` is `mid` with the leave fanned out on `ch` where dropping announces it
/// (and `mid` otherwise).
proof fn lemma_leaves_step(
    s0: ApiService,
    before: ApiService,
    mid: ApiService,
    after: ApiService,
    n: int,
    done: Set<Seq<char>>,
    ch: Seq<char>,
    user: Seq<char>,
    client: Seq<char>,
)
    requires
        s0.leaves_sent(&before, n, done, user, client),
        !done.contains(ch),
        mid.hub.sent_log() == before.hub.sent_log(),
        mid.hub.conns() == before.hub.conns(),
        forall|x: Seq<char>| x != ch ==> #[trigger] members(mid.hub.index(), x) == members(before.hub.index(), x),
        after.hub.conns() == mid.hub.conns(),
        after.hub.index() == mid.hub.index(),
        s0.leaves_on_drop(ch) ==> fanned_out(
            mid.hub.sent_log(),
            after.hub,
            ch,
            Some(leave_model(ch, info_model(user, client))),
        ),
        !s0.leaves_on_drop(ch) ==> after.hub.sent_log() == mid.hub.sent_log(),
    ensures
        s0.leaves_sent(&after, n, done.insert(ch), user, client),
        after.hub.sent_log().take(n) == before.hub.sent_log().take(n),
{
    let d1 = done.insert(ch);
    let lm = leave_model(ch, info_model(user, client));
    let l0 = before.hub.sent_log();
    let l1 = after.hub.sent_log();
    let m = l0.len() as int;
    let conns = after.hub.conns();
    assert forall|x: Seq<char>| x != ch implies #[trigger] fan_out_set(after.hub.index(), conns, x)
        == fan_out_set(before.hub.index(), before.hub.conns(), x) by {
        assert(members(after.hub.index(), x) == members(before.hub.index(), x));
    }
    assert(l1.len() >= m);
    assert forall|k: int| 0 <= k < m implies #[trigger] l1[k] == l0[k] by {
        if s0.leaves_on_drop(ch) {
            assert(l1.take(m)[k] == l1[k]);
        }
    }
    assert(l1.take(n) =~= l0.take(n));
    let d = l1.skip(m);
    let ids = d.map_values(|e: (Seq<char>, Reply)| e.0);
    assert forall|k: int| n <= k < l1.len() implies #[trigger] s0.is_leave_of(&after, d1, user, client, l1[k]) by {
        if k < m {
            assert(s0.is_leave_of(&before, done, user, client, l0[k]));
            let w = choose|w: Seq<char>|
                #![trigger done.contains(w)]
                done.contains(w) && s0.leaves_on_drop(w) && push_view(l0[k].1) == Some(
                    leave_model(w, info_model(user, client)),
                ) && fan_out_set(before.hub.index(), before.hub.conns(), w).contains(l0[k].0);
            assert(w != ch);
            assert(fan_out_set(after.hub.index(), conns, w) == fan_out_set(before.hub.index(), before.hub.conns(), w));
            assert(d1.contains(w));
        } else {
            assert(s0.leaves_on_drop(ch));
            let j = k - m;
            assert(d[j] == l1[k]);
            assert(ids[j] == l1[k].0);
            assert(ids.contains(ids[j]));
            assert(ids.to_set().contains(l1[k].0));
            assert(push_view(d[j].1) == Some(lm));
            assert(d1.contains(ch));
        }
    }
    assert forall|c: Seq<char>, t: Seq<char>|
        d1.contains(c) && s0.leaves_on_drop(c) && #[trigger] fan_out_set(after.hub.index(), conns, c).contains(t)
            implies ApiService::handed(&after, n, t, leave_model(c, info_model(user, client))) by {
        if c == ch {
            assert(ids.to_set().contains(t));
            assert(ids.contains(t));
            let j = choose|j: int| 0 <= j < ids.len() && ids[j] == t;
            assert(d[j] == l1[m + j]);
            assert(l1[m + j].0 == t);
            assert(push_view(l1[m + j].1) == Some(lm));
        } else {
            assert(done.contains(c));
            assert(fan_out_set(after.hub.index(), conns, c) == fan_out_set(before.hub.index(), before.hub.conns(), c));
            assert(fan_out_set(before.hub.index(), before.hub.conns(), c).contains(t));
            assert(ApiService::handed(&before, n, t, leave_model(c, info_model(user, client))));
            let k = choose|k: int|
                #![trigger before.hub.sent_log()[k]]
                n <= k < before.hub.sent_log().len() && before.hub.sent_log()[k].0 == t && push_view(
                    before.hub.sent_log()[k].1,
                ) == Some(leave_model(c, info_model(user, client)));
            assert(l1[k] == l0[k]);
        }
    }
}

/// A history query with a positive limit `L` answers with the oldest `min(L, n)` publications
/// of the channel's history of `n`, in order; never more than `L`. (The channel's stream is
/// consistent, as every stream the broker keeps is.)
pub proof fn lemma_history_respects_limit(
    s: ApiService,
    after: ApiService,
    client: Seq<char>,
    req: HistoryRequest,
    res: HistoryResult,
)
    requires
        s.history_post(&after, client, &req, Ok(res)),
        req.limit > 0,
        s.broker.channels().dom().contains(req.channel@) ==> consistent(
            s.broker.channels()[req.channel@].stream,
        ),
    ensures
        res.publications@.len() <= req.limit,
        s.broker.channels().dom().contains(req.channel@) ==> {
            let h = s.broker.channels()[req.channel@].stream.history;
            pubs_view(res.publications@) == h.take(if h.len() < req.limit { h.len() as int } else { req.limit as int })
        },
{
    if s.broker.channels().dom().contains(req.channel@) {
        let m = s.broker.channels()[req.channel@].stream;
        let h = m.history;
        let pred = |p: PublicationModel| p.offset > 0u64;
        assert(h.filter(pred) == h) by {
            assert forall|i: int| 0 <= i < h.len() implies pred(#[trigger] h[i]) by {
                assert(h[i].offset == m.offset - h.len() + 1 + i);
            }
            lemma_filter_all(h, pred);
        }
        let out = recover_spec(m, 0, Seq::empty(), req.limit as nat).1;
        assert(out == first_n(h.filter(pred), req.limit as nat));
        assert(pubs_view(res.publications@).len() == res.publications@.len());
        if h.len() <= req.limit {
            assert(h.take(h.len() as int) =~= h);
        }
    }
}

/// Filtering with a predicate that every element meets keeps the sequence.
proof fn lemma_filter_all(s: Seq<PublicationModel>, f: spec_fn(PublicationModel) -> bool)
    requires
        forall|i: int| 0 <= i < s.len() ==> f(#[trigger] s[i]),
    ensures
        s.filter(f) == s,
    decreases s.len(),
{
    if s.len() > 0 {
        let init = s.drop_last();
        assert(s =~= init.push(s.last()));
        lemma_filter_all(init, f);
        init.lemma_filter_push(s.last(), f);
    } else {
        assert(s.filter(f) =~= s) by {
            reveal(Seq::filter);
        }
    }
}

/// Leaving a channel undoes joining it: a client that was not a local subscriber of `channel`
/// joins and leaves, and the subscriber index is as it was (given that the index holds no
/// channel without subscribers, which the hub keeps).
pub proof fn lemma_join_then_leave(index: Map<Seq<char>, Set<Seq<char>>>, channel: Seq<char>, client: Seq<char>)
    requires
        !members(index, channel).contains(client),
        index.dom().contains(channel) ==> !index[channel].is_empty(),
    ensures
        without_member(index.insert(channel, members(index, channel).insert(client)), channel, client) == index,
{
    let joined = index.insert(channel, members(index, channel).insert(client));
    let rest = joined[channel].remove(client);
    assert(rest =~= members(index, channel));
    if index.dom().contains(channel) {
        assert(joined.insert(channel, rest) =~= index);
    } else {
        assert(rest.is_empty()) by {
            assert(rest =~= Set::<Seq<char>>::empty());
        }
        assert(joined.remove(channel) =~= index);
    }
}

/// Dropping a subscription undoes recording it, for a connection that did not have it.
pub proof fn lemma_sub_then_unsub(conns: Map<Seq<char>, ConnModel>, client: Seq<char>, channel: Seq<char>)
    requires
        conns.dom().contains(client) ==> !conns[client].subs.contains(channel),
    ensures
        without_sub(with_sub(conns, client, channel), client, channel) == conns,
{
    if conns.dom().contains(client) {
        let c = conns[client];
        assert(c.subs.insert(channel).remove(channel) =~= c.subs);
        assert(without_sub(with_sub(conns, client, channel), client, channel) =~= conns);
    }
}

/// A backend publish retried with the same idempotency key is answered with the position of
/// the first publish and changes nothing, whatever channel and data the retry carries.
pub proof fn lemma_idempotent_retry(
    s0: ApiService,
    s1: ApiService,
    s2: ApiService,
    ch: Seq<char>,
    data: Seq<u8>,
    ch2: Seq<char>,
    data2: Seq<u8>,
    key: Seq<char>,
    r1: Result<StreamPosition, BrokerError>,
    r2: Result<StreamPosition, BrokerError>,
)
    requires
        s0.api_publish_post(&s1, ch, data, Some(key), r1),
        s1.api_publish_post(&s2, ch2, data2, Some(key), r2),
    ensures
        r1 is Ok,
        r2 == r1,
        s1.unchanged(&s2),
{
}

/// The answer to a command that a broker failure stopped: code 110, temporary, with the
/// failure's text.
pub fn broker_err(e: BrokerError) -> (r: Error)
    ensures
        r.code == 110,
        r.temporary,
        r.message@ == "broker: "@ + error_text(e),
{
    let mut m = String::from_str("broker: ");
    let t = e.message();
    m.append(t.as_str());
    Error { code: 110, message: m, temporary: true }
}

/// The token of a `Connect` command, to be validated before the handshake.
pub fn connect_token(cmd: &Command) -> (t: Option<String>)
    ensures
        match cmd.method {
            Some(Method::Connect(c)) => t matches Some(x) && x@ == c.token@,
            _ => t is None,
        },
{
    match &cmd.method {
        Some(Method::Connect(c)) => Some(c.token.clone()),
        _ => None,
    }
}

/// An error answer.
fn err(code: u32, message: &str, temporary: bool) -> (e: Error)
    ensures
        e.code == code,
        e.message@ == message@,
        e.temporary == temporary,
{
    Error { code, message: message.to_owned(), temporary }
}

} // verus!
