//! The client protocol (`manifold.v1`): a client sends a `Command`, the server answers with a
//! `Reply` of the same `id`, or sends an asynchronous `Push` (`id = 0`). Maps of the protocol are
//! keyed by strings.

use vstd::prelude::*;
use crate::strmap::StrMap;

verus! {

/// Position in a channel stream: the offset of the last message and the stream's epoch.
#[derive(Debug)]
pub struct StreamPosition {
    pub offset: u64,
    pub epoch: String,
}

impl Clone for StreamPosition {
    fn clone(&self) -> (r: Self)
        ensures
            r == *self,
    {
        StreamPosition { offset: self.offset, epoch: self.epoch.clone() }
    }
}

impl Default for StreamPosition {
    fn default() -> (r: Self)
        ensures
            r.offset == 0,
            r.epoch@ == Seq::<char>::empty(),
    {
        StreamPosition { offset: 0, epoch: String::new() }
    }
}

/// Who is behind a publication or a presence entry.
#[derive(Debug)]
pub struct ClientInfo {
    pub user: String,
    pub client: String,
    pub conn_info: Vec<u8>,
    pub chan_info: Vec<u8>,
}

pub struct ClientInfoModel {
    pub user: Seq<char>,
    pub client: Seq<char>,
    pub conn_info: Seq<u8>,
    pub chan_info: Seq<u8>,
}

impl View for ClientInfo {
    type V = ClientInfoModel;

    open spec fn view(&self) -> ClientInfoModel {
        ClientInfoModel {
            user: self.user@,
            client: self.client@,
            conn_info: self.conn_info@,
            chan_info: self.chan_info@,
        }
    }
}

impl Clone for ClientInfo {
    fn clone(&self) -> (r: Self)
        ensures
            r@ == self@,
    {
        let conn_info = self.conn_info.clone();
        let chan_info = self.chan_info.clone();
        assert(conn_info@ =~= self.conn_info@);
        assert(chan_info@ =~= self.chan_info@);
        ClientInfo { user: self.user.clone(), client: self.client.clone(), conn_info, chan_info }
    }
}

pub open spec fn info_view(o: Option<ClientInfo>) -> Option<ClientInfoModel> {
    match o {
        Some(c) => Some(c@),
        None => None,
    }
}

/// A message in a channel stream.
#[derive(Debug)]
pub struct Publication {
    pub data: Vec<u8>,
    pub offset: u64,
    pub info: Option<ClientInfo>,
    pub tags: StrMap<String>,
}

pub struct PublicationModel {
    pub data: Seq<u8>,
    pub offset: u64,
    pub info: Option<ClientInfoModel>,
    pub tags: Map<Seq<char>, Seq<char>>,
}

impl View for Publication {
    type V = PublicationModel;

    open spec fn view(&self) -> PublicationModel {
        PublicationModel {
            data: self.data@,
            offset: self.offset,
            info: info_view(self.info),
            tags: self.tags@.map_values(|s: String| s@),
        }
    }
}

impl Clone for Publication {
    fn clone(&self) -> (r: Self)
        ensures
            r@ == self@,
    {
        let data = self.data.clone();
        assert(data@ =~= self.data@);
        let info = match &self.info {
            Some(i) => Some(i.clone()),
            None => None,
        };
        let tags = self.tags.clone();
        assert(tags@.map_values(|s: String| s@) =~= self.tags@.map_values(|s: String| s@));
        Publication { data, offset: self.offset, info, tags }
    }
}

/// The models of a sequence of publications.
pub open spec fn pubs_view(s: Seq<Publication>) -> Seq<PublicationModel> {
    s.map_values(|p: Publication| p@)
}

#[derive(Debug, Clone)]
pub struct Join {
    pub info: Option<ClientInfo>,
}

#[derive(Debug, Clone)]
pub struct Leave {
    pub info: Option<ClientInfo>,
}

/// The server unsubscribed the client from the channel.
#[derive(Debug, Clone)]
pub struct Unsubscribe {
    pub code: u32,
    pub reason: String,
}

/// The server is closing the connection.
#[derive(Debug, Clone)]
pub struct Disconnect {
    pub code: u32,
    pub reason: String,
    pub reconnect: bool,
}

#[derive(Debug, Clone)]
pub enum PushEvent {
    Pub(Publication),
    Join(Join),
    Leave(Leave),
    Unsubscribe(Unsubscribe),
    Disconnect(Disconnect),
}

/// An asynchronous event on a channel.
#[derive(Debug, Clone)]
pub struct Push {
    pub channel: String,
    pub event: Option<PushEvent>,
}

/// An error answer: a stable code, a message, and whether retrying makes sense.
#[derive(Debug, Clone)]
pub struct Error {
    pub code: u32,
    pub message: String,
    pub temporary: bool,
}

#[derive(Debug, Clone)]
pub struct SubscribeRequest {
    pub channel: String,
    pub token: String,
    pub recover: bool,
    pub position: Option<StreamPosition>,
}

#[derive(Debug, Clone)]
pub struct ConnectRequest {
    pub token: String,
    pub subs: StrMap<SubscribeRequest>,
    pub headers: StrMap<String>,
    pub name: String,
    pub protocol_version: u32,
}

#[derive(Debug, Clone)]
pub struct UnsubscribeRequest {
    pub channel: String,
}

#[derive(Debug, Clone)]
pub struct PublishRequest {
    pub channel: String,
    pub data: Vec<u8>,
    pub transient: bool,
}

#[derive(Debug, Clone)]
pub struct PresenceRequest {
    pub channel: String,
}

#[derive(Debug, Clone)]
pub struct HistoryRequest {
    pub channel: String,
    pub limit: i32,
    pub since: Option<StreamPosition>,
    pub reverse: bool,
}

#[derive(Debug, Clone)]
pub struct RefreshRequest {
    pub token: String,
}

#[derive(Debug, Clone)]
pub struct SubRefreshRequest {
    pub channel: String,
    pub token: String,
}

#[derive(Debug, Clone)]
pub struct PingRequest {}

#[derive(Debug, Clone)]
pub enum Method {
    Connect(ConnectRequest),
    Subscribe(SubscribeRequest),
    Unsubscribe(UnsubscribeRequest),
    Publish(PublishRequest),
    Presence(PresenceRequest),
    History(HistoryRequest),
    Ping(PingRequest),
    Refresh(RefreshRequest),
    SubRefresh(SubRefreshRequest),
}

/// A client command; `id` correlates the reply.
#[derive(Debug, Clone)]
pub struct Command {
    pub id: u32,
    pub method: Option<Method>,
}

#[derive(Debug, Clone)]
pub struct SubscribeResult {
    pub recoverable: bool,
    pub position: Option<StreamPosition>,
    pub recovered: bool,
    pub publications: Vec<Publication>,
    pub positioned: bool,
}

#[derive(Debug, Clone)]
pub struct ConnectResult {
    pub client: String,
    pub ping_interval_ms: u32,
    pub expires_in_s: u32,
    pub data: Vec<u8>,
    pub subs: StrMap<SubscribeResult>,
    pub session: String,
}

#[derive(Debug, Clone)]
pub struct UnsubscribeResult {}

#[derive(Debug, Clone)]
pub struct PublishResult {
    pub position: Option<StreamPosition>,
}

#[derive(Debug, Clone)]
pub struct PresenceResult {
    pub presence: StrMap<ClientInfo>,
}

#[derive(Debug, Clone)]
pub struct HistoryResult {
    pub publications: Vec<Publication>,
    pub position: Option<StreamPosition>,
}

#[derive(Debug, Clone)]
pub struct PongResult {}

#[derive(Debug, Clone)]
pub enum ReplyPayload {
    Connect(ConnectResult),
    Subscribe(SubscribeResult),
    Unsubscribe(UnsubscribeResult),
    Publish(PublishResult),
    Presence(PresenceResult),
    History(HistoryResult),
    Pong(PongResult),
    Push(Push),
}

/// A server frame: the answer to a command (same `id`) or a push (`id = 0`).
#[derive(Debug, Clone)]
pub struct Reply {
    pub id: u32,
    pub error: Option<Error>,
    pub payload: Option<ReplyPayload>,
}

/// What a push event says.
pub enum PushEventModel {
    Pub(PublicationModel),
    Join(Option<ClientInfoModel>),
    Leave(Option<ClientInfoModel>),
    Unsubscribe(u32, Seq<char>),
    Disconnect(u32, Seq<char>, bool),
}

/// What a push says: its channel and its event.
pub struct PushModel {
    pub channel: Seq<char>,
    pub event: Option<PushEventModel>,
}

pub open spec fn event_model(e: PushEvent) -> PushEventModel {
    match e {
        PushEvent::Pub(p) => PushEventModel::Pub(p@),
        PushEvent::Join(j) => PushEventModel::Join(info_view(j.info)),
        PushEvent::Leave(l) => PushEventModel::Leave(info_view(l.info)),
        PushEvent::Unsubscribe(u) => PushEventModel::Unsubscribe(u.code, u.reason@),
        PushEvent::Disconnect(d) => PushEventModel::Disconnect(d.code, d.reason@, d.reconnect),
    }
}

/// What a reply says when it is a push (`id = 0`, no error, a push payload); none for any other
/// reply.
pub open spec fn push_view(r: Reply) -> Option<PushModel> {
    if r.id == 0 && r.error is None {
        match r.payload {
            Some(ReplyPayload::Push(p)) => Some(
                PushModel {
                    channel: p.channel@,
                    event: match p.event {
                        Some(e) => Some(event_model(e)),
                        None => None,
                    },
                },
            ),
            _ => None,
        }
    } else {
        None
    }
}

fn copy_info(i: &Option<ClientInfo>) -> (c: Option<ClientInfo>)
    ensures
        info_view(c) == info_view(*i),
{
    match i {
        Some(x) => Some(x.clone()),
        None => None,
    }
}

fn copy_event(e: &PushEvent) -> (c: PushEvent)
    ensures
        event_model(c) == event_model(*e),
{
    match e {
        PushEvent::Pub(p) => PushEvent::Pub(p.clone()),
        PushEvent::Join(j) => PushEvent::Join(Join { info: copy_info(&j.info) }),
        PushEvent::Leave(l) => PushEvent::Leave(Leave { info: copy_info(&l.info) }),
        PushEvent::Unsubscribe(u) => PushEvent::Unsubscribe(
            Unsubscribe { code: u.code, reason: u.reason.clone() },
        ),
        PushEvent::Disconnect(d) => PushEvent::Disconnect(
            Disconnect { code: d.code, reason: d.reason.clone(), reconnect: d.reconnect },
        ),
    }
}

/// A copy of a reply to hand to one more connection. A push is copied field by field and says
/// what the original says.
pub fn copy_reply(r: &Reply) -> (c: Reply)
    ensures
        push_view(*r) is Some ==> push_view(c) == push_view(*r),
{
    if r.id == 0 && r.error.is_none() {
        match &r.payload {
            Some(ReplyPayload::Push(p)) => {
                let event = match &p.event {
                    Some(e) => Some(copy_event(e)),
                    None => None,
                };
                return Reply {
                    id: 0,
                    error: None,
                    payload: Some(ReplyPayload::Push(Push { channel: p.channel.clone(), event })),
                };
            },
            _ => {},
        }
    }
    r.clone()
}

/// The major version of the client protocol.
pub const PROTOCOL_VERSION: u32 = 1;

/// The presence entries of a map, by their models.
pub open spec fn presence_view(m: Map<Seq<char>, ClientInfo>) -> Map<Seq<char>, ClientInfoModel> {
    m.map_values(|c: ClientInfo| c@)
}

} // verus!
