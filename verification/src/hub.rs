//! Local routing on a node: live connections and the index "channel → local subscribers".
//! Channel state (offsets, epochs, history, presence) lives in the broker.

use vstd::prelude::*;
use dashmap::DashMap;
use tokio::sync::mpsc::Sender;
use crate::auth::{Claims, ClaimsModel};
use crate::protocol::{
    ClientInfo, Disconnect, Join, Leave, Push, PushEvent, PushModel, Reply, ReplyPayload, Unsubscribe,
    copy_reply, push_view,
};
use crate::strmap::StrMap;
use crate::broker::ControlCommand;
use crate::text::{same_text, views};

verus! {

pub type ClientId = String;

/// The code of the `Unsubscribe` push sent on a server unsubscribe.
pub const SERVER_UNSUBSCRIBE_CODE: u32 = 0;

pub type Channel = String;

/// `tokio::sync::mpsc::Sender`, the sending half of a bounded channel. Verus sees nothing
/// inside it; it is carried through and handed to `try_send`.
#[verifier::external_type_specification]
#[verifier::external_body]
#[verifier::reject_recursive_types(T)]
pub struct ExSender<T>(tokio::sync::mpsc::Sender<T>);

/// A live connection on this node: its user, its token claims, the queue of its writer task,
/// and the channels it is subscribed to.
pub struct ConnHandle {
    pub user_id: String,
    pub claims: Option<Claims>,
    pub tx: Sender<Reply>,
    pub subs: StrMap<()>,
}

/// A connection as values (its queue is not modeled).
pub struct ConnModel {
    pub user_id: Seq<char>,
    pub claims: Option<ClaimsModel>,
    pub subs: Set<Seq<char>>,
}

pub open spec fn claims_opt_view(c: Option<Claims>) -> Option<ClaimsModel> {
    match c {
        Some(c) => Some(c@),
        None => None,
    }
}

impl View for ConnHandle {
    type V = ConnModel;

    open spec fn view(&self) -> ConnModel {
        ConnModel {
            user_id: self.user_id@,
            claims: claims_opt_view(self.claims),
            subs: self.subs@.dom(),
        }
    }
}

impl ConnHandle {
    /// A copy of the connection's claims.
    pub fn claims_copy(&self) -> (c: Option<Claims>)
        ensures
            claims_opt_view(c) == claims_opt_view(self.claims),
    {
        match &self.claims {
            Some(c) => Some(c.clone()),
            None => None,
        }
    }

    /// A copy of the connection's user id.
    pub fn user(&self) -> (u: String)
        ensures
            u@ == self.user_id@,
    {
        self.user_id.clone()
    }
}

// ─── what the hub's tables hold, and the calls into them ───

/// What the connection table holds: client id to connection.
pub uninterp spec fn connection_table(m: DashMap<String, ConnHandle>) -> Map<Seq<char>, ConnHandle>;

/// The replies handed to `try_send` on the queues of the connection table's connections (see
/// [`conn_try_deliver`]), oldest first, each with the id of the connection whose queue it was
/// handed to, whether or not the queue took it. A new table has handed over nothing, and
/// inserting or removing entries hands over nothing.
pub uninterp spec fn handed_over(m: DashMap<String, ConnHandle>) -> Seq<(Seq<char>, Reply)>;

/// What the channel index holds: channel to the set of its local subscribers.
pub uninterp spec fn channel_table(m: DashMap<String, StrMap<()>>) -> Map<Seq<char>, StrMap<()>>;

/// `DashMap::new` for the connection table: an empty map.
#[verifier::external_body]
fn conns_new() -> (r: DashMap<String, ConnHandle>)
    ensures
        connection_table(r) =~= Map::empty(),
        handed_over(r) == Seq::<(Seq<char>, Reply)>::empty(),
{
    DashMap::new()
}

/// `DashMap::insert` on the connection table.
#[verifier::external_body]
fn conns_insert(m: &mut DashMap<String, ConnHandle>, k: String, v: ConnHandle) -> (r: Option<ConnHandle>)
    ensures
        connection_table(*final(m)) == connection_table(*old(m)).insert(k@, v),
        handed_over(*final(m)) == handed_over(*old(m)),
        r is Some == connection_table(*old(m)).dom().contains(k@),
        r matches Some(x) ==> x == connection_table(*old(m))[k@],
{
    m.insert(k, v)
}

/// `DashMap::remove` on the connection table.
#[verifier::external_body]
fn conns_remove(m: &mut DashMap<String, ConnHandle>, k: &str) -> (r: Option<ConnHandle>)
    ensures
        connection_table(*final(m)) == connection_table(*old(m)).remove(k@),
        handed_over(*final(m)) == handed_over(*old(m)),
        r is Some == connection_table(*old(m)).dom().contains(k@),
        r matches Some(x) ==> x == connection_table(*old(m))[k@],
{
    m.remove(k).map(|(_, v)| v)
}

/// `DashMap::len` on the connection table: the number of entries, of which there are finitely
/// many.
#[verifier::external_body]
fn conns_len(m: &DashMap<String, ConnHandle>) -> (r: usize)
    ensures
        size_of(connection_table(*m).dom()) == Some(r as nat),
{
    m.len()
}

/// `DashMap::iter` on the connection table, each entry mapped to its client id and user id
/// (with the library's `ConnHandle::user`). Every entry comes out once.
#[verifier::external_body]
fn conns_users(m: &DashMap<String, ConnHandle>) -> (r: Vec<(String, String)>)
    ensures
        r@.map_values(|e: (String, String)| e.0@).no_duplicates(),
        r@.map_values(|e: (String, String)| e.0@).to_set() == connection_table(*m).dom(),
        forall|i: int| 0 <= i < r@.len() ==> connection_table(*m).dom().contains((#[trigger] r@[i]).0@)
            && r@[i].1@ == connection_table(*m)[r@[i].0@].user_id@,
{
    m.iter().map(|e| (e.key().clone(), e.value().user())).collect()
}

/// `DashMap::get` on the connection table, copying the claims of the connection found (with the
/// library's `ConnHandle::claims_copy`).
#[verifier::external_body]
fn conn_claims(m: &DashMap<String, ConnHandle>, k: &str) -> (r: Option<Option<Claims>>)
    ensures
        r is Some == connection_table(*m).dom().contains(k@),
        r matches Some(c) ==> claims_opt_view(c) == claims_opt_view(connection_table(*m)[k@].claims),
{
    m.get(k).map(|h| h.claims_copy())
}

/// `DashMap::get` on the connection table, copying the user id of the connection found (with
/// the library's `ConnHandle::user`).
#[verifier::external_body]
fn conn_user(m: &DashMap<String, ConnHandle>, k: &str) -> (r: Option<String>)
    ensures
        r is Some == connection_table(*m).dom().contains(k@),
        r matches Some(u) ==> u@ == connection_table(*m)[k@].user_id@,
{
    m.get(k).map(|h| h.user())
}

/// `DashMap::get` on the connection table, telling whether the connection found is subscribed
/// to `channel` (with the library's `StrMap::contains_key`); an unknown client is not.
#[verifier::external_body]
fn conn_has_sub(m: &DashMap<String, ConnHandle>, k: &str, channel: &str) -> (r: bool)
    ensures
        r == (connection_table(*m).dom().contains(k@) && connection_table(*m)[k@]@.subs.contains(
            channel@,
        )),
{
    m.get(k).map(|h| h.subs.contains_key(channel)).unwrap_or(false)
}

/// `DashMap::get` on the connection table, then `tokio::sync::mpsc::Sender::try_send` of `reply`
/// on the queue of the connection found: the reply is handed to that queue, once, and the
/// table's entries stay as they are; an unknown client is handed nothing. Whether the queue took
/// the reply depends on the receiving task (a full or closed queue refuses it), so nothing is
/// stated of the answer beyond that an unknown client's is `false`.
#[verifier::external_body]
fn conn_try_deliver(m: &mut DashMap<String, ConnHandle>, k: &str, reply: Reply) -> (r: bool)
    ensures
        connection_table(*final(m)) == connection_table(*old(m)),
        handed_over(*final(m)) == if connection_table(*old(m)).dom().contains(k@) {
            handed_over(*old(m)).push((k@, reply))
        } else {
            handed_over(*old(m))
        },
        !connection_table(*old(m)).dom().contains(k@) ==> !r,
{
    match m.get(k) {
        Some(h) => h.tx.try_send(reply).is_ok(),
        None => false,
    }
}

/// `DashMap::new` for the channel index: an empty map.
#[verifier::external_body]
fn chans_new() -> (r: DashMap<String, StrMap<()>>)
    ensures
        channel_table(r) =~= Map::empty(),
{
    DashMap::new()
}

/// `DashMap::insert` on the channel index.
#[verifier::external_body]
fn chans_insert(m: &mut DashMap<String, StrMap<()>>, k: String, v: StrMap<()>) -> (r: Option<StrMap<()>>)
    ensures
        channel_table(*final(m)) == channel_table(*old(m)).insert(k@, v),
        r is Some == channel_table(*old(m)).dom().contains(k@),
        r matches Some(x) ==> x == channel_table(*old(m))[k@],
{
    m.insert(k, v)
}

/// `DashMap::remove` on the channel index.
#[verifier::external_body]
fn chans_remove(m: &mut DashMap<String, StrMap<()>>, k: &str) -> (r: Option<StrMap<()>>)
    ensures
        channel_table(*final(m)) == channel_table(*old(m)).remove(k@),
        r is Some == channel_table(*old(m)).dom().contains(k@),
        r matches Some(x) ==> x == channel_table(*old(m))[k@],
{
    m.remove(k).map(|(_, v)| v)
}

/// `DashMap::len` on the channel index: the number of entries, of which there are finitely many.
#[verifier::external_body]
fn chans_len(m: &DashMap<String, StrMap<()>>) -> (r: usize)
    ensures
        size_of(channel_table(*m).dom()) == Some(r as nat),
{
    m.len()
}

/// `DashMap::iter` on the channel index, each entry mapped to its channel name. Every entry
/// comes out once.
#[verifier::external_body]
fn chans_keys(m: &DashMap<String, StrMap<()>>) -> (r: Vec<String>)
    ensures
        views(r@).no_duplicates(),
        views(r@).to_set() == channel_table(*m).dom(),
{
    m.iter().map(|e| e.key().clone()).collect()
}

/// `DashMap::get` on the channel index, listing the subscribers of the channel found (with the
/// library's `StrMap::keys`).
#[verifier::external_body]
fn chans_members(m: &DashMap<String, StrMap<()>>, k: &str) -> (r: Option<Vec<String>>)
    ensures
        r is Some == channel_table(*m).dom().contains(k@),
        r matches Some(ks) ==> views(ks@).no_duplicates() && views(ks@).to_set() == channel_table(
            *m,
        )[k@]@.dom(),
{
    m.get(k).map(|s| s.keys())
}

// ─── the hub ───

/// Connections and the local subscriber index of this node.
pub struct Hub {
    connections: DashMap<ClientId, ConnHandle>,
    channels: DashMap<Channel, StrMap<()>>,
}

/// The connections by their models.
pub open spec fn conns_view(m: Map<Seq<char>, ConnHandle>) -> Map<Seq<char>, ConnModel> {
    m.map_values(|h: ConnHandle| h@)
}

/// The subscriber index by sets.
pub open spec fn subs_view(m: Map<Seq<char>, StrMap<()>>) -> Map<Seq<char>, Set<Seq<char>>> {
    m.map_values(|s: StrMap<()>| s@.dom())
}

/// The set of subscribers of `channel` in an index (empty when absent).
pub open spec fn members(index: Map<Seq<char>, Set<Seq<char>>>, channel: Seq<char>) -> Set<Seq<char>> {
    if index.dom().contains(channel) {
        index[channel]
    } else {
        Set::empty()
    }
}

/// Whether a connection is one that a server unsubscribe of `user` from `channel` addresses:
/// the user is named, owns the connection, and the connection is subscribed to the channel.
pub open spec fn unsub_selects(user: Seq<char>, channel: Seq<char>, c: ConnModel) -> bool {
    user.len() > 0 && c.user_id == user && c.subs.contains(channel)
}

/// The connections after `channel` leaves the subscriptions of every connection in `sel`.
pub open spec fn conns_without(
    conns: Map<Seq<char>, ConnModel>,
    channel: Seq<char>,
    sel: Set<Seq<char>>,
) -> Map<Seq<char>, ConnModel> {
    Map::new(
        |id: Seq<char>| conns.dom().contains(id),
        |id: Seq<char>| if sel.contains(id) {
            ConnModel { subs: conns[id].subs.remove(channel), ..conns[id] }
        } else {
            conns[id]
        },
    )
}

/// The subscriber index after every client in `sel` leaves `channel` (a channel left without
/// subscribers is dropped).
pub open spec fn index_without(
    index: Map<Seq<char>, Set<Seq<char>>>,
    channel: Seq<char>,
    sel: Set<Seq<char>>,
) -> Map<Seq<char>, Set<Seq<char>>> {
    if sel.is_empty() || !index.dom().contains(channel) {
        index
    } else {
        let rest = index[channel].difference(sel);
        if rest.is_empty() {
            index.remove(channel)
        } else {
            index.insert(channel, rest)
        }
    }
}

/// The connections that a server unsubscribe of `user` from `channel` addresses.
pub open spec fn unsub_selected(conns: Map<Seq<char>, ConnModel>, user: Seq<char>, channel: Seq<char>) -> Set<Seq<char>> {
    conns.dom().filter(|id: Seq<char>| unsub_selects(user, channel, conns[id]))
}

/// One more client leaving `channel` is one more step of `index_without`.
proof fn lemma_index_without_step(
    index: Map<Seq<char>, Set<Seq<char>>>,
    channel: Seq<char>,
    sel: Set<Seq<char>>,
    x: Seq<char>,
)
    requires
        !sel.contains(x),
    ensures
        ({
            let a = index_without(index, channel, sel);
            index_without(index, channel, sel.insert(x)) == if a.dom().contains(channel) {
                let rest = a[channel].remove(x);
                if rest.is_empty() {
                    a.remove(channel)
                } else {
                    a.insert(channel, rest)
                }
            } else {
                a
            }
        }),
{
    let a = index_without(index, channel, sel);
    assert(!sel.insert(x).is_empty()) by {
        assert(sel.insert(x).contains(x));
    }
    if index.dom().contains(channel) {
        let rest2 = index[channel].difference(sel.insert(x));
        if sel.is_empty() {
            assert(sel =~= Set::<Seq<char>>::empty());
            assert(rest2 =~= index[channel].remove(x));
        } else {
            let rest = index[channel].difference(sel);
            assert(rest2 =~= rest.remove(x));
            if rest.is_empty() {
                assert(rest2 =~= Set::<Seq<char>>::empty());
                assert(rest2.is_empty());
            }
        }
    }
}

/// The targets of a fan-out on `channel`: its local subscribers that have a live connection.
pub open spec fn fan_out_set(
    index: Map<Seq<char>, Set<Seq<char>>>,
    conns: Map<Seq<char>, ConnModel>,
    channel: Seq<char>,
) -> Set<Seq<char>> {
    members(index, channel).filter(|c: Seq<char>| conns.dom().contains(c))
}

/// Whether the log of `after` is `log` followed by one hand-over to each target of a fan-out on
/// `channel` in `after`, and to no other; where `v` is given, each reply handed over says `v`.
pub open spec fn fanned_out(log: Seq<(Seq<char>, Reply)>, after: Hub, channel: Seq<char>, v: Option<PushModel>) -> bool {
    let n = log.len();
    let d = after.sent_log().skip(n as int);
    &&& after.sent_log().len() >= n
    &&& after.sent_log().take(n as int) == log
    &&& d.map_values(|e: (Seq<char>, Reply)| e.0).no_duplicates()
    &&& d.map_values(|e: (Seq<char>, Reply)| e.0).to_set() == fan_out_set(after.index(), after.conns(), channel)
    &&& v is Some ==> forall|i: int| 0 <= i < d.len() ==> push_view(#[trigger] d[i].1) == v
}

/// Whether `r` is the `Unsubscribe` push for `channel` with `code` and `reason`.
pub open spec fn is_unsubscribe(r: Reply, channel: Seq<char>, code: u32, reason: Seq<char>) -> bool {
    &&& r.id == 0
    &&& r.error is None
    &&& (r.payload matches Some(ReplyPayload::Push(Push { channel: ch, event: Some(PushEvent::Unsubscribe(u)) }))
        && ch@ == channel && u.code == code && u.reason@ == reason)
}

/// Whether `sent` addresses one `Unsubscribe` push for `channel` with `code` and `reason` to each
/// connection of `sel`, and to no other.
pub open spec fn unsubscribe_sends(
    sent: Seq<(Seq<char>, Reply)>,
    sel: Set<Seq<char>>,
    channel: Seq<char>,
    code: u32,
    reason: Seq<char>,
) -> bool {
    &&& sent.map_values(|e: (Seq<char>, Reply)| e.0).no_duplicates()
    &&& sent.map_values(|e: (Seq<char>, Reply)| e.0).to_set() == sel
    &&& forall|i: int| 0 <= i < sent.len() ==> is_unsubscribe(#[trigger] sent[i].1, channel, code, reason)
}

/// Whether `r` is the `Disconnect` push (no reconnect advice) with `code` and `reason`.
pub open spec fn is_disconnect(r: Reply, code: u32, reason: Seq<char>) -> bool {
    &&& r.id == 0
    &&& r.error is None
    &&& (r.payload matches Some(ReplyPayload::Push(Push { channel, event: Some(PushEvent::Disconnect(d)) }))
        && channel@.len() == 0 && d.code == code && d.reason@ == reason && !d.reconnect)
}

/// Whether `sent` addresses one `Disconnect` push with `code` and `reason` to each connection of
/// `sel`, and to no other.
pub open spec fn disconnect_sends(
    sent: Seq<(Seq<char>, Reply)>,
    sel: Set<Seq<char>>,
    code: u32,
    reason: Seq<char>,
) -> bool {
    &&& sent.map_values(|e: (Seq<char>, Reply)| e.0).no_duplicates()
    &&& sent.map_values(|e: (Seq<char>, Reply)| e.0).to_set() == sel
    &&& forall|i: int| 0 <= i < sent.len() ==> is_disconnect(#[trigger] sent[i].1, code, reason)
}

/// The connections that a disconnect for `(user, client)` addresses.
pub open spec fn disconnect_selected(conns: Map<Seq<char>, ConnModel>, user: Seq<char>, client: Seq<char>) -> Set<Seq<char>> {
    conns.dom().filter(|id: Seq<char>| disconnect_selects(user, client, conns[id].user_id, id))
}

/// Whether a connection of `user` with id `id` is one that a disconnect for `(user, client)`
/// addresses: each non-empty selector must match, and at least one is given.
pub open spec fn disconnect_selects(user: Seq<char>, client: Seq<char>, conn_user: Seq<char>, id: Seq<char>) -> bool {
    &&& (user.len() == 0 || conn_user == user)
    &&& (client.len() == 0 || id == client)
    &&& !(user.len() == 0 && client.len() == 0)
}

/// The number of elements of a set, when it is finite.
pub open spec fn size_of(s: Set<Seq<char>>) -> Option<nat> {
    if s.finite() {
        Some(s.len())
    } else {
        None
    }
}

fn empty_set() -> (s: StrMap<()>)
    ensures
        s@.dom() == Set::<Seq<char>>::empty(),
{
    let s = StrMap::new();
    assert(s@.dom() =~= Set::<Seq<char>>::empty());
    s
}

impl Hub {
    /// The connections.
    pub closed spec fn conns(&self) -> Map<Seq<char>, ConnModel> {
        conns_view(connection_table(self.connections))
    }

    /// The replies this hub has handed to the connections' queues (with [`Hub::send`] and
    /// [`Hub::fan_out`]), oldest first, each with the connection it was addressed to.
    pub closed spec fn sent_log(&self) -> Seq<(Seq<char>, Reply)> {
        handed_over(self.connections)
    }

    /// The local subscribers of each channel.
    pub closed spec fn index(&self) -> Map<Seq<char>, Set<Seq<char>>> {
        subs_view(channel_table(self.channels))
    }

    /// An empty hub.
    pub fn new() -> (h: Self)
        ensures
            h.conns() == Map::<Seq<char>, ConnModel>::empty(),
            h.index() == Map::<Seq<char>, Set<Seq<char>>>::empty(),
            h.sent_log() == Seq::<(Seq<char>, Reply)>::empty(),
    {
        let h = Hub { connections: conns_new(), channels: chans_new() };
        assert(h.conns() =~= Map::<Seq<char>, ConnModel>::empty());
        assert(h.index() =~= Map::<Seq<char>, Set<Seq<char>>>::empty());
        h
    }

    /// Adds `client` to the local subscribers of `channel`. Returns whether it is the first one.
    pub fn add_sub(&mut self, channel: &str, client: &str) -> (first: bool)
        ensures
            final(self).index() == old(self).index().insert(
                channel@,
                members(old(self).index(), channel@).insert(client@),
            ),
            first == members(old(self).index(), channel@).is_empty(),
            final(self).conns() == old(self).conns(),
            final(self).sent_log() == old(self).sent_log(),
    {
        let mut set = match chans_remove(&mut self.channels, channel) {
            Some(s) => s,
            None => empty_set(),
        };
        let first = set.len() == 0;
        if first {
            set.lemma_empty_dom();
        }
        proof {
            if !first {
                assert(set@.dom().len() > 0);
                assert(!set@.dom().is_empty()) by {
                    if set@.dom().is_empty() {
                        assert(set@.dom() =~= Set::<Seq<char>>::empty());
                    }
                }
            }
        }
        let _ = set.insert(client.to_owned(), ());
        let _ = chans_insert(&mut self.channels, channel.to_owned(), set);
        assert(self.index() =~= old(self).index().insert(
            channel@,
            members(old(self).index(), channel@).insert(client@),
        ));
        first
    }

    /// Removes `client` from the local subscribers of `channel`. Returns whether the last one
    /// left (the channel is then dropped from the index).
    pub fn remove_sub(&mut self, channel: &str, client: &str) -> (last: bool)
        ensures
            old(self).index().dom().contains(channel@) ==> {
                let rest = old(self).index()[channel@].remove(client@);
                &&& last == rest.is_empty()
                &&& final(self).index() == if rest.is_empty() {
                    old(self).index().remove(channel@)
                } else {
                    old(self).index().insert(channel@, rest)
                }
            },
            !old(self).index().dom().contains(channel@) ==> !last && final(self).index() == old(self).index(),
            final(self).conns() == old(self).conns(),
            final(self).sent_log() == old(self).sent_log(),
    {
        match chans_remove(&mut self.channels, channel) {
            Some(mut set) => {
                let _ = set.remove(client);
                let n = set.len();
                if n == 0 {
                    set.lemma_empty_dom();
                    assert(self.index() =~= old(self).index().remove(channel@));
                    true
                } else {
                    assert(!set@.dom().is_empty()) by {
                        if set@.dom().is_empty() {
                            assert(set@.dom() =~= Set::<Seq<char>>::empty());
                        }
                    }
                    let _ = chans_insert(&mut self.channels, channel.to_owned(), set);
                    assert(self.index() =~= old(self).index().insert(
                        channel@,
                        old(self).index()[channel@].remove(client@),
                    ));
                    false
                }
            },
            None => {
                assert(self.index() =~= old(self).index());
                false
            },
        }
    }

    /// The local subscribers of `channel` that have a live connection: the targets of a fan-out.
    pub fn fan_out_targets(&self, channel: &str) -> (ts: Vec<ClientId>)
        ensures
            views(ts@).no_duplicates(),
            views(ts@).to_set() == fan_out_set(self.index(), self.conns(), channel@),
    {
        match chans_members(&self.channels, channel) {
            Some(ms) => {
                let mut out: Vec<String> = Vec::new();
                let mut i: usize = 0;
                while i < ms.len()
                    invariant
                        i <= ms@.len(),
                        views(ms@).no_duplicates(),
                        views(out@) == views(ms@).take(i as int).filter(
                            |c: Seq<char>| self.conns().dom().contains(c),
                        ),
                    decreases ms@.len() - i,
                {
                    let c = &ms[i];
                    let present = conn_user(&self.connections, c.as_str()).is_some();
                    let ghost before = out@;
                    proof {
                        views(ms@).take(i as int).lemma_filter_push(
                            views(ms@)[i as int],
                            |c: Seq<char>| self.conns().dom().contains(c),
                        );
                        assert(views(ms@).take(i as int + 1) =~= views(ms@).take(i as int).push(
                            views(ms@)[i as int],
                        ));
                    }
                    if present {
                        out.push(c.clone());
                        assert(views(out@) =~= views(before).push(c@));
                    }
                    i = i + 1;
                }
                proof {
                    assert(views(ms@).take(ms@.len() as int) =~= views(ms@));
                    let f = |c: Seq<char>| self.conns().dom().contains(c);
                    lemma_filter_no_dup(views(ms@), f);
                    lemma_filter_to_set(views(ms@), f);
                    assert(self.index()[channel@] == channel_table(self.channels)[channel@]@.dom());
                }
                out
            },
            None => {
                let out: Vec<String> = Vec::new();
                assert(views(out@) =~= Seq::<Seq<char>>::empty());
                assert(views(out@).to_set() =~= members(self.index(), channel@).filter(
                    |c: Seq<char>| self.conns().dom().contains(c),
                ));
                out
            },
        }
    }

    /// Local fan-out: hands a copy of `reply` to the queue of every local subscriber of
    /// `channel` that has a live connection, once each. A full or closed queue drops the reply
    /// for that subscriber.
    pub fn fan_out(&mut self, channel: &str, reply: Reply)
        ensures
            final(self).conns() == old(self).conns(),
            final(self).index() == old(self).index(),
            fanned_out(old(self).sent_log(), *final(self), channel@, push_view(reply)),
    {
        let targets = self.fan_out_targets(channel);
        let ghost before = self.sent_log();
        let ghost n0 = before.len();
        let ghost vs = views(targets@);
        let ghost v = push_view(reply);
        proof {
            assert(self.sent_log().take(n0 as int) =~= before);
        }
        let mut i: usize = 0;
        while i < targets.len()
            invariant
                i <= targets@.len(),
                vs == views(targets@),
                vs.to_set() == fan_out_set(old(self).index(), old(self).conns(), channel@),
                self.conns() == old(self).conns(),
                self.index() == old(self).index(),
                self.sent_log().len() == n0 + i,
                self.sent_log().take(n0 as int) == before,
                before == old(self).sent_log(),
                n0 == before.len(),
                v == push_view(reply),
                forall|j: int| 0 <= j < i ==> (#[trigger] self.sent_log()[n0 + j]).0 == vs[j]
                    && (v is Some ==> push_view(self.sent_log()[n0 + j].1) == v),
            decreases targets@.len() - i,
        {
            let c = copy_reply(&reply);
            let ghost prev = self.sent_log();
            proof {
                assert(vs.to_set().contains(vs[i as int]));
                assert(self.conns().dom().contains(vs[i as int]));
            }
            let _ = conn_try_deliver(&mut self.connections, targets[i].as_str(), c);
            proof {
                assert(self.sent_log().take(n0 as int) =~= prev.take(n0 as int));
                assert forall|j: int| 0 <= j < i + 1 implies (#[trigger] self.sent_log()[n0 + j]).0 == vs[j]
                    && (v is Some ==> push_view(self.sent_log()[n0 + j].1) == v) by {
                    if j < i {
                        assert(self.sent_log()[n0 + j] == prev[n0 + j]);
                    }
                }
            }
            i = i + 1;
        }
        proof {
            let d = self.sent_log().skip(n0 as int);
            let ids_of = d.map_values(|e: (Seq<char>, Reply)| e.0);
            assert(d.len() == vs.len());
            assert forall|j: int| 0 <= j < d.len() implies #[trigger] ids_of[j] == vs[j] by {
                assert(d[j] == self.sent_log()[n0 + j]);
            }
            assert(ids_of =~= vs);
            assert forall|j: int| 0 <= j < d.len() && v is Some implies push_view(#[trigger] d[j].1) == v by {
                assert(d[j] == self.sent_log()[n0 + j]);
            }
        }
    }

    /// Hands `reply` to the queue of the connection `client`. Whether the queue took it depends
    /// on the connection's writer (a full or closed queue refuses it); an unknown client takes
    /// nothing.
    pub fn send(&mut self, client: &str, reply: Reply) -> (queued: bool)
        ensures
            final(self).sent_log() == if old(self).conns().dom().contains(client@) {
                old(self).sent_log().push((client@, reply))
            } else {
                old(self).sent_log()
            },
            final(self).conns() == old(self).conns(),
            final(self).index() == old(self).index(),
            !old(self).conns().dom().contains(client@) ==> !queued,
    {
        conn_try_deliver(&mut self.connections, client, reply)
    }

    /// Whether `client` is a local subscriber of `channel`, and how many local subscribers the
    /// channel has.
    pub fn subscriber_count(&self, channel: &str, client: &str) -> (r: (bool, usize))
        ensures
            r.0 == members(self.index(), channel@).contains(client@),
            size_of(members(self.index(), channel@)) == Some(r.1 as nat),
    {
        match chans_members(&self.channels, channel) {
            Some(ms) => {
                let ghost vs = views(ms@);
                proof {
                    vs.unique_seq_to_set();
                    assert(self.index()[channel@] == channel_table(self.channels)[channel@]@.dom());
                }
                let mut found = false;
                let mut i: usize = 0;
                while i < ms.len()
                    invariant
                        i <= ms@.len(),
                        vs == views(ms@),
                        found == vs.take(i as int).contains(client@),
                    decreases ms@.len() - i,
                {
                    let ghost prev = vs.take(i as int);
                    let ghost next = vs.take(i as int + 1);
                    assert(next =~= prev.push(vs[i as int]));
                    assert(vs[i as int] == ms@[i as int]@);
                    if same_text(ms[i].as_str(), client) {
                        found = true;
                        assert(next[i as int] == client@);
                    } else {
                        assert(next.contains(client@) == prev.contains(client@)) by {
                            if next.contains(client@) {
                                let k = choose|k: int| 0 <= k < next.len() && next[k] == client@;
                                assert(k != i);
                                assert(prev[k] == client@);
                            }
                            if prev.contains(client@) {
                                let k = choose|k: int| 0 <= k < prev.len() && prev[k] == client@;
                                assert(next[k] == client@);
                            }
                        }
                    }
                    i = i + 1;
                }
                assert(vs.take(ms@.len() as int) =~= vs);
                (found, ms.len())
            },
            None => {
                assert(members(self.index(), channel@) =~= Set::<Seq<char>>::empty());
                (false, 0)
            },
        }
    }

    /// The number of channels with local subscribers.
    pub fn num_channels(&self) -> (n: usize)
        ensures
            n == self.index().dom().len(),
            self.index().dom().finite(),
    {
        assert(self.index().dom() =~= channel_table(self.channels).dom());
        chans_len(&self.channels)
    }

    /// The number of live connections.
    pub fn num_connections(&self) -> (n: usize)
        ensures
            n == self.conns().dom().len(),
            self.conns().dom().finite(),
    {
        assert(self.conns().dom() =~= connection_table(self.connections).dom());
        conns_len(&self.connections)
    }

    /// The channels with local subscribers, each once.
    pub fn channels_list(&self) -> (cs: Vec<Channel>)
        ensures
            views(cs@).no_duplicates(),
            views(cs@).to_set() == self.index().dom(),
    {
        chans_keys(&self.channels)
    }

    /// The number of live connections of `user` on this node.
    pub fn user_connection_count(&self, user: &str) -> (n: usize)
        ensures
            n == self.conns().dom().filter(|id: Seq<char>| self.conns()[id].user_id == user@).len(),
    {
        let list = conns_users(&self.connections);
        proof {
            assert(self.conns().dom() =~= connection_table(self.connections).dom());
            assert forall|j: int| 0 <= j < list@.len() implies (#[trigger] list@[j]).1@ == self.conns()[list@[j].0@].user_id by {
                assert(connection_table(self.connections).dom().contains(list@[j].0@));
            }
        }
        let ghost ids = list@.map_values(|e: (String, String)| e.0@);
        let ghost f = |id: Seq<char>| self.conns()[id].user_id == user@;
        let u = user.to_owned();
        let mut n: usize = 0;
        let mut i: usize = 0;
        while i < list.len()
            invariant
                i <= list@.len(),
                u@ == user@,
                ids == list@.map_values(|e: (String, String)| e.0@),
                ids.no_duplicates(),
                ids.to_set() == self.conns().dom(),
                forall|j: int| 0 <= j < list@.len() ==> (#[trigger] list@[j]).1@ == self.conns()[list@[j].0@].user_id,
                f == (|id: Seq<char>| self.conns()[id].user_id == user@),
                n == ids.take(i as int).filter(f).len(),
            decreases list@.len() - i,
        {
            proof {
                ids.take(i as int).lemma_filter_push(ids[i as int], f);
                assert(ids.take(i as int + 1) =~= ids.take(i as int).push(ids[i as int]));
                assert(ids[i as int] == list@[i as int].0@);
            }
            if list[i].1 == u {
                proof {
                    ids.take(i as int).filter(f).push(ids[i as int]);
                }
                n = n + 1;
            }
            i = i + 1;
        }
        proof {
            assert(ids.take(list@.len() as int) =~= ids);
            lemma_filter_no_dup(ids, f);
            lemma_filter_to_set(ids, f);
            ids.filter(f).unique_seq_to_set();
        }
        n
    }

    /// The live connections that a disconnect for `(user, client)` addresses, each once.
    pub fn matching_clients(&self, user: &str, client: &str) -> (ids: Vec<ClientId>)
        ensures
            views(ids@).no_duplicates(),
            views(ids@).to_set() == self.conns().dom().filter(
                |id: Seq<char>| disconnect_selects(user@, client@, self.conns()[id].user_id, id),
            ),
    {
        let list = conns_users(&self.connections);
        proof {
            assert(self.conns().dom() =~= connection_table(self.connections).dom());
            assert forall|j: int| 0 <= j < list@.len() implies (#[trigger] list@[j]).1@ == self.conns()[list@[j].0@].user_id by {
                assert(connection_table(self.connections).dom().contains(list@[j].0@));
            }
        }
        let ghost keys = list@.map_values(|e: (String, String)| e.0@);
        let ghost f = |id: Seq<char>| disconnect_selects(user@, client@, self.conns()[id].user_id, id);
        let u = user.to_owned();
        let c = client.to_owned();
        let no_user = user.is_empty();
        let no_client = client.is_empty();
        let mut out: Vec<String> = Vec::new();
        let mut i: usize = 0;
        while i < list.len()
            invariant
                i <= list@.len(),
                u@ == user@,
                c@ == client@,
                no_user == (user@.len() == 0),
                no_client == (client@.len() == 0),
                keys == list@.map_values(|e: (String, String)| e.0@),
                keys.no_duplicates(),
                keys.to_set() == self.conns().dom(),
                forall|j: int| 0 <= j < list@.len() ==> (#[trigger] list@[j]).1@ == self.conns()[list@[j].0@].user_id,
                f == (|id: Seq<char>| disconnect_selects(user@, client@, self.conns()[id].user_id, id)),
                views(out@) == keys.take(i as int).filter(f),
            decreases list@.len() - i,
        {
            let e = &list[i];
            proof {
                keys.take(i as int).lemma_filter_push(keys[i as int], f);
                assert(keys.take(i as int + 1) =~= keys.take(i as int).push(keys[i as int]));
                assert(keys[i as int] == e.0@);
            }
            let selected = (no_user || e.1 == u) && (no_client || e.0 == c) && !(no_user && no_client);
            if selected {
                let ghost before = out@;
                out.push(e.0.clone());
                assert(views(out@) =~= views(before).push(e.0@));
            }
            i = i + 1;
        }
        proof {
            assert(keys.take(list@.len() as int) =~= keys);
            lemma_filter_no_dup(keys, f);
            lemma_filter_to_set(keys, f);
        }
        out
    }

    /// Forced disconnect on this node: hands a `Disconnect` push with `code` and `reason` (no
    /// reconnect advice) to every connection that the `(user, client)` selectors address, each
    /// once.
    pub fn disconnect_matching(&mut self, user: &str, client: &str, code: u32, reason: &str)
        ensures
            final(self).conns() == old(self).conns(),
            final(self).index() == old(self).index(),
            final(self).sent_log().len() >= old(self).sent_log().len(),
            final(self).sent_log().take(old(self).sent_log().len() as int) == old(self).sent_log(),
            disconnect_sends(
                final(self).sent_log().skip(old(self).sent_log().len() as int),
                disconnect_selected(old(self).conns(), user@, client@),
                code,
                reason@,
            ),
    {
        let ids = self.matching_clients(user, client);
        let ghost before = self.sent_log();
        let ghost n0 = before.len();
        let ghost vs = views(ids@);
        proof {
            assert(self.sent_log().skip(n0 as int) =~= Seq::<(Seq<char>, Reply)>::empty());
            assert(self.sent_log().take(n0 as int) =~= before);
        }
        let mut i: usize = 0;
        while i < ids.len()
            invariant
                i <= ids@.len(),
                vs == views(ids@),
                vs.to_set() == disconnect_selected(old(self).conns(), user@, client@),
                self.conns() == old(self).conns(),
                self.index() == old(self).index(),
                self.sent_log().len() == n0 + i,
                self.sent_log().take(n0 as int) == before,
                before == old(self).sent_log(),
                n0 == before.len(),
                forall|j: int| 0 <= j < i ==> (#[trigger] self.sent_log()[n0 + j]).0 == vs[j]
                    && is_disconnect(self.sent_log()[n0 + j].1, code, reason@),
            decreases ids@.len() - i,
        {
            let push = disconnect_push(code, reason);
            let ghost prev = self.sent_log();
            proof {
                assert(vs.to_set().contains(vs[i as int]));
                assert(self.conns().dom().contains(vs[i as int]));
            }
            let _ = self.send(ids[i].as_str(), push);
            proof {
                assert(self.sent_log().take(n0 as int) =~= prev.take(n0 as int));
                assert forall|j: int| 0 <= j < i + 1 implies (#[trigger] self.sent_log()[n0 + j]).0 == vs[j]
                    && is_disconnect(self.sent_log()[n0 + j].1, code, reason@) by {
                    if j < i {
                        assert(self.sent_log()[n0 + j] == prev[n0 + j]);
                    }
                }
            }
            i = i + 1;
        }
        proof {
            let d = self.sent_log().skip(n0 as int);
            let ids_of = d.map_values(|e: (Seq<char>, Reply)| e.0);
            assert(i == ids@.len());
            assert(d.len() == i);
            assert(ids_of.len() == vs.len());
            assert forall|j: int| 0 <= j < d.len() implies is_disconnect(#[trigger] d[j].1, code, reason@) by {
                assert(d[j] == self.sent_log()[n0 + j]);
            }
            assert forall|j: int| 0 <= j < d.len() implies #[trigger] ids_of[j] == vs[j] by {
                assert(d[j] == self.sent_log()[n0 + j]);
            }
            assert(ids_of =~= vs);
        }
    }

    /// Registers a connection under `id`, replacing any connection of that id.
    pub fn insert_conn(&mut self, id: String, handle: ConnHandle)
        ensures
            final(self).conns() == old(self).conns().insert(id@, handle@),
            final(self).index() == old(self).index(),
            final(self).sent_log() == old(self).sent_log(),
    {
        let _ = conns_insert(&mut self.connections, id, handle);
        assert(self.conns() =~= old(self).conns().insert(id@, handle@));
    }

    /// Removes the connection `id`, handing it back.
    pub fn remove_conn(&mut self, id: &str) -> (h: Option<ConnHandle>)
        ensures
            final(self).conns() == old(self).conns().remove(id@),
            h is Some == old(self).conns().dom().contains(id@),
            h matches Some(x) ==> x@ == old(self).conns()[id@],
            final(self).index() == old(self).index(),
            final(self).sent_log() == old(self).sent_log(),
    {
        let h = conns_remove(&mut self.connections, id);
        assert(self.conns() =~= old(self).conns().remove(id@));
        h
    }

    /// A copy of the claims of connection `id` (none for an unknown connection or a connection
    /// without a token).
    pub fn claims_of(&self, id: &str) -> (c: Option<Claims>)
        ensures
            claims_opt_view(c) == if self.conns().dom().contains(id@) {
                self.conns()[id@].claims
            } else {
                None
            },
    {
        match conn_claims(&self.connections, id) {
            Some(c) => c,
            None => None,
        }
    }

    /// The user of connection `id` (empty for an unknown connection).
    pub fn user_of(&self, id: &str) -> (u: String)
        ensures
            u@ == if self.conns().dom().contains(id@) {
                self.conns()[id@].user_id
            } else {
                Seq::<char>::empty()
            },
    {
        match conn_user(&self.connections, id) {
            Some(u) => u,
            None => String::new(),
        }
    }

    /// Records `channel` among the subscriptions of connection `id` (nothing for an unknown id).
    pub fn conn_add_sub(&mut self, id: &str, channel: &str)
        ensures
            final(self).conns().dom() == old(self).conns().dom(),
            old(self).conns().dom().contains(id@) ==> final(self).conns() == old(self).conns().insert(
                id@,
                ConnModel { subs: old(self).conns()[id@].subs.insert(channel@), ..old(self).conns()[id@] },
            ),
            !old(self).conns().dom().contains(id@) ==> final(self).conns() == old(self).conns(),
            final(self).index() == old(self).index(),
            final(self).sent_log() == old(self).sent_log(),
    {
        match conns_remove(&mut self.connections, id) {
            Some(mut h) => {
                let _ = h.subs.insert(channel.to_owned(), ());
                let _ = conns_insert(&mut self.connections, id.to_owned(), h);
                assert(self.conns() =~= old(self).conns().insert(
                    id@,
                    ConnModel { subs: old(self).conns()[id@].subs.insert(channel@), ..old(self).conns()[id@] },
                ));
            },
            None => {
                assert(self.conns() =~= old(self).conns());
            },
        }
    }

    /// Drops `channel` from the subscriptions of connection `id` (nothing for an unknown id).
    pub fn conn_remove_sub(&mut self, id: &str, channel: &str)
        ensures
            final(self).conns().dom() == old(self).conns().dom(),
            old(self).conns().dom().contains(id@) ==> final(self).conns() == old(self).conns().insert(
                id@,
                ConnModel { subs: old(self).conns()[id@].subs.remove(channel@), ..old(self).conns()[id@] },
            ),
            !old(self).conns().dom().contains(id@) ==> final(self).conns() == old(self).conns(),
            final(self).index() == old(self).index(),
            final(self).sent_log() == old(self).sent_log(),
    {
        match conns_remove(&mut self.connections, id) {
            Some(mut h) => {
                let _ = h.subs.remove(channel);
                let _ = conns_insert(&mut self.connections, id.to_owned(), h);
                assert(self.conns() =~= old(self).conns().insert(
                    id@,
                    ConnModel { subs: old(self).conns()[id@].subs.remove(channel@), ..old(self).conns()[id@] },
                ));
            },
            None => {
                assert(self.conns() =~= old(self).conns());
            },
        }
    }

    /// The live connections of `user` (named) that are subscribed to `channel`, each once.
    pub fn subscribed_clients(&self, user: &str, channel: &str) -> (ids: Vec<ClientId>)
        ensures
            views(ids@).no_duplicates(),
            views(ids@).to_set() == unsub_selected(self.conns(), user@, channel@),
    {
        let list = conns_users(&self.connections);
        proof {
            assert(self.conns().dom() =~= connection_table(self.connections).dom());
            assert forall|j: int| 0 <= j < list@.len() implies (#[trigger] list@[j]).1@ == self.conns()[list@[j].0@].user_id by {
                assert(connection_table(self.connections).dom().contains(list@[j].0@));
            }
        }
        let ghost keys = list@.map_values(|e: (String, String)| e.0@);
        let ghost f = |id: Seq<char>| unsub_selects(user@, channel@, self.conns()[id]);
        let u = user.to_owned();
        let named = !user.is_empty();
        let mut out: Vec<String> = Vec::new();
        let mut i: usize = 0;
        while i < list.len()
            invariant
                i <= list@.len(),
                u@ == user@,
                named == (user@.len() > 0),
                keys == list@.map_values(|e: (String, String)| e.0@),
                keys.no_duplicates(),
                keys.to_set() == self.conns().dom(),
                forall|j: int| 0 <= j < list@.len() ==> (#[trigger] list@[j]).1@ == self.conns()[list@[j].0@].user_id,
                f == (|id: Seq<char>| unsub_selects(user@, channel@, self.conns()[id])),
                views(out@) == keys.take(i as int).filter(f),
            decreases list@.len() - i,
        {
            let e = &list[i];
            proof {
                keys.take(i as int).lemma_filter_push(keys[i as int], f);
                assert(keys.take(i as int + 1) =~= keys.take(i as int).push(keys[i as int]));
                assert(keys[i as int] == e.0@);
                assert(keys.to_set().contains(keys[i as int]));
            }
            let selected = named && e.1 == u && conn_has_sub(&self.connections, e.0.as_str(), channel);
            proof {
                assert(self.conns()[e.0@] == connection_table(self.connections)[e.0@]@);
            }
            if selected {
                let ghost before = out@;
                out.push(e.0.clone());
                assert(views(out@) =~= views(before).push(e.0@));
            }
            i = i + 1;
        }
        proof {
            assert(keys.take(list@.len() as int) =~= keys);
            lemma_filter_no_dup(keys, f);
            lemma_filter_to_set(keys, f);
            assert(keys.to_set().filter(f) =~= unsub_selected(self.conns(), user@, channel@));
        }
        out
    }

    /// Server-side unsubscribe on this node: every live connection of `user` subscribed to
    /// `channel` leaves it (in the index and in its own subscriptions) and is sent an
    /// `Unsubscribe` push with `code` and `reason`.
    pub fn unsubscribe_matching(&mut self, user: &str, channel: &str, code: u32, reason: &str)
        ensures
            final(self).conns() == conns_without(
                old(self).conns(),
                channel@,
                unsub_selected(old(self).conns(), user@, channel@),
            ),
            final(self).index() == index_without(
                old(self).index(),
                channel@,
                unsub_selected(old(self).conns(), user@, channel@),
            ),
            final(self).sent_log().len() >= old(self).sent_log().len(),
            final(self).sent_log().take(old(self).sent_log().len() as int) == old(self).sent_log(),
            unsubscribe_sends(
                final(self).sent_log().skip(old(self).sent_log().len() as int),
                unsub_selected(old(self).conns(), user@, channel@),
                channel@,
                code,
                reason@,
            ),
    {
        let ids = self.subscribed_clients(user, channel);
        let ghost before = self.sent_log();
        let ghost n0 = before.len();
        let ghost c0 = self.conns();
        let ghost i0 = self.index();
        let ghost vs = views(ids@);
        proof {
            assert(self.sent_log().take(n0 as int) =~= before);
            assert(vs.take(0).to_set() =~= Set::<Seq<char>>::empty());
            assert(conns_without(c0, channel@, Set::empty()) =~= c0);
        }
        let mut i: usize = 0;
        while i < ids.len()
            invariant
                i <= ids@.len(),
                vs == views(ids@),
                vs.no_duplicates(),
                vs.to_set() == unsub_selected(c0, user@, channel@),
                self.conns() == conns_without(c0, channel@, vs.take(i as int).to_set()),
                self.index() == index_without(i0, channel@, vs.take(i as int).to_set()),
                self.sent_log().len() == n0 + i,
                self.sent_log().take(n0 as int) == before,
                before == old(self).sent_log(),
                n0 == before.len(),
                forall|j: int| 0 <= j < i ==> (#[trigger] self.sent_log()[n0 + j]).0 == vs[j]
                    && is_unsubscribe(self.sent_log()[n0 + j].1, channel@, code, reason@),
            decreases ids@.len() - i,
        {
            let id = &ids[i];
            let ghost done = vs.take(i as int).to_set();
            proof {
                assert(vs.take(i as int + 1) =~= vs.take(i as int).push(id@));
                vs.take(i as int).lemma_push_to_set_commute(id@);
                assert(!done.contains(id@)) by {
                    if done.contains(id@) {
                        let k = choose|k: int| 0 <= k < i && vs.take(i as int)[k] == id@;
                        assert(vs[k] == vs[i as int]);
                    }
                }
                assert(vs[i as int] == id@);
                assert(vs.contains(id@));
                assert(vs.to_set().contains(id@));
                assert(c0.dom().contains(id@));
                lemma_index_without_step(i0, channel@, done, id@);
            }
            let _ = self.remove_sub(channel, id.as_str());
            self.conn_remove_sub(id.as_str(), channel);
            proof {
                assert(self.conns() =~= conns_without(c0, channel@, done.insert(id@)));
            }
            let ghost prev = self.sent_log();
            proof {
                assert(vs.to_set().contains(vs[i as int]));
                assert(c0.dom().contains(id@));
                assert(self.conns().dom().contains(id@));
            }
            let _ = self.send(id.as_str(), unsubscribe_push(channel, code, reason));
            proof {
                assert(self.sent_log().take(n0 as int) =~= prev.take(n0 as int));
                assert forall|j: int| 0 <= j < i + 1 implies (#[trigger] self.sent_log()[n0 + j]).0 == vs[j]
                    && is_unsubscribe(self.sent_log()[n0 + j].1, channel@, code, reason@) by {
                    if j < i {
                        assert(self.sent_log()[n0 + j] == prev[n0 + j]);
                    }
                }
            }
            i = i + 1;
        }
        assert(vs.take(ids@.len() as int) =~= vs);
        proof {
            let d = self.sent_log().skip(n0 as int);
            let ids_of = d.map_values(|e: (Seq<char>, Reply)| e.0);
            assert(d.len() == vs.len());
            assert forall|j: int| 0 <= j < d.len() implies is_unsubscribe(#[trigger] d[j].1, channel@, code, reason@) by {
                assert(d[j] == self.sent_log()[n0 + j]);
            }
            assert forall|j: int| 0 <= j < d.len() implies #[trigger] ids_of[j] == vs[j] by {
                assert(d[j] == self.sent_log()[n0 + j]);
            }
            assert(ids_of =~= vs);
        }
    }

    /// Delivery of a reply that the broker hands to this node: local fan-out on `channel`.
    pub fn deliver(&mut self, channel: &str, reply: Reply)
        ensures
            final(self).conns() == old(self).conns(),
            final(self).index() == old(self).index(),
            fanned_out(old(self).sent_log(), *final(self), channel@, push_view(reply)),
    {
        self.fan_out(channel, reply);
    }

    /// Carries out a control command addressed to the connections of this node: a forced
    /// disconnect pushes `Disconnect` to the connections it selects; a server unsubscribe
    /// takes the user's connections off the channel (see [`Hub::unsubscribe_matching`]).
    pub fn control(&mut self, cmd: ControlCommand)
        ensures
            match cmd {
                ControlCommand::Disconnect { user, client, code, reason } => {
                    &&& final(self).conns() == old(self).conns()
                    &&& final(self).index() == old(self).index()
                    &&& final(self).sent_log().len() >= old(self).sent_log().len()
                    &&& final(self).sent_log().take(old(self).sent_log().len() as int) == old(self).sent_log()
                    &&& disconnect_sends(
                        final(self).sent_log().skip(old(self).sent_log().len() as int),
                        disconnect_selected(old(self).conns(), user@, client@),
                        code,
                        reason@,
                    )
                },
                ControlCommand::Unsubscribe { user, channel } => {
                    let sel = unsub_selected(old(self).conns(), user@, channel@);
                    &&& final(self).conns() == conns_without(old(self).conns(), channel@, sel)
                    &&& final(self).index() == index_without(old(self).index(), channel@, sel)
                    &&& final(self).sent_log().len() >= old(self).sent_log().len()
                    &&& final(self).sent_log().take(old(self).sent_log().len() as int) == old(self).sent_log()
                    &&& unsubscribe_sends(
                        final(self).sent_log().skip(old(self).sent_log().len() as int),
                        sel,
                        channel@,
                        SERVER_UNSUBSCRIBE_CODE,
                        "server"@,
                    )
                },
            },
    {
        match cmd {
            ControlCommand::Disconnect { user, client, code, reason } => {
                self.disconnect_matching(user.as_str(), client.as_str(), code, reason.as_str());
            },
            ControlCommand::Unsubscribe { user, channel } => {
                self.unsubscribe_matching(user.as_str(), channel.as_str(), SERVER_UNSUBSCRIBE_CODE, "server");
            },
        }
    }
}

/// When the last local subscriber of a channel leaves (see [`Hub::remove_sub`]), the number of
/// channels with local subscribers (see [`Hub::num_channels`], whose index is finite) falls by
/// one.
pub proof fn lemma_last_leave_drops_channel(
    index: Map<Seq<char>, Set<Seq<char>>>,
    channel: Seq<char>,
    client: Seq<char>,
)
    requires
        index.dom().finite(),
        index.dom().contains(channel),
        index[channel].remove(client).is_empty(),
    ensures
        size_of(index.remove(channel).dom()) == Some((index.dom().len() - 1) as nat),
{
    assert(index.remove(channel).dom() =~= index.dom().remove(channel));
}

/// Filtering a sequence without duplicates keeps it without duplicates.
pub proof fn lemma_filter_no_dup(s: Seq<Seq<char>>, f: spec_fn(Seq<char>) -> bool)
    requires
        s.no_duplicates(),
    ensures
        s.filter(f).no_duplicates(),
    decreases s.len(),
{
    if s.len() > 0 {
        let init = s.drop_last();
        assert(s =~= init.push(s.last()));
        assert(init.no_duplicates()) by {
            assert forall|a: int, b: int| 0 <= a < init.len() && 0 <= b < init.len() && a != b implies init[a] != init[b] by {
                assert(init[a] == s[a] && init[b] == s[b]);
            }
        }
        lemma_filter_no_dup(init, f);
        init.lemma_filter_push(s.last(), f);
        if f(s.last()) {
            let fi = init.filter(f);
            assert(!fi.contains(s.last())) by {
                if fi.contains(s.last()) {
                    init.lemma_filter_contains_rev(f, s.last());
                    let k = choose|k: int| 0 <= k < init.len() && init[k] == s.last();
                    assert(s[k] == s[s.len() - 1]);
                }
            }
            let out = fi.push(s.last());
            assert forall|a: int, b: int| 0 <= a < out.len() && 0 <= b < out.len() && a != b implies out[a] != out[b] by {
                if a == out.len() - 1 {
                    assert(fi.contains(out[b]));
                } else if b == out.len() - 1 {
                    assert(fi.contains(out[a]));
                }
            }
        }
    }
}

/// Filtering a sequence and taking the set of what is left is taking its set and filtering it.
pub proof fn lemma_filter_to_set(s: Seq<Seq<char>>, f: spec_fn(Seq<char>) -> bool)
    ensures
        s.filter(f).to_set() == s.to_set().filter(f),
{
    broadcast use vstd::seq_lib::group_filter_ensures;
    assert forall|x: Seq<char>| s.filter(f).to_set().contains(x) <==> s.to_set().filter(f).contains(x) by {
        if s.filter(f).contains(x) {
            s.lemma_filter_contains_rev(f, x);
            let j = choose|j: int| 0 <= j < s.filter(f).len() && s.filter(f)[j] == x;
            assert(f(s.filter(f)[j]));
        }
        if s.to_set().filter(f).contains(x) {
            let i = choose|i: int| 0 <= i < s.len() && s[i] == x;
            assert(s.filter(f).contains(s[i]));
        }
    }
    assert(s.filter(f).to_set() =~= s.to_set().filter(f));
}

/// A push of `event` on `channel` (`id = 0`).
fn push_reply(channel: &str, event: PushEvent) -> (r: Reply)
    ensures
        r.id == 0,
        r.error is None,
        r.payload matches Some(ReplyPayload::Push(p)) && p.channel@ == channel@ && p.event == Some(event),
{
    Reply {
        id: 0,
        error: None,
        payload: Some(ReplyPayload::Push(Push { channel: channel.to_owned(), event: Some(event) })),
    }
}

/// The push announcing that `info` joined `channel`.
pub fn join_push(channel: &str, info: ClientInfo) -> (r: Reply)
    ensures
        r.id == 0,
        r.error is None,
        r.payload matches Some(ReplyPayload::Push(p)) && p.channel@ == channel@ && p.event == Some(
            PushEvent::Join(Join { info: Some(info) }),
        ),
{
    push_reply(channel, PushEvent::Join(Join { info: Some(info) }))
}

/// The push announcing that `info` left `channel`.
pub fn leave_push(channel: &str, info: ClientInfo) -> (r: Reply)
    ensures
        r.id == 0,
        r.error is None,
        r.payload matches Some(ReplyPayload::Push(p)) && p.channel@ == channel@ && p.event == Some(
            PushEvent::Leave(Leave { info: Some(info) }),
        ),
{
    push_reply(channel, PushEvent::Leave(Leave { info: Some(info) }))
}

/// The push closing a connection: code, reason, no reconnect advice.
pub fn disconnect_push(code: u32, reason: &str) -> (r: Reply)
    ensures
        r.id == 0,
        r.error is None,
        r.payload matches Some(ReplyPayload::Push(Push { channel, event: Some(PushEvent::Disconnect(d)) }))
            && channel@.len() == 0 && d.code == code && d.reason@ == reason@ && !d.reconnect,
{
    proof {
        reveal_strlit("");
    }
    push_reply(
        "",
        PushEvent::Disconnect(Disconnect { code, reason: reason.to_owned(), reconnect: false }),
    )
}

/// The push telling a client that the server unsubscribed it from `channel`.
pub fn unsubscribe_push(channel: &str, code: u32, reason: &str) -> (r: Reply)
    ensures
        r.id == 0,
        r.error is None,
        r.payload matches Some(ReplyPayload::Push(Push { channel: ch, event: Some(PushEvent::Unsubscribe(u)) }))
            && ch@ == channel@ && u.code == code && u.reason@ == reason@,
{
    push_reply(channel, PushEvent::Unsubscribe(Unsubscribe { code, reason: reason.to_owned() }))
}

} // verus!
