//! The bridge from the broker to the hub: replies that reach this node (from other nodes too)
//! go to its local subscribers, and control commands to its connections.

use vstd::prelude::*;
use crate::broker::ControlCommand;
use crate::hub::{Hub, fanned_out, unsubscribe_sends, SERVER_UNSUBSCRIBE_CODE, conns_without, index_without, unsub_selected, disconnect_sends, disconnect_selected};
use crate::protocol::{Reply, push_view};

verus! {

/// Delivery into a hub.
pub struct HubDelivery {
    pub hub: Hub,
}

impl HubDelivery {
    /// Delivery into `hub`.
    pub fn new(hub: Hub) -> (d: Self)
        ensures
            d.hub == hub,
    {
        HubDelivery { hub }
    }

    /// Fans `reply` out to the local subscribers of `channel` (see [`Hub::fan_out`]).
    pub fn deliver(&mut self, channel: &str, reply: Reply)
        ensures
            final(self).hub.conns() == old(self).hub.conns(),
            final(self).hub.index() == old(self).hub.index(),
            fanned_out(old(self).hub.sent_log(), final(self).hub, channel@, push_view(reply)),
    {
        self.hub.deliver(channel, reply);
    }

    /// Carries out `cmd` on the hub's connections (see [`Hub::control`]).
    pub fn control(&mut self, cmd: ControlCommand)
        ensures
            match cmd {
                ControlCommand::Disconnect { user, client, code, reason } => {
                    &&& final(self).hub.conns() == old(self).hub.conns()
                    &&& final(self).hub.index() == old(self).hub.index()
                    &&& final(self).hub.sent_log().len() >= old(self).hub.sent_log().len()
                    &&& final(self).hub.sent_log().take(old(self).hub.sent_log().len() as int)
                        == old(self).hub.sent_log()
                    &&& disconnect_sends(
                        final(self).hub.sent_log().skip(old(self).hub.sent_log().len() as int),
                        disconnect_selected(old(self).hub.conns(), user@, client@),
                        code,
                        reason@,
                    )
                },
                ControlCommand::Unsubscribe { user, channel } => {
                    let sel = unsub_selected(old(self).hub.conns(), user@, channel@);
                    &&& final(self).hub.conns() == conns_without(old(self).hub.conns(), channel@, sel)
                    &&& final(self).hub.index() == index_without(old(self).hub.index(), channel@, sel)
                    &&& final(self).hub.sent_log().len() >= old(self).hub.sent_log().len()
                    &&& final(self).hub.sent_log().take(old(self).hub.sent_log().len() as int) == old(self).hub.sent_log()
                    &&& unsubscribe_sends(
                        final(self).hub.sent_log().skip(old(self).hub.sent_log().len() as int),
                        sel,
                        channel@,
                        SERVER_UNSUBSCRIBE_CODE,
                        "server"@,
                    )
                },
            },
    {
        self.hub.control(cmd);
    }
}

} // verus!
