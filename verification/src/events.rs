//! Connection lifecycle events for the application backend (optional `[events]` section).
//! These are notifications for analytics and cleanup, not authorization.

use vstd::prelude::*;

verus! {

/// `kind` is one of `connected`, `disconnected`, `subscribed`, `unsubscribed`.
#[derive(Debug, Clone)]
pub struct LifecycleEvent {
    pub kind: String,
    pub node: String,
    pub user: String,
    pub client: String,
    pub channel: Option<String>,
}

/// Where events go. The engine hands each event it records to a sink chosen by the server.
pub trait EventSink {
    fn emit(&self, event: LifecycleEvent);
}

/// The default sink: events go nowhere.
pub struct NoopSink;

impl EventSink for NoopSink {
    fn emit(&self, _event: LifecycleEvent) {
    }
}

} // verus!
