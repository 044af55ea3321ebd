//! Event subscriptions.
use vstd::prelude::*;

verus! {

/// An active subscription of a node to one kind of event.
#[derive(Debug, Clone)]
pub struct EventSubscription {
    pub event_type: String,
    pub node_id: String,
}

impl EventSubscription {
    /// The kind of event subscribed to.
    pub fn event_type(&self) -> (r: &str)
        ensures
            r@ == self.event_type@,
    {
        self.event_type.as_str()
    }

    /// The subscribing node.
    pub fn node_id(&self) -> (r: &str)
        ensures
            r@ == self.node_id@,
    {
        self.node_id.as_str()
    }
}

} // verus!
