use vstd::prelude::*;

pub mod dispatcher;
pub mod notifier;
pub mod refresh;
pub mod registry;
pub mod router;
pub mod session;
pub mod value;

verus! {

/// One publish received from the broker: a topic and its payload.
pub struct MqttMessage {
    pub topic: String,
    pub payload: String,
}

} // verus!
