use vstd::prelude::*;

use crate::context::{PubsubContext, QUEUE_BOUND};
use crate::message::PubsubMessage;
use crate::state::BrokerState;

verus! {

/// A lowercase hexadecimal digit.
pub open spec fn is_hex_digit(c: char) -> bool {
    ('0' <= c && c <= '9') || ('a' <= c && c <= 'f')
}

/// The hyphenated text form of a random (version 4) UUID: 36 characters,
/// hex digits in groups of 8, 4, 4, 4 and 12 joined by '-', with the version
/// digit '4' opening the third group.
pub open spec fn is_message_id(s: Seq<char>) -> bool {
    &&& s.len() == 36
    &&& forall|i: int|
        0 <= i < 36 ==> if i == 8 || i == 13 || i == 18 || i == 23 {
            #[trigger] s[i] == '-'
        } else {
            is_hex_digit(s[i])
        }
    &&& s[14] == '4'
}

/// Relies on `uuid::Uuid::new_v4` for a random UUID and on its `hyphenated`
/// form for the text: lowercase hex in the 8-4-4-4-12 layout, version 4.
/// `new_v4` panics only when the system's source of randomness fails.
#[verifier::external_body]
fn new_message_id() -> (r: String)
    ensures
        is_message_id(r@),
{
    uuid::Uuid::new_v4().hyphenated().to_string()
}

/// The broker as the RPC service presents it: one context per process, and
/// a fresh identifier for every published message.
pub struct Server {
    pub ctx: PubsubContext,
}

impl View for Server {
    type V = BrokerState;

    open spec fn view(&self) -> BrokerState {
        self.ctx@
    }
}

impl Server {
    /// The context is well-formed.
    pub open spec fn wf(&self) -> bool {
        self.ctx.wf()
    }

    /// A server with an empty broker.
    pub fn new() -> (r: Server)
        ensures
            r.wf(),
            r@ == BrokerState::empty(QUEUE_BOUND as nat),
    {
        Server { ctx: PubsubContext::new() }
    }

    /// Publishes `message` to `topic` and answers with the identifier of
    /// this publish: a new random UUID, unrelated to the content.
    pub fn publish(&mut self, topic: &str, message: PubsubMessage) -> (r: String)
        requires
            old(self).wf(),
        ensures
            final(self).wf(),
            final(self)@ == old(self)@.publish(topic@, message@),
            is_message_id(r@),
    {
        self.ctx.publish(topic, message);
        new_message_id()
    }
}

} // verus!
