use vstd::prelude::*;

use crate::state::{fresh_subscription, BrokerState, MessageState};

verus! {

/// Once a subscription is created under a free name, a second creation under
/// that name is refused (and so changes nothing), and the first one stands
/// as it was made: bound to its topic, with an empty queue.
pub proof fn lemma_duplicate_name_refused(s: BrokerState, topic: Seq<char>, name: Seq<char>)
    requires
        !s.create_refused(name),
    ensures
        s.create_subscription(topic, name).create_refused(name),
        s.create_subscription(topic, name).subscriptions[name] == fresh_subscription(
            topic,
            s.next_generation,
        ),
{
}

/// A publish gives every subscription bound to the topic whose queue is
/// below the bound exactly one copy, at the end of its queue; every other
/// subscription keeps its queue as it was, and no subscription comes or goes.
pub proof fn lemma_publish_fans_out(s: BrokerState, topic: Seq<char>, message: MessageState)
    ensures
        s.publish(topic, message).subscriptions.dom() == s.subscriptions.dom(),
        s.publish(topic, message).topics == s.topics,
        forall|k: Seq<char>| #[trigger]
            s.subscriptions.contains_key(k) ==> {
                let before = s.subscriptions[k];
                let after = s.publish(topic, message).subscriptions[k];
                &&& after.topic == before.topic
                &&& after.generation == before.generation
                &&& if before.topic == topic && before.messages.len() < s.queue_bound {
                    after.messages == before.messages.push(message)
                } else {
                    after.messages == before.messages
                }
            },
{
    assert(s.publish(topic, message).subscriptions.dom() =~= s.subscriptions.dom());
}

/// Two publishes to a subscription's topic reach its queue in the order they
/// were made, when there is room for both.
pub proof fn lemma_publish_order_kept(
    s: BrokerState,
    topic: Seq<char>,
    first: MessageState,
    second: MessageState,
    name: Seq<char>,
)
    requires
        s.subscriptions.contains_key(name),
        s.subscriptions[name].topic == topic,
        s.subscriptions[name].messages.len() + 2 <= s.queue_bound,
    ensures
        s.publish(topic, first).publish(topic, second).subscriptions[name].messages
            == s.subscriptions[name].messages + seq![first, second],
{
    let s1 = s.publish(topic, first);
    assert(s1.subscriptions[name].messages == s.subscriptions[name].messages.push(first));
    assert(s1.subscriptions[name].messages.push(second) =~= s.subscriptions[name].messages
        + seq![first, second]);
}

/// A subscription created after a publish does not receive that message.
pub proof fn lemma_late_subscriber_misses(
    s: BrokerState,
    topic: Seq<char>,
    message: MessageState,
    name: Seq<char>,
)
    requires
        !s.create_refused(name),
    ensures
        s.publish(topic, message).create_subscription(topic, name).subscriptions[name].messages
            == Seq::<MessageState>::empty(),
{
}

/// On a fresh subscription a pull finds nothing pending and has to wait. A
/// publish to its topic then gives it that message; a delete instead
/// detaches the pull, which then ends with no message.
pub proof fn lemma_fresh_pull_waits(
    s: BrokerState,
    topic: Seq<char>,
    name: Seq<char>,
    message: MessageState,
)
    requires
        !s.create_refused(name),
        s.queue_bound > 0,
    ensures
        ({
            let created = s.create_subscription(topic, name);
            let generation = s.next_generation;
            &&& created.session_live(name, generation)
            &&& created.subscriptions[name].messages.len() == 0
            &&& created.publish(topic, message).session_live(name, generation)
            &&& created.publish(topic, message).subscriptions[name].messages == seq![message]
            &&& !created.delete_subscription(name).session_live(name, generation)
        }),
{
    let created = s.create_subscription(topic, name);
    assert(created.subscriptions[name].messages.push(message) =~= seq![message]);
}

/// Deleting the last subscription of a topic takes the topic off the list.
pub proof fn lemma_delete_last_unlists_topic(s: BrokerState, name: Seq<char>)
    requires
        s.consistent(),
        s.subscriptions.contains_key(name),
        s.topics[s.subscriptions[name].topic] == set![name],
    ensures
        !s.delete_subscription(name).topics.contains_key(s.subscriptions[name].topic),
{
    let topic = s.subscriptions[name].topic;
    assert(s.members(topic).remove(name) =~= Set::empty());
}

/// Deleting one of several subscriptions of a topic keeps the topic listed,
/// with the others still bound to it.
pub proof fn lemma_delete_one_keeps_topic(s: BrokerState, name: Seq<char>, other: Seq<char>)
    requires
        s.consistent(),
        s.subscriptions.contains_key(name),
        s.subscriptions.contains_key(other),
        other != name,
        s.subscriptions[other].topic == s.subscriptions[name].topic,
    ensures
        s.delete_subscription(name).topics.contains_key(s.subscriptions[name].topic),
        s.delete_subscription(name).topics[s.subscriptions[name].topic].contains(other),
        s.delete_subscription(name).subscriptions[other] == s.subscriptions[other],
{
    let topic = s.subscriptions[name].topic;
    assert(s.members(topic).remove(name).contains(other));
}

} // verus!
