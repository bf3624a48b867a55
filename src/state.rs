use vstd::prelude::*;

verus! {

/// The abstract content of a message: its timestamp and its bytes.
pub type MessageState = (u64, Seq<u8>);

/// What the broker holds for one subscription.
pub struct SubscriptionState {
    /// The topic it is bound to; it never changes.
    pub topic: Seq<char>,
    /// Pending messages, oldest first.
    pub messages: Seq<MessageState>,
    /// Tells this subscription apart from any earlier or later one of the
    /// same name: a pull session that was opened on an older one sees it as
    /// detached.
    pub generation: u64,
}

/// The broker as a whole: the topic index, the subscription index, the
/// bound of every queue and the generation that the next subscription gets.
pub struct BrokerState {
    pub topics: Map<Seq<char>, Set<Seq<char>>>,
    pub subscriptions: Map<Seq<char>, SubscriptionState>,
    pub queue_bound: nat,
    pub next_generation: u64,
}

/// The names that a sequence of strings holds.
pub open spec fn names_of(s: Seq<String>) -> Set<Seq<char>> {
    Set::new(|k: Seq<char>| exists|i: int| 0 <= i < s.len() && #[trigger] s[i]@ == k)
}

/// No name occurs twice in `s`.
pub open spec fn names_distinct(s: Seq<String>) -> bool {
    forall|i: int, j: int|
        0 <= i < s.len() && 0 <= j < s.len() && i != j ==> #[trigger] s[i]@ != #[trigger] s[j]@
}

pub proof fn lemma_names_push(s: Seq<String>, x: String)
    ensures
        names_of(s.push(x)) == names_of(s).insert(x@),
        names_distinct(s) && !names_of(s).contains(x@) ==> names_distinct(s.push(x)),
{
    let t = s.push(x);
    assert forall|k: Seq<char>| names_of(t).contains(k) <==> names_of(s).insert(x@).contains(k) by {
        if names_of(t).contains(k) {
            let i = choose|i: int| 0 <= i < t.len() && #[trigger] t[i]@ == k;
            if i < s.len() {
                assert(s[i]@ == k);
            }
        }
        if names_of(s).contains(k) {
            let i = choose|i: int| 0 <= i < s.len() && #[trigger] s[i]@ == k;
            assert(t[i]@ == k);
        }
        if k == x@ {
            assert(t[s.len() as int]@ == k);
        }
    }
    assert(names_of(t) =~= names_of(s).insert(x@));
    if names_distinct(s) && !names_of(s).contains(x@) {
        assert forall|i: int, j: int|
            0 <= i < t.len() && 0 <= j < t.len() && i != j implies #[trigger] t[i]@ != #[trigger] t[j]@ by {
            if i < s.len() && j < s.len() {
                assert(t[i] == s[i] && t[j] == s[j]);
            } else if i < s.len() {
                assert(t[i] == s[i]);
                assert(names_of(s).contains(s[i]@));
            } else {
                assert(t[j] == s[j]);
                assert(names_of(s).contains(s[j]@));
            }
        }
    }
}

pub proof fn lemma_names_remove(s: Seq<String>, j: int)
    requires
        names_distinct(s),
        0 <= j < s.len(),
    ensures
        names_of(s.remove(j)) == names_of(s).remove(s[j]@),
        names_distinct(s.remove(j)),
{
    let t = s.remove(j);
    assert forall|a: int| 0 <= a < t.len() implies #[trigger] t[a] == s[if a < j {
        a
    } else {
        a + 1
    }] by {}
    assert forall|k: Seq<char>|
        names_of(t).contains(k) <==> names_of(s).remove(s[j]@).contains(k) by {
        if names_of(t).contains(k) {
            let a = choose|a: int| 0 <= a < t.len() && #[trigger] t[a]@ == k;
            let sa = if a < j {
                a
            } else {
                a + 1
            };
            assert(t[a] == s[sa]);
            assert(s[sa]@ == k);
        }
        if names_of(s).contains(k) && k != s[j]@ {
            let a = choose|a: int| 0 <= a < s.len() && #[trigger] s[a]@ == k;
            if a < j {
                assert(t[a] == s[a]);
                assert(t[a]@ == k);
            } else {
                assert(t[a - 1] == s[a]);
                assert(t[a - 1]@ == k);
            }
        }
    }
    assert(names_of(t) =~= names_of(s).remove(s[j]@));
    assert forall|a: int, b: int|
        0 <= a < t.len() && 0 <= b < t.len() && a != b implies #[trigger] t[a]@ != #[trigger] t[b]@ by {
        let sa = if a < j {
            a
        } else {
            a + 1
        };
        let sb = if b < j {
            b
        } else {
            b + 1
        };
        assert(t[a] == s[sa] && t[b] == s[sb]);
    }
}

pub proof fn lemma_names_prefix(s: Seq<String>, j: int)
    requires
        0 <= j < s.len(),
    ensures
        names_of(s.subrange(0, j + 1)) == names_of(s.subrange(0, j)).insert(s[j]@),
{
    assert(s.subrange(0, j + 1) =~= s.subrange(0, j).push(s[j]));
    lemma_names_push(s.subrange(0, j), s[j]);
}

pub proof fn lemma_names_len(s: Seq<String>)
    requires
        names_distinct(s),
    ensures
        names_of(s).finite(),
        names_of(s).len() == s.len(),
    decreases s.len(),
{
    if s.len() == 0 {
        assert(names_of(s) =~= Set::empty());
    } else {
        let t = s.drop_last();
        assert(s =~= t.push(s.last()));
        assert forall|i: int, j: int|
            0 <= i < t.len() && 0 <= j < t.len() && i != j implies #[trigger] t[i]@ != #[trigger] t[j]@ by {
            assert(t[i] == s[i] && t[j] == s[j]);
        }
        lemma_names_len(t);
        lemma_names_push(t, s.last());
        if names_of(t).contains(s.last()@) {
            let i = choose|i: int| 0 <= i < t.len() && #[trigger] t[i]@ == s.last()@;
            assert(s[i] == t[i]);
            assert(s[s.len() - 1] == s.last());
        }
    }
}

pub open spec fn fresh_subscription(topic: Seq<char>, generation: u64) -> SubscriptionState {
    SubscriptionState { topic, messages: Seq::empty(), generation }
}

/// Generations count up and stay at the largest value once they reach it.
pub open spec fn generation_after(g: u64) -> u64 {
    if g < u64::MAX {
        (g + 1) as u64
    } else {
        g
    }
}

/// A subscription after `message` was published to `topic`: it receives a
/// copy at the end of its queue when it is bound to `topic` and its queue is
/// below `bound`; otherwise it is unchanged.
pub open spec fn receive(
    s: SubscriptionState,
    topic: Seq<char>,
    message: MessageState,
    bound: nat,
) -> SubscriptionState {
    if s.topic == topic && s.messages.len() < bound {
        SubscriptionState { topic: s.topic, messages: s.messages.push(message), generation: s.generation }
    } else {
        s
    }
}

impl BrokerState {
    /// The two indices agree with each other, and no queue is over the bound.
    pub open spec fn consistent(self) -> bool {
        &&& forall|k: Seq<char>| #[trigger]
            self.subscriptions.contains_key(k) ==> {
                &&& self.topics.contains_key(self.subscriptions[k].topic)
                &&& self.topics[self.subscriptions[k].topic].contains(k)
                &&& self.subscriptions[k].messages.len() <= self.queue_bound
            }
        &&& forall|t: Seq<char>, k: Seq<char>|
            self.topics.contains_key(t) && #[trigger] self.topics[t].contains(k) ==> {
                &&& self.subscriptions.contains_key(k)
                &&& self.subscriptions[k].topic == t
            }
    }

    /// The subscriptions bound to `topic`; none if the topic is unknown.
    pub open spec fn members(self, topic: Seq<char>) -> Set<Seq<char>> {
        if self.topics.contains_key(topic) {
            self.topics[topic]
        } else {
            Set::empty()
        }
    }

    /// An empty broker whose queues hold at most `bound` messages.
    pub open spec fn empty(bound: nat) -> BrokerState {
        BrokerState {
            topics: Map::empty(),
            subscriptions: Map::empty(),
            queue_bound: bound,
            next_generation: 0,
        }
    }

    /// The topic is listed, with the subscriptions it already had.
    pub open spec fn create_topic(self, topic: Seq<char>) -> BrokerState {
        BrokerState {
            topics: self.topics.insert(topic, self.members(topic)),
            subscriptions: self.subscriptions,
            queue_bound: self.queue_bound,
            next_generation: self.next_generation,
        }
    }

    /// Creating `name` on `topic` is refused exactly when the name is taken.
    pub open spec fn create_refused(self, name: Seq<char>) -> bool {
        self.subscriptions.contains_key(name)
    }

    /// A new subscription with an empty queue, bound to `topic`, which is
    /// listed from then on.
    pub open spec fn create_subscription(self, topic: Seq<char>, name: Seq<char>) -> BrokerState {
        BrokerState {
            topics: self.topics.insert(topic, self.members(topic).insert(name)),
            subscriptions: self.subscriptions.insert(
                name,
                fresh_subscription(topic, self.next_generation),
            ),
            queue_bound: self.queue_bound,
            next_generation: generation_after(self.next_generation),
        }
    }

    /// `name` leaves both indices; its topic goes too when nothing else is
    /// bound to it. An unknown name changes nothing.
    pub open spec fn delete_subscription(self, name: Seq<char>) -> BrokerState {
        if !self.subscriptions.contains_key(name) {
            self
        } else {
            let topic = self.subscriptions[name].topic;
            let rest = self.members(topic).remove(name);
            BrokerState {
                topics: if rest.is_empty() {
                    self.topics.remove(topic)
                } else {
                    self.topics.insert(topic, rest)
                },
                subscriptions: self.subscriptions.remove(name),
                queue_bound: self.queue_bound,
                next_generation: self.next_generation,
            }
        }
    }

    /// Every subscription receives `message` as `receive` says.
    pub open spec fn publish(self, topic: Seq<char>, message: MessageState) -> BrokerState {
        BrokerState {
            topics: self.topics,
            subscriptions: self.subscriptions.map_values(
                |s: SubscriptionState| receive(s, topic, message, self.queue_bound),
            ),
            queue_bound: self.queue_bound,
            next_generation: self.next_generation,
        }
    }

    /// A pull session on (`name`, `generation`) still reads from a live
    /// subscription; once it is not, the session is detached.
    pub open spec fn session_live(self, name: Seq<char>, generation: u64) -> bool {
        self.subscriptions.contains_key(name) && self.subscriptions[name].generation == generation
    }

    /// The head of `name`'s queue is taken out.
    pub open spec fn take_head(self, name: Seq<char>) -> BrokerState {
        let s = self.subscriptions[name];
        BrokerState {
            topics: self.topics,
            subscriptions: self.subscriptions.insert(
                name,
                SubscriptionState {
                    topic: s.topic,
                    messages: s.messages.drop_first(),
                    generation: s.generation,
                },
            ),
            queue_bound: self.queue_bound,
            next_generation: self.next_generation,
        }
    }
}

/// Explicit topic creation keeps the indices in agreement.
pub proof fn lemma_create_topic_consistent(s: BrokerState, topic: Seq<char>)
    requires
        s.consistent(),
    ensures
        s.create_topic(topic).consistent(),
{
    let r = s.create_topic(topic);
    assert forall|t: Seq<char>, k: Seq<char>| r.topics.contains_key(t) && #[trigger] r.topics[t].contains(
        k,
    ) implies r.subscriptions.contains_key(k) && r.subscriptions[k].topic == t by {
        if t != topic {
            assert(s.topics[t].contains(k));
        } else {
            assert(s.topics.contains_key(t));
        }
    }
}

/// Creating a subscription under a free name keeps the indices in agreement.
pub proof fn lemma_create_subscription_consistent(s: BrokerState, topic: Seq<char>, name: Seq<char>)
    requires
        s.consistent(),
        !s.create_refused(name),
    ensures
        s.create_subscription(topic, name).consistent(),
{
    let r = s.create_subscription(topic, name);
    assert forall|k: Seq<char>| #[trigger] r.subscriptions.contains_key(k) implies {
        &&& r.topics.contains_key(r.subscriptions[k].topic)
        &&& r.topics[r.subscriptions[k].topic].contains(k)
        &&& r.subscriptions[k].messages.len() <= r.queue_bound
    } by {
        if k != name {
            assert(s.subscriptions.contains_key(k));
            let t = s.subscriptions[k].topic;
            if t == topic {
                assert(s.members(topic).contains(k));
            }
        }
    }
    assert forall|t: Seq<char>, k: Seq<char>| r.topics.contains_key(t) && #[trigger] r.topics[t].contains(
        k,
    ) implies r.subscriptions.contains_key(k) && r.subscriptions[k].topic == t by {
        if k != name {
            if t == topic {
                assert(s.members(topic).contains(k));
                assert(s.topics.contains_key(topic));
            } else {
                assert(s.topics[t].contains(k));
            }
        } else if t != topic {
            assert(s.topics[t].contains(k));
        }
    }
}

/// Deleting a subscription keeps the indices in agreement.
pub proof fn lemma_delete_subscription_consistent(s: BrokerState, name: Seq<char>)
    requires
        s.consistent(),
    ensures
        s.delete_subscription(name).consistent(),
{
    if s.subscriptions.contains_key(name) {
        let r = s.delete_subscription(name);
        let topic = s.subscriptions[name].topic;
        let rest = s.members(topic).remove(name);
        assert forall|k: Seq<char>| #[trigger] r.subscriptions.contains_key(k) implies {
            &&& r.topics.contains_key(r.subscriptions[k].topic)
            &&& r.topics[r.subscriptions[k].topic].contains(k)
            &&& r.subscriptions[k].messages.len() <= r.queue_bound
        } by {
            assert(s.subscriptions.contains_key(k));
            let t = s.subscriptions[k].topic;
            if t == topic {
                assert(rest.contains(k));
            }
        }
        assert forall|t: Seq<char>, k: Seq<char>| r.topics.contains_key(t) && #[trigger] r.topics[
            t
        ].contains(k) implies r.subscriptions.contains_key(k) && r.subscriptions[k].topic == t by {
            if t == topic {
                assert(rest.contains(k));
                assert(s.topics[t].contains(k));
            } else {
                assert(s.topics[t].contains(k));
                if k == name {
                    assert(s.subscriptions[name].topic == t);
                }
            }
        }
    }
}

/// Publishing keeps the indices in agreement and every queue within the bound.
pub proof fn lemma_publish_consistent(s: BrokerState, topic: Seq<char>, message: MessageState)
    requires
        s.consistent(),
    ensures
        s.publish(topic, message).consistent(),
{
    let r = s.publish(topic, message);
    assert forall|k: Seq<char>| #[trigger] r.subscriptions.contains_key(k) implies {
        &&& r.topics.contains_key(r.subscriptions[k].topic)
        &&& r.topics[r.subscriptions[k].topic].contains(k)
        &&& r.subscriptions[k].messages.len() <= r.queue_bound
    } by {
        assert(s.subscriptions.contains_key(k));
    }
    assert forall|t: Seq<char>, k: Seq<char>| r.topics.contains_key(t) && #[trigger] r.topics[t].contains(
        k,
    ) implies r.subscriptions.contains_key(k) && r.subscriptions[k].topic == t by {
        assert(s.topics[t].contains(k));
    }
}

/// Taking a queue's head keeps the indices in agreement.
pub proof fn lemma_take_head_consistent(s: BrokerState, name: Seq<char>)
    requires
        s.consistent(),
        s.subscriptions.contains_key(name),
        s.subscriptions[name].messages.len() > 0,
    ensures
        s.take_head(name).consistent(),
{
    let r = s.take_head(name);
    assert forall|k: Seq<char>| #[trigger] r.subscriptions.contains_key(k) implies {
        &&& r.topics.contains_key(r.subscriptions[k].topic)
        &&& r.topics[r.subscriptions[k].topic].contains(k)
        &&& r.subscriptions[k].messages.len() <= r.queue_bound
    } by {
        assert(s.subscriptions.contains_key(k));
    }
    assert forall|t: Seq<char>, k: Seq<char>| r.topics.contains_key(t) && #[trigger] r.topics[t].contains(
        k,
    ) implies r.subscriptions.contains_key(k) && r.subscriptions[k].topic == t by {
        assert(s.topics[t].contains(k));
    }
}

} // verus!
