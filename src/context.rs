use vstd::prelude::*;

use crate::error::Error;
use crate::keyed::{
    has_key, keyed, keys_distinct, lemma_keyed_at, lemma_keyed_push, lemma_keyed_remove,
    lemma_keyed_pointwise, lemma_keyed_update,
};
use crate::message::PubsubMessage;
use crate::state::{
    lemma_create_subscription_consistent, lemma_create_topic_consistent,
    lemma_delete_subscription_consistent, lemma_names_len, lemma_names_prefix, lemma_names_push,
    lemma_names_remove, lemma_publish_consistent, lemma_take_head_consistent, names_distinct,
    names_of, receive, BrokerState, SubscriptionState,
};

verus! {

/// How many messages a subscription's queue holds before further ones are
/// dropped for it.
pub const QUEUE_BOUND: usize = 100;

/// One subscriber's mailbox: its name, the topic it is bound to, its pending
/// messages (oldest first) and its generation.
pub struct Subscription {
    name: String,
    topic: String,
    messages: Vec<PubsubMessage>,
    generation: u64,
}

impl Subscription {
    /// What the broker holds for this subscription.
    pub closed spec fn state(self) -> SubscriptionState {
        SubscriptionState {
            topic: self.topic@,
            messages: self.messages@.map_values(|m: PubsubMessage| m@),
            generation: self.generation,
        }
    }
}

/// A topic and the names of the subscriptions bound to it.
struct TopicEntry {
    name: String,
    subscriptions: Vec<String>,
}

spec fn subscription_key() -> spec_fn(Subscription) -> Seq<char> {
    |s: Subscription| s.name@
}

spec fn subscription_value() -> spec_fn(Subscription) -> SubscriptionState {
    |s: Subscription| s.state()
}

spec fn topic_key() -> spec_fn(TopicEntry) -> Seq<char> {
    |t: TopicEntry| t.name@
}

spec fn topic_value() -> spec_fn(TopicEntry) -> Set<Seq<char>> {
    |t: TopicEntry| names_of(t.subscriptions@)
}

/// The broker engine: the topic index and the subscription index.
pub struct PubsubContext {
    topics: Vec<TopicEntry>,
    subscriptions: Vec<Subscription>,
    queue_bound: usize,
    next_generation: u64,
}

impl View for PubsubContext {
    type V = BrokerState;

    closed spec fn view(&self) -> BrokerState {
        BrokerState {
            topics: keyed(self.topics@, topic_key(), topic_value()),
            subscriptions: keyed(self.subscriptions@, subscription_key(), subscription_value()),
            queue_bound: self.queue_bound as nat,
            next_generation: self.next_generation,
        }
    }
}

/// A pull in progress on one subscription. It keeps reading from the
/// subscription it was opened on, and sees it as detached once that one is
/// deleted, even if another of the same name is created later.
pub struct Puller {
    name: String,
    generation: u64,
}

impl View for Puller {
    type V = (Seq<char>, u64);

    closed spec fn view(&self) -> (Seq<char>, u64) {
        (self.name@, self.generation)
    }
}

impl Puller {
    /// The name of the subscription this pull reads from.
    pub fn subscription(&self) -> (r: &str)
        ensures
            r@ == self@.0,
    {
        self.name.as_str()
    }
}

/// What one attempt to pull gives.
#[derive(Debug)]
pub enum PullStep {
    /// The oldest pending message, now taken out of the queue.
    Message(PubsubMessage),
    /// Nothing is pending: the caller waits for a publish or a delete and tries again.
    Pending,
    /// The subscription was deleted: no message will come.
    Closed,
}

fn position_of(ids: &Vec<String>, name: &String) -> (r: Option<usize>)
    ensures
        match r {
            Some(j) => j < ids.len() && ids@[j as int]@ == name@,
            None => !names_of(ids@).contains(name@),
        },
{
    let mut j: usize = 0;
    while j < ids.len()
        invariant
            j <= ids.len(),
            forall|a: int| 0 <= a < j ==> ids@[a]@ != name@,
        decreases ids.len() - j,
    {
        if ids[j] == *name {
            return Some(j);
        }
        j += 1;
    }
    None
}

impl PubsubContext {
    /// The representation's own invariant: names are unique in each index.
    pub closed spec fn inv(&self) -> bool {
        &&& keys_distinct(self.subscriptions@, subscription_key())
        &&& keys_distinct(self.topics@, topic_key())
        &&& forall|t: int|
            0 <= t < self.topics.len() ==> names_distinct(#[trigger] self.topics@[t].subscriptions@)
    }

    /// Well-formed: unique names, and indices that agree with each other.
    pub open spec fn wf(&self) -> bool {
        self.inv() && self@.consistent()
    }

    /// An empty broker whose queues hold at most `QUEUE_BOUND` messages.
    pub fn new() -> (r: PubsubContext)
        ensures
            r.wf(),
            r@ == BrokerState::empty(QUEUE_BOUND as nat),
    {
        Self::with_queue_bound(QUEUE_BOUND)
    }

    /// An empty broker whose queues hold at most `bound` messages.
    pub fn with_queue_bound(bound: usize) -> (r: PubsubContext)
        ensures
            r.wf(),
            r@ == BrokerState::empty(bound as nat),
    {
        let r = PubsubContext {
            topics: Vec::new(),
            subscriptions: Vec::new(),
            queue_bound: bound,
            next_generation: 0,
        };
        assert(r@.topics =~= Map::empty());
        assert(r@.subscriptions =~= Map::empty());
        r
    }

    /// The most messages that a queue holds.
    pub fn queue_bound(&self) -> (r: usize)
        ensures
            r == self@.queue_bound,
    {
        self.queue_bound
    }

    fn find_subscription(&self, name: &String) -> (r: Option<usize>)
        ensures
            match r {
                Some(i) => i < self.subscriptions.len() && self.subscriptions@[i as int].name@
                    == name@,
                None => !has_key(self.subscriptions@, subscription_key(), name@),
            },
    {
        let mut i: usize = 0;
        while i < self.subscriptions.len()
            invariant
                i <= self.subscriptions.len(),
                forall|j: int| 0 <= j < i ==> self.subscriptions@[j].name@ != name@,
            decreases self.subscriptions.len() - i,
        {
            if self.subscriptions[i].name == *name {
                return Some(i);
            }
            i += 1;
        }
        None
    }

    fn find_topic(&self, name: &String) -> (r: Option<usize>)
        ensures
            match r {
                Some(i) => i < self.topics.len() && self.topics@[i as int].name@ == name@,
                None => !has_key(self.topics@, topic_key(), name@),
            },
    {
        let mut i: usize = 0;
        while i < self.topics.len()
            invariant
                i <= self.topics.len(),
                forall|j: int| 0 <= j < i ==> self.topics@[j].name@ != name@,
            decreases self.topics.len() - i,
        {
            if self.topics[i].name == *name {
                return Some(i);
            }
            i += 1;
        }
        None
    }

    /// Whether a subscription of that name exists.
    pub fn contains_subscription(&self, subscription_id: &str) -> (r: bool)
        requires
            self.wf(),
        ensures
            r == self@.subscriptions.contains_key(subscription_id@),
    {
        let name = subscription_id.to_owned();
        match self.find_subscription(&name) {
            Some(i) => {
                proof {
                    lemma_keyed_at(
                        self.subscriptions@,
                        subscription_key(),
                        subscription_value(),
                        i as int,
                    );
                }
                true
            },
            None => false,
        }
    }

    /// How many subscriptions are bound to `topic`, or `None` if the topic is
    /// not listed.
    pub fn topic_subscription_count(&self, topic: &str) -> (r: Option<usize>)
        requires
            self.wf(),
        ensures
            r is Some <==> self@.topics.contains_key(topic@),
            r matches Some(n) ==> self@.topics[topic@].finite() && n == self@.topics[topic@].len(),
    {
        let name = topic.to_owned();
        match self.find_topic(&name) {
            Some(i) => {
                proof {
                    lemma_keyed_at(self.topics@, topic_key(), topic_value(), i as int);
                    lemma_names_len(self.topics@[i as int].subscriptions@);
                }
                Some(self.topics[i].subscriptions.len())
            },
            None => None,
        }
    }

    /// The names of all listed topics, each once.
    pub fn get_topics(&self) -> (r: Vec<String>)
        requires
            self.wf(),
        ensures
            names_of(r@) == self@.topics.dom(),
            names_distinct(r@),
    {
        let mut r: Vec<String> = Vec::new();
        let mut i: usize = 0;
        while i < self.topics.len()
            invariant
                i <= self.topics.len(),
                r.len() == i,
                forall|j: int| 0 <= j < i ==> #[trigger] r@[j]@ == self.topics@[j].name@,
            decreases self.topics.len() - i,
        {
            r.push(self.topics[i].name.clone());
            i += 1;
        }
        proof {
            let ts = self.topics@;
            assert forall|k: Seq<char>| names_of(r@).contains(k) <==> self@.topics.contains_key(
                k,
            ) by {
                if names_of(r@).contains(k) {
                    let j = choose|j: int| 0 <= j < r.len() && #[trigger] r@[j]@ == k;
                    lemma_keyed_at(ts, topic_key(), topic_value(), j);
                }
                if self@.topics.contains_key(k) {
                    let j = choose|j: int| 0 <= j < ts.len() && #[trigger] topic_key()(ts[j]) == k;
                    assert(r@[j]@ == k);
                }
            }
            assert(names_of(r@) =~= self@.topics.dom());
            assert forall|a: int, b: int|
                0 <= a < r.len() && 0 <= b < r.len() && a != b implies #[trigger] r@[a]@
                != #[trigger] r@[b]@ by {
                assert(topic_key()(ts[a]) != topic_key()(ts[b]));
            }
        }
        r
    }

    /// Lists `topic` with no subscription, unless it is listed already.
    pub fn create_topic(&mut self, topic: &str)
        requires
            old(self).wf(),
        ensures
            final(self).wf(),
            final(self)@ == old(self)@.create_topic(topic@),
    {
        let name = topic.to_owned();
        match self.find_topic(&name) {
            Some(i) => {
                proof {
                    lemma_keyed_at(self.topics@, topic_key(), topic_value(), i as int);
                    assert(self@.topics.insert(name@, self@.members(name@)) =~= self@.topics);
                }
            },
            None => {
                let entry = TopicEntry { name, subscriptions: Vec::new() };
                proof {
                    lemma_keyed_push(self.topics@, topic_key(), topic_value(), entry);
                    assert(names_of(entry.subscriptions@) =~= Set::empty());
                    lemma_create_topic_consistent(self@, topic@);
                }
                self.topics.push(entry);
                proof {
                    assert(self@ == old(self)@.create_topic(topic@));
                }
            },
        }
    }

    /// Creates subscription `subscription_id` bound to `topic`, with an empty
    /// queue, listing the topic if it was not. Refused with `AlreadyExists`,
    /// changing nothing, when the name is taken.
    pub fn create_subscription(&mut self, topic: &str, subscription_id: &str) -> (r: Result<
        (),
        Error,
    >)
        requires
            old(self).wf(),
        ensures
            final(self).wf(),
            r is Err <==> old(self)@.create_refused(subscription_id@),
            r matches Err(e) ==> e == Error::AlreadyExists && final(self)@ == old(self)@,
            r is Ok ==> final(self)@ == old(self)@.create_subscription(topic@, subscription_id@),
    {
        let name = subscription_id.to_owned();
        let topic_name = topic.to_owned();
        if let Some(i) = self.find_subscription(&name) {
            proof {
                lemma_keyed_at(
                    self.subscriptions@,
                    subscription_key(),
                    subscription_value(),
                    i as int,
                );
            }
            return Err(Error::AlreadyExists);
        }
        let ghost pre = self@;
        let ghost pre_topics = self.topics@;
        proof {
            lemma_create_subscription_consistent(pre, topic@, name@);
        }
        let generation = self.next_generation;
        self.next_generation = if generation < u64::MAX {
            generation + 1
        } else {
            generation
        };
        let sub = Subscription {
            name: name.clone(),
            topic: topic_name.clone(),
            messages: Vec::new(),
            generation,
        };
        proof {
            lemma_keyed_push(self.subscriptions@, subscription_key(), subscription_value(), sub);
            assert(sub.messages@.map_values(|m: PubsubMessage| m@) =~= Seq::empty());
        }
        self.subscriptions.push(sub);
        match self.find_topic(&topic_name) {
            Some(ti) => {
                let ghost ids = self.topics@[ti as int].subscriptions@;
                proof {
                    lemma_keyed_at(pre_topics, topic_key(), topic_value(), ti as int);
                    lemma_names_push(ids, name);
                    if names_of(ids).contains(name@) {
                        assert(pre.topics[topic@].contains(name@));
                    }
                }
                self.topics[ti].subscriptions.push(name);
                proof {
                    let e = self.topics@[ti as int];
                    assert(self.topics@ == pre_topics.update(ti as int, e));
                    lemma_keyed_update(pre_topics, topic_key(), topic_value(), ti as int, e);
                    assert forall|t: int| 0 <= t < self.topics.len() implies names_distinct(
                        #[trigger] self.topics@[t].subscriptions@,
                    ) by {
                        if t != ti {
                            assert(self.topics@[t] == pre_topics[t]);
                        }
                    }
                }
            },
            None => {
                let mut ids: Vec<String> = Vec::new();
                ids.push(name);
                let entry = TopicEntry { name: topic_name, subscriptions: ids };
                proof {
                    lemma_names_push(Seq::empty(), name);
                    assert(ids@ =~= Seq::<String>::empty().push(name));
                    assert(names_of(Seq::<String>::empty()) =~= Set::empty());
                    lemma_keyed_push(pre_topics, topic_key(), topic_value(), entry);
                }
                self.topics.push(entry);
                proof {
                    assert forall|t: int| 0 <= t < self.topics.len() implies names_distinct(
                        #[trigger] self.topics@[t].subscriptions@,
                    ) by {
                        if t < pre_topics.len() {
                            assert(self.topics@[t] == pre_topics[t]);
                        }
                    }
                }
            },
        }
        proof {
            assert(self@.topics =~= pre.create_subscription(topic@, name@).topics);
            assert(self@ == pre.create_subscription(topic@, name@));
        }
        Ok(())
    }

    /// Deletes subscription `subscription_id`: it leaves both indices, and
    /// its topic is no longer listed when nothing else is bound to it. Any
    /// pull opened on it sees it as detached from now on. An unknown name
    /// changes nothing.
    pub fn delete_subscription(&mut self, subscription_id: &str)
        requires
            old(self).wf(),
        ensures
            final(self).wf(),
            final(self)@ == old(self)@.delete_subscription(subscription_id@),
    {
        let name = subscription_id.to_owned();
        let i = match self.find_subscription(&name) {
            Some(i) => i,
            None => {
                return;
            },
        };
        let ghost pre = self@;
        let ghost pre_topics = self.topics@;
        proof {
            lemma_keyed_at(self.subscriptions@, subscription_key(), subscription_value(), i as int);
            lemma_keyed_remove(
                self.subscriptions@,
                subscription_key(),
                subscription_value(),
                i as int,
            );
            lemma_delete_subscription_consistent(pre, name@);
        }
        let removed = self.subscriptions.remove(i);
        let ghost topic = removed.topic@;
        let ghost rest = pre.members(topic).remove(name@);
        let ti = match self.find_topic(&removed.topic) {
            Some(ti) => ti,
            None => {
                proof {
                    assert(pre.topics.contains_key(topic));
                }
                return;
            },
        };
        proof {
            lemma_keyed_at(pre_topics, topic_key(), topic_value(), ti as int);
        }
        let j = match position_of(&self.topics[ti].subscriptions, &name) {
            Some(j) => j,
            None => {
                proof {
                    assert(pre.topics[topic].contains(name@));
                }
                return;
            },
        };
        let ghost ids = self.topics@[ti as int].subscriptions@;
        proof {
            lemma_names_remove(ids, j as int);
        }
        self.topics[ti].subscriptions.remove(j);
        let ghost mid_topics = self.topics@;
        proof {
            let e = self.topics@[ti as int];
            assert(mid_topics == pre_topics.update(ti as int, e));
            lemma_keyed_update(pre_topics, topic_key(), topic_value(), ti as int, e);
            assert(names_of(e.subscriptions@) == rest);
        }
        if self.topics[ti].subscriptions.len() == 0 {
            proof {
                lemma_keyed_remove(mid_topics, topic_key(), topic_value(), ti as int);
                assert(names_of(mid_topics[ti as int].subscriptions@) =~= Set::empty());
            }
            self.topics.remove(ti);
            proof {
                assert(rest.is_empty());
                assert(self@.topics =~= pre.topics.remove(topic));
                assert forall|t: int| 0 <= t < self.topics.len() implies names_distinct(
                    #[trigger] self.topics@[t].subscriptions@,
                ) by {
                    if t < ti {
                        assert(self.topics@[t] == pre_topics[t]);
                    } else {
                        assert(self.topics@[t] == pre_topics[t + 1]);
                    }
                }
            }
        } else {
            proof {
                let left = mid_topics[ti as int].subscriptions@;
                assert(names_of(left).contains(left[0]@));
                assert(!rest.is_empty());
                assert forall|t: int| 0 <= t < self.topics.len() implies names_distinct(
                    #[trigger] self.topics@[t].subscriptions@,
                ) by {
                    if t != ti {
                        assert(self.topics@[t] == pre_topics[t]);
                    }
                }
            }
        }
        proof {
            assert(self@ == pre.delete_subscription(name@));
        }
    }

    /// Publishes `message` to `topic`: every subscription bound to it whose
    /// queue is below the bound gets a copy at the end of its queue; a full
    /// queue drops it for that subscription alone. An unknown topic is no
    /// error: nothing changes.
    pub fn publish(&mut self, topic: &str, message: PubsubMessage)
        requires
            old(self).wf(),
        ensures
            final(self).wf(),
            final(self)@ == old(self)@.publish(topic@, message@),
    {
        let ghost pre = self@;
        let ghost pre_subs = self.subscriptions@;
        let ghost pre_topics = self.topics@;
        let ghost bound = self.queue_bound as nat;
        proof {
            lemma_publish_consistent(pre, topic@, message@);
        }
        let name = topic.to_owned();
        let ti = match self.find_topic(&name) {
            Some(ti) => ti,
            None => {
                proof {
                    assert forall|k: Seq<char>| #[trigger]
                        pre.subscriptions.contains_key(k) implies pre.subscriptions[k].topic
                        != topic@ by {
                        assert(pre.topics.contains_key(pre.subscriptions[k].topic));
                    }
                    assert(pre.publish(topic@, message@).subscriptions =~= pre.subscriptions);
                }
                return;
            },
        };
        let ghost ids = self.topics@[ti as int].subscriptions@;
        proof {
            lemma_keyed_at(self.topics@, topic_key(), topic_value(), ti as int);
        }
        let n = self.topics[ti].subscriptions.len();
        let mut j: usize = 0;
        while j < n
            invariant
                self.topics@ == pre_topics,
                keys_distinct(pre_subs, subscription_key()),
                pre.subscriptions == keyed(pre_subs, subscription_key(), subscription_value()),
                pre.consistent(),
                pre.topics.contains_key(topic@),
                pre.topics[topic@] == names_of(ids),
                names_distinct(ids),
                ti < self.topics.len(),
                ids == self.topics@[ti as int].subscriptions@,
                n == ids.len(),
                j <= n,
                self.queue_bound == bound,
                self.next_generation == pre.next_generation,
                self.subscriptions.len() == pre_subs.len(),
                forall|i: int|
                    0 <= i < pre_subs.len() ==> {
                        &&& (#[trigger] self.subscriptions@[i]).name == pre_subs[i].name
                        &&& self.subscriptions@[i].state() == if names_of(
                            ids.subrange(0, j as int),
                        ).contains(pre_subs[i].name@) {
                            receive(pre_subs[i].state(), topic@, message@, bound)
                        } else {
                            pre_subs[i].state()
                        }
                    },
            decreases n - j,
        {
            let id = self.topics[ti].subscriptions[j].clone();
            proof {
                lemma_names_prefix(ids, j as int);
                assert(names_of(ids).contains(ids[j as int]@));
                assert(pre.topics[topic@].contains(id@));
            }
            match self.find_subscription(&id) {
                Some(si) => {
                    proof {
                        lemma_keyed_at(
                            pre_subs,
                            subscription_key(),
                            subscription_value(),
                            si as int,
                        );
                        if names_of(ids.subrange(0, j as int)).contains(id@) {
                            let a = choose|a: int|
                                0 <= a < j && #[trigger] ids.subrange(0, j as int)[a]@ == id@;
                            assert(ids[a] == ids.subrange(0, j as int)[a]);
                        }
                    }
                    let ghost before = self.subscriptions@;
                    if self.subscriptions[si].messages.len() < self.queue_bound {
                        let copy = message.duplicate();
                        self.subscriptions[si].messages.push(copy);
                        proof {
                            let e = self.subscriptions@[si as int];
                            assert(e.messages@.map_values(|m: PubsubMessage| m@) =~= before[
                                si as int
                            ].messages@.map_values(|m: PubsubMessage| m@).push(message@));
                        }
                    }
                    proof {
                        assert forall|i: int| 0 <= i < pre_subs.len() && i != si implies #[trigger]
                            self.subscriptions@[i] == before[i] by {}
                        assert forall|i: int| 0 <= i < pre_subs.len() && i != si implies pre_subs[
                            i
                        ].name@ != id@ by {
                            assert(subscription_key()(pre_subs[i]) != subscription_key()(
                                pre_subs[si as int],
                            ));
                        }
                        let done = names_of(ids.subrange(0, j as int));
                        let done_next = names_of(ids.subrange(0, j + 1));
                        assert(done_next == done.insert(id@));
                        assert(pre.subscriptions[id@].topic == topic@);
                        assert forall|i: int| 0 <= i < pre_subs.len() implies {
                            &&& (#[trigger] self.subscriptions@[i]).name == pre_subs[i].name
                            &&& self.subscriptions@[i].state() == if done_next.contains(
                                pre_subs[i].name@,
                            ) {
                                receive(pre_subs[i].state(), topic@, message@, bound)
                            } else {
                                pre_subs[i].state()
                            }
                        } by {
                            if i != si {
                                assert(self.subscriptions@[i] == before[i]);
                            }
                        }
                    }
                },
                None => {
                    proof {
                        assert(pre.subscriptions.contains_key(id@));
                        let a = choose|a: int|
                            0 <= a < pre_subs.len() && #[trigger] subscription_key()(pre_subs[a])
                                == id@;
                        assert(self.subscriptions@[a].name == pre_subs[a].name);
                        assert(subscription_key()(self.subscriptions@[a]) == id@);
                    }
                },
            }
            j += 1;
        }
        proof {
            assert(ids.subrange(0, n as int) =~= ids);
            let f = |s: SubscriptionState| receive(s, topic@, message@, bound);
            assert forall|i: int| 0 <= i < pre_subs.len() implies subscription_key()(
                #[trigger] self.subscriptions@[i],
            ) == subscription_key()(pre_subs[i]) && subscription_value()(self.subscriptions@[i])
                == f(subscription_value()(pre_subs[i])) by {
                lemma_keyed_at(pre_subs, subscription_key(), subscription_value(), i);
                let k = pre_subs[i].name@;
                if pre_subs[i].state().topic == topic@ {
                    assert(pre.topics[topic@].contains(k));
                }
            }
            lemma_keyed_pointwise(
                pre_subs,
                self.subscriptions@,
                subscription_key(),
                subscription_value(),
                f,
            );
            assert(self@.subscriptions =~= pre.publish(topic@, message@).subscriptions);
        }
    }

    /// Opens a pull on subscription `subscription_id`; `NotFound` when there
    /// is none of that name.
    pub fn open_pull(&self, subscription_id: &str) -> (r: Result<Puller, Error>)
        requires
            self.wf(),
        ensures
            r is Ok <==> self@.subscriptions.contains_key(subscription_id@),
            match r {
                Ok(p) => p@ == (
                    subscription_id@,
                    self@.subscriptions[subscription_id@].generation,
                ),
                Err(e) => e == Error::NotFound,
            },
    {
        let name = subscription_id.to_owned();
        match self.find_subscription(&name) {
            Some(i) => {
                proof {
                    lemma_keyed_at(
                        self.subscriptions@,
                        subscription_key(),
                        subscription_value(),
                        i as int,
                    );
                }
                Ok(Puller { name, generation: self.subscriptions[i].generation })
            },
            None => Err(Error::NotFound),
        }
    }

    /// One attempt of a pull: `Closed` once its subscription was deleted,
    /// else the oldest pending message, taken out of the queue, else
    /// `Pending`.
    pub fn pull_next(&mut self, puller: &Puller) -> (r: PullStep)
        requires
            old(self).wf(),
        ensures
            final(self).wf(),
            ({
                let pre = old(self)@;
                let (name, generation) = puller@;
                if !pre.session_live(name, generation) {
                    r is Closed && final(self)@ == pre
                } else if pre.subscriptions[name].messages.len() == 0 {
                    r is Pending && final(self)@ == pre
                } else {
                    &&& final(self)@ == pre.take_head(name)
                    &&& r matches PullStep::Message(m)
                    &&& m@ == pre.subscriptions[name].messages[0]
                }
            }),
    {
        let i = match self.find_subscription(&puller.name) {
            Some(i) => i,
            None => {
                return PullStep::Closed;
            },
        };
        let ghost pre = self@;
        let ghost pre_subs = self.subscriptions@;
        proof {
            lemma_keyed_at(pre_subs, subscription_key(), subscription_value(), i as int);
        }
        if self.subscriptions[i].generation != puller.generation {
            return PullStep::Closed;
        }
        if self.subscriptions[i].messages.len() == 0 {
            return PullStep::Pending;
        }
        proof {
            lemma_take_head_consistent(pre, puller@.0);
        }
        let m = self.subscriptions[i].messages.remove(0);
        proof {
            let e = self.subscriptions@[i as int];
            assert(self.subscriptions@ == pre_subs.update(i as int, e));
            assert(e.messages@.map_values(|m: PubsubMessage| m@) =~= pre_subs[
                i as int
            ].messages@.map_values(|m: PubsubMessage| m@).drop_first());
            lemma_keyed_update(pre_subs, subscription_key(), subscription_value(), i as int, e);
            assert(self@ == pre.take_head(puller@.0));
        }
        PullStep::Message(m)
    }

    /// A pull that does not wait: `NotFound` when there is no subscription
    /// of that name, else the oldest pending message, taken out of the
    /// queue, or `Pending` when there is none.
    pub fn pull(&mut self, subscription_id: &str) -> (r: Result<PullStep, Error>)
        requires
            old(self).wf(),
        ensures
            final(self).wf(),
            ({
                let pre = old(self)@;
                let name = subscription_id@;
                if !pre.subscriptions.contains_key(name) {
                    r matches Err(e) && e == Error::NotFound && final(self)@ == pre
                } else if pre.subscriptions[name].messages.len() == 0 {
                    r matches Ok(PullStep::Pending) && final(self)@ == pre
                } else {
                    &&& final(self)@ == pre.take_head(name)
                    &&& r matches Ok(PullStep::Message(m))
                    &&& m@ == pre.subscriptions[name].messages[0]
                }
            }),
    {
        let puller = self.open_pull(subscription_id)?;
        Ok(self.pull_next(&puller))
    }
}

} // verus!
