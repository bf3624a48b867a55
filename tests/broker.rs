use pubsub::{Error, PubsubContext, PubsubMessage, PullStep, Server, QUEUE_BOUND};

fn text(step: Result<PullStep, Error>) -> String {
    match step {
        Ok(PullStep::Message(m)) => String::from_utf8(m.data).unwrap(),
        other => panic!("expected a message, got {:?}", other),
    }
}

fn message(s: &str) -> PubsubMessage {
    PubsubMessage::new(0, s.as_bytes().to_owned())
}

#[test]
fn context_test() {
    let mut ctx = PubsubContext::new();
    let topic_1 = "topic_1";
    let sub_1 = "sub_1";
    let sub_2 = "sub_2";

    ctx.create_topic(topic_1);
    assert_eq!(ctx.topic_subscription_count(topic_1), Some(0));

    let res = ctx.get_topics();
    assert_eq!(res.len(), 1);

    let _res = ctx.create_subscription(topic_1, sub_1);
    assert_eq!(ctx.topic_subscription_count(topic_1), Some(1));
    assert!(ctx.contains_subscription(sub_1));

    let _res = ctx.create_subscription(topic_1, sub_2);
    assert_eq!(ctx.topic_subscription_count(topic_1), Some(2));

    for i in 0..2 {
        ctx.publish(topic_1, message(&format!("Hello {}", i)));
    }

    for i in 0..2 {
        assert_eq!(text(ctx.pull(sub_1)), format!("Hello {}", i));
        assert_eq!(text(ctx.pull(sub_2)), format!("Hello {}", i));
    }

    let message = ctx.pull("sub_3");
    assert!(message.is_err());

    ctx.delete_subscription(sub_2);
    assert_eq!(ctx.topic_subscription_count(topic_1), Some(1));
    assert!(!ctx.contains_subscription(sub_2));
}

#[test]
fn simple_test() {
    let mut ctx = PubsubContext::new();
    let topic_1 = "topic_1";
    let sub_1 = "sub_1";
    let sub_2 = "sub_2";

    ctx.create_topic(topic_1);
    assert_eq!(ctx.topic_subscription_count(topic_1), Some(0));

    let _res = ctx.create_subscription(topic_1, sub_1);
    assert_eq!(ctx.topic_subscription_count(topic_1), Some(1));
    assert!(ctx.contains_subscription(sub_1));

    let _res = ctx.create_subscription(topic_1, sub_2);
    assert_eq!(ctx.topic_subscription_count(topic_1), Some(2));

    for i in 0..2 {
        ctx.publish(topic_1, message(&format!("Hello {}", i)));
    }

    for i in 0..2 {
        assert_eq!(text(ctx.pull(sub_1)), format!("Hello {}", i));
        assert_eq!(text(ctx.pull(sub_2)), format!("Hello {}", i));
    }

    assert!(matches!(ctx.pull("sub_3"), Err(Error::NotFound)));

    ctx.delete_subscription(sub_2);
    assert_eq!(ctx.topic_subscription_count(topic_1), Some(1));
    assert!(!ctx.contains_subscription(sub_2));
}

#[test]
fn duplicate_subscription_is_refused() {
    let mut ctx = PubsubContext::new();
    assert_eq!(ctx.create_subscription("t1", "s1"), Ok(()));
    ctx.publish("t1", message("kept"));
    assert_eq!(ctx.create_subscription("t1", "s1"), Err(Error::AlreadyExists));
    assert_eq!(ctx.create_subscription("t2", "s1"), Err(Error::AlreadyExists));
    assert_eq!(ctx.topic_subscription_count("t1"), Some(1));
    assert_eq!(ctx.topic_subscription_count("t2"), None);
    assert_eq!(text(ctx.pull("s1")), "kept");
}

#[test]
fn publish_fans_out_in_order() {
    let mut ctx = PubsubContext::new();
    ctx.create_subscription("t1", "a").unwrap();
    ctx.create_subscription("t1", "b").unwrap();
    ctx.create_subscription("t2", "c").unwrap();
    ctx.publish("t1", message("one"));
    ctx.publish("t1", message("two"));
    ctx.create_subscription("t1", "late").unwrap();
    for name in ["a", "b"] {
        assert_eq!(text(ctx.pull(name)), "one");
        assert_eq!(text(ctx.pull(name)), "two");
        assert!(matches!(ctx.pull(name), Ok(PullStep::Pending)));
    }
    assert!(matches!(ctx.pull("c"), Ok(PullStep::Pending)));
    assert!(matches!(ctx.pull("late"), Ok(PullStep::Pending)));
}

#[test]
fn publish_to_unknown_topic_changes_nothing() {
    let mut ctx = PubsubContext::new();
    ctx.create_subscription("t1", "s1").unwrap();
    ctx.publish("nowhere", message("lost"));
    assert!(matches!(ctx.pull("s1"), Ok(PullStep::Pending)));
    assert_eq!(ctx.get_topics(), vec!["t1".to_string()]);
}

#[test]
fn message_keeps_timestamp_and_bytes() {
    let mut ctx = PubsubContext::new();
    ctx.create_subscription("t1", "s1").unwrap();
    ctx.publish("t1", PubsubMessage::new(1234, vec![0, 255, 7]));
    match ctx.pull("s1") {
        Ok(PullStep::Message(m)) => {
            assert_eq!(m.timestamp, 1234);
            assert_eq!(m.data, vec![0, 255, 7]);
        }
        other => panic!("expected a message, got {:?}", other),
    }
}

#[test]
fn fresh_pull_waits_then_receives() {
    let mut ctx = PubsubContext::new();
    ctx.create_subscription("t1", "s1").unwrap();
    let puller = ctx.open_pull("s1").unwrap();
    assert_eq!(puller.subscription(), "s1");
    assert!(matches!(ctx.pull_next(&puller), PullStep::Pending));
    ctx.publish("t1", message("wake"));
    match ctx.pull_next(&puller) {
        PullStep::Message(m) => assert_eq!(m.data, b"wake".to_vec()),
        other => panic!("expected a message, got {:?}", other),
    }
    assert!(matches!(ctx.pull_next(&puller), PullStep::Pending));
}

#[test]
fn delete_detaches_open_pull() {
    let mut ctx = PubsubContext::new();
    ctx.create_subscription("t1", "s1").unwrap();
    let puller = ctx.open_pull("s1").unwrap();
    assert!(matches!(ctx.pull_next(&puller), PullStep::Pending));
    ctx.delete_subscription("s1");
    assert!(matches!(ctx.pull_next(&puller), PullStep::Closed));
    ctx.create_subscription("t1", "s1").unwrap();
    ctx.publish("t1", message("for the new one"));
    assert!(matches!(ctx.pull_next(&puller), PullStep::Closed));
    assert_eq!(text(ctx.pull("s1")), "for the new one");
}

#[test]
fn delete_drops_pending_messages() {
    let mut ctx = PubsubContext::new();
    ctx.create_subscription("t1", "s1").unwrap();
    ctx.publish("t1", message("pending"));
    let puller = ctx.open_pull("s1").unwrap();
    ctx.delete_subscription("s1");
    assert!(matches!(ctx.pull_next(&puller), PullStep::Closed));
}

#[test]
fn pull_unknown_subscription_is_not_found() {
    let mut ctx = PubsubContext::new();
    assert!(matches!(ctx.pull("nobody"), Err(Error::NotFound)));
    assert!(matches!(ctx.open_pull("nobody"), Err(Error::NotFound)));
    ctx.create_subscription("t1", "s1").unwrap();
    ctx.delete_subscription("s1");
    assert!(matches!(ctx.pull("s1"), Err(Error::NotFound)));
}

#[test]
fn deleting_last_subscription_unlists_topic() {
    let mut ctx = PubsubContext::new();
    ctx.create_subscription("t1", "s1").unwrap();
    ctx.create_subscription("t1", "s2").unwrap();
    ctx.create_subscription("t2", "s3").unwrap();
    let mut topics = ctx.get_topics();
    topics.sort();
    assert_eq!(topics, vec!["t1".to_string(), "t2".to_string()]);

    ctx.delete_subscription("s1");
    let mut topics = ctx.get_topics();
    topics.sort();
    assert_eq!(topics, vec!["t1".to_string(), "t2".to_string()]);
    assert_eq!(ctx.topic_subscription_count("t1"), Some(1));

    ctx.delete_subscription("s2");
    assert_eq!(ctx.get_topics(), vec!["t2".to_string()]);
    assert_eq!(ctx.topic_subscription_count("t1"), None);
}

#[test]
fn delete_unknown_subscription_is_a_no_op() {
    let mut ctx = PubsubContext::new();
    ctx.create_subscription("t1", "s1").unwrap();
    ctx.delete_subscription("other");
    assert!(ctx.contains_subscription("s1"));
    assert_eq!(ctx.get_topics(), vec!["t1".to_string()]);
}

#[test]
fn create_topic_twice_keeps_subscriptions() {
    let mut ctx = PubsubContext::new();
    ctx.create_subscription("t1", "s1").unwrap();
    ctx.create_topic("t1");
    assert_eq!(ctx.topic_subscription_count("t1"), Some(1));
    assert_eq!(ctx.get_topics().len(), 1);
}

#[test]
fn scenario_hello_twice() {
    let mut ctx = PubsubContext::new();
    ctx.create_subscription("t1", "s1").unwrap();
    ctx.publish("t1", message("hello"));
    ctx.publish("t1", message("hello"));
    assert_eq!(text(ctx.pull("s1")), "hello");
    assert_eq!(text(ctx.pull("s1")), "hello");
    assert!(matches!(ctx.pull("s1"), Ok(PullStep::Pending)));
}

#[test]
fn scenario_two_subscribers_independent() {
    let mut ctx = PubsubContext::new();
    ctx.create_subscription("t1", "s1").unwrap();
    ctx.create_subscription("t1", "s2").unwrap();
    ctx.publish("t1", message("copy"));
    assert_eq!(text(ctx.pull("s1")), "copy");
    assert_eq!(text(ctx.pull("s2")), "copy");
    ctx.delete_subscription("s2");
    ctx.publish("t1", message("after"));
    assert_eq!(text(ctx.pull("s1")), "after");
    assert_eq!(ctx.get_topics(), vec!["t1".to_string()]);
}

#[test]
fn scenario_full_queue_drops() {
    let mut ctx = PubsubContext::new();
    assert_eq!(ctx.queue_bound(), 100);
    assert_eq!(QUEUE_BOUND, 100);
    ctx.create_subscription("t1", "s1").unwrap();
    for i in 0..101 {
        ctx.publish("t1", message(&format!("m{}", i)));
    }
    for i in 0..100 {
        assert_eq!(text(ctx.pull("s1")), format!("m{}", i));
    }
    assert!(matches!(ctx.pull("s1"), Ok(PullStep::Pending)));
}

#[test]
fn full_queue_drops_for_that_subscriber_only() {
    let mut ctx = PubsubContext::with_queue_bound(2);
    ctx.create_subscription("t1", "slow").unwrap();
    ctx.create_subscription("t1", "fast").unwrap();
    ctx.publish("t1", message("1"));
    assert_eq!(text(ctx.pull("fast")), "1");
    ctx.publish("t1", message("2"));
    assert_eq!(text(ctx.pull("fast")), "2");
    ctx.publish("t1", message("3"));
    assert_eq!(text(ctx.pull("fast")), "3");
    assert_eq!(text(ctx.pull("slow")), "1");
    assert_eq!(text(ctx.pull("slow")), "2");
    assert!(matches!(ctx.pull("slow"), Ok(PullStep::Pending)));
    ctx.publish("t1", message("4"));
    assert_eq!(text(ctx.pull("slow")), "4");
}

#[test]
fn zero_bound_drops_everything() {
    let mut ctx = PubsubContext::with_queue_bound(0);
    ctx.create_subscription("t1", "s1").unwrap();
    ctx.publish("t1", message("x"));
    assert!(matches!(ctx.pull("s1"), Ok(PullStep::Pending)));
}

#[test]
fn error_names() {
    assert_eq!(Error::NotFound.as_str(), "NotFound");
    assert_eq!(Error::AlreadyExists.as_str(), "AlreadyExists");
}

#[test]
fn server_publish_answers_with_fresh_id() {
    let mut server = Server::new();
    server.ctx.create_subscription("t1", "s1").unwrap();
    let first = server.publish("t1", message("a"));
    let second = server.publish("t1", message("b"));
    for id in [&first, &second] {
        assert_eq!(id.len(), 36);
        for (i, c) in id.chars().enumerate() {
            if i == 8 || i == 13 || i == 18 || i == 23 {
                assert_eq!(c, '-');
            } else {
                assert!(c.is_ascii_hexdigit() && !c.is_ascii_uppercase());
            }
        }
        assert_eq!(id.chars().nth(14), Some('4'));
    }
    assert_ne!(first, second);
    assert_eq!(text(server.ctx.pull("s1")), "a");
    assert_eq!(text(server.ctx.pull("s1")), "b");
}
