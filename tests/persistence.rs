use rpubsub::model::SubscriptionInfo;
use rpubsub::topic::{add_subscription, add_update, update_subscriber_update_ack, TopicSnapshot, TopicsState};

fn s(x: &str) -> String {
    x.to_string()
}

fn sample() -> TopicsState {
    let mut st = TopicsState::new();
    add_subscription(&mut st, &s("t"), &s("s1")).unwrap();
    add_subscription(&mut st, &s("t"), &s("s2")).unwrap();
    add_update(&mut st, &s("t"), &s("a")).unwrap();
    add_update(&mut st, &s("t"), &s("b")).unwrap();
    update_subscriber_update_ack(&mut st, &s("t"), &s("s1"), 0).unwrap();
    update_subscriber_update_ack(&mut st, &s("t"), &s("s1"), 1).unwrap();
    add_subscription(&mut st, &s("u"), &s("s3")).unwrap();
    st
}

fn info(last: Option<u128>, idx: Option<usize>) -> SubscriptionInfo {
    SubscriptionInfo { last_recv_sequence_num: last, topic_update_idx: idx }
}

#[test]
fn snapshot_then_restore_gives_same_state() {
    let st = sample();
    let snaps = st.snapshot();
    assert_eq!(snaps.len(), 2);
    let back = TopicsState::restore(&snaps).expect("valid snapshot");
    for topic in ["t", "u"] {
        assert_eq!(back.ledger_len(&s(topic)), st.ledger_len(&s(topic)));
    }
    assert_eq!(back.update_at(&s("t"), 0), Some((s("a"), 1)));
    assert_eq!(back.update_at(&s("t"), 1), Some((s("b"), 2)));
    assert_eq!(back.subscription(&s("t"), &s("s1")), Some(info(Some(1), Some(1))));
    assert_eq!(back.subscription(&s("t"), &s("s2")), Some(info(None, Some(0))));
    assert_eq!(back.subscription(&s("u"), &s("s3")), Some(info(None, None)));
}

fn topic(name: &str, updates: Vec<(&str, usize)>, subs: Vec<(&str, SubscriptionInfo)>) -> TopicSnapshot {
    TopicSnapshot {
        name: s(name),
        updates: updates.into_iter().map(|(c, p)| (s(c), p)).collect(),
        subscriptions: subs.into_iter().map(|(k, v)| (s(k), v)).collect(),
    }
}

#[test]
fn restore_accepts_consistent_counts() {
    let snaps = vec![topic("t", vec![("a", 1), ("b", 2)], vec![("s1", info(None, Some(0))), ("s2", info(None, Some(1)))])];
    assert!(TopicsState::restore(&snaps).is_some());
}

#[test]
fn restore_rejects_wrong_count() {
    let snaps = vec![topic("t", vec![("a", 2)], vec![("s1", info(None, Some(0)))])];
    assert!(TopicsState::restore(&snaps).is_none());
}

#[test]
fn restore_rejects_cursor_past_end() {
    let snaps = vec![topic("t", vec![("a", 0)], vec![("s1", info(None, Some(1)))])];
    assert!(TopicsState::restore(&snaps).is_none());
}

#[test]
fn restore_rejects_repeated_subscriber() {
    let snaps = vec![topic("t", vec![], vec![("s1", info(None, None)), ("s1", info(None, None))])];
    assert!(TopicsState::restore(&snaps).is_none());
}

#[test]
fn restore_rejects_repeated_topic() {
    let snaps = vec![topic("t", vec![], vec![]), topic("t", vec![], vec![])];
    assert!(TopicsState::restore(&snaps).is_none());
}
