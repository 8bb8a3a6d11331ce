use rpubsub::model::SubscriptionInfo;
use rpubsub::protocol::{Message, ReplyOption, ServiceError, SocketAddress};
use rpubsub::server::{process_request, Server};
use rpubsub::topic::{
    add_subscription, add_topic, add_update, get_next_subscriber_update, remove_subscription,
    update_subscriber_update_ack, TopicsState,
};

fn s(x: &str) -> String {
    x.to_string()
}

fn server() -> Server {
    Server {
        socket_address: SocketAddress { ip: s("127.0.0.1"), port: 5555 },
        state_path: String::new(),
        state: TopicsState::new(),
    }
}

fn sub(srv: &mut Server, ip: &str, topic: &str) -> Result<ReplyOption, ServiceError> {
    reply_of(process_request(srv, &Message::SUB { ip: s(ip), topic: s(topic) }))
}

fn unsub(srv: &mut Server, ip: &str, topic: &str) -> Result<ReplyOption, ServiceError> {
    reply_of(process_request(srv, &Message::UNSUB { ip: s(ip), topic: s(topic) }))
}

fn put(srv: &mut Server, ip: &str, topic: &str, payload: &str) -> Result<ReplyOption, ServiceError> {
    reply_of(process_request(
        srv,
        &Message::PUT { ip: s(ip), topic: s(topic), sequence_num: 0, payload: s(payload) },
    ))
}

fn get(srv: &mut Server, ip: &str, topic: &str, seq: u128) -> Result<ReplyOption, ServiceError> {
    reply_of(process_request(srv, &Message::GET { ip: s(ip), topic: s(topic), sequence_num: seq }))
}

fn up(srv: &mut Server, ip: &str, pairs: &[(&str, u128)]) -> Result<ReplyOption, ServiceError> {
    let sequence_nums = pairs.iter().map(|(t, n)| (s(t), *n)).collect();
    reply_of(process_request(srv, &Message::UP { ip: s(ip), sequence_nums }))
}

fn reply_of(r: (Message, String)) -> Result<ReplyOption, ServiceError> {
    match r.0 {
        Message::REP { result } => result,
        other => panic!("not a reply: {:?}", other),
    }
}

fn delivered(r: Result<ReplyOption, ServiceError>) -> (Option<String>, u128) {
    match r {
        Ok(ReplyOption::TUP(t)) => t,
        other => panic!("not a delivery: {:?}", other),
    }
}

fn is_ack(r: &Result<ReplyOption, ServiceError>) -> bool {
    matches!(r, Ok(ReplyOption::NoOk))
}

fn pending(srv: &Server, topic: &str, idx: usize) -> usize {
    srv.state.update_at(&s(topic), idx).expect("update").1
}

fn cursor(srv: &Server, topic: &str, ip: &str) -> Option<usize> {
    srv.state.subscription(&s(topic), &s(ip)).expect("subscription").topic_update_idx
}

#[test]
fn get_then_duplicate_get() {
    let mut srv = server();
    assert!(is_ack(&sub(&mut srv, "s1", "t")));
    assert!(is_ack(&put(&mut srv, "p", "t", "x")));
    assert_eq!(delivered(get(&mut srv, "s1", "t", 0)), (Some(s("x")), 0));
    assert_eq!(delivered(get(&mut srv, "s1", "t", 0)), (Some(s("x")), 0));
    assert_eq!(pending(&srv, "t", 0), 1);
    assert_eq!(cursor(&srv, "t", "s1"), Some(0));
}

#[test]
fn two_subscribers_release_head() {
    let mut srv = server();
    assert!(is_ack(&sub(&mut srv, "s1", "t")));
    assert!(is_ack(&sub(&mut srv, "s2", "t")));
    assert!(is_ack(&put(&mut srv, "p", "t", "x")));
    assert_eq!(pending(&srv, "t", 0), 2);
    assert_eq!(delivered(get(&mut srv, "s1", "t", 0)), (Some(s("x")), 0));
    assert_eq!(delivered(get(&mut srv, "s1", "t", 1)), (None, 1));
    assert_eq!(srv.state.ledger_len(&s("t")), Some(1));
    assert_eq!(srv.state.update_at(&s("t"), 0), Some((s("x"), 1)));
    assert_eq!(delivered(get(&mut srv, "s2", "t", 0)), (Some(s("x")), 0));
    assert_eq!(delivered(get(&mut srv, "s2", "t", 1)), (None, 1));
    assert_eq!(srv.state.ledger_len(&s("t")), Some(0));
}

#[test]
fn unsubscribe_before_ack_purges() {
    let mut srv = server();
    assert!(is_ack(&sub(&mut srv, "s1", "t")));
    assert!(is_ack(&put(&mut srv, "p", "t", "a")));
    assert_eq!(pending(&srv, "t", 0), 1);
    assert!(is_ack(&unsub(&mut srv, "s1", "t")));
    assert_eq!(srv.state.ledger_len(&s("t")), Some(0));
    assert_eq!(srv.state.subscription(&s("t"), &s("s1")), None);
}

#[test]
fn up_handshake_then_advance() {
    let mut srv = server();
    assert!(is_ack(&sub(&mut srv, "s1", "t")));
    assert!(is_ack(&put(&mut srv, "p", "t", "x")));
    assert!(is_ack(&up(&mut srv, "s1", &[("t", 5)])));
    assert_eq!(
        srv.state.subscription(&s("t"), &s("s1")),
        Some(SubscriptionInfo { last_recv_sequence_num: Some(5), topic_update_idx: Some(0) })
    );
    assert_eq!(pending(&srv, "t", 0), 1);
    assert!(is_ack(&up(&mut srv, "s1", &[("t", 6)])));
    assert_eq!(
        srv.state.subscription(&s("t"), &s("s1")),
        Some(SubscriptionInfo { last_recv_sequence_num: Some(6), topic_update_idx: None })
    );
    assert_eq!(srv.state.ledger_len(&s("t")), Some(0));
}

#[test]
fn ack_moves_by_exactly_one() {
    let mut srv = server();
    sub(&mut srv, "s1", "t").unwrap();
    put(&mut srv, "p", "t", "a").unwrap();
    put(&mut srv, "p", "t", "b").unwrap();
    assert_eq!(delivered(get(&mut srv, "s1", "t", 10)), (Some(s("a")), 10));
    // ahead of the expected number: nothing moves
    assert_eq!(delivered(get(&mut srv, "s1", "t", 12)), (Some(s("a")), 12));
    // behind it: nothing moves either
    assert_eq!(delivered(get(&mut srv, "s1", "t", 9)), (Some(s("a")), 9));
    let info = srv.state.subscription(&s("t"), &s("s1")).unwrap();
    assert_eq!(info.last_recv_sequence_num, Some(10));
    assert_eq!(delivered(get(&mut srv, "s1", "t", 11)), (Some(s("b")), 11));
    let info = srv.state.subscription(&s("t"), &s("s1")).unwrap();
    assert_eq!(info.last_recv_sequence_num, Some(11));
}

#[test]
fn duplicate_ack_does_not_double_decrement() {
    let mut srv = server();
    sub(&mut srv, "s1", "t").unwrap();
    sub(&mut srv, "s2", "t").unwrap();
    put(&mut srv, "p", "t", "a").unwrap();
    put(&mut srv, "p", "t", "b").unwrap();
    get(&mut srv, "s1", "t", 0).unwrap();
    assert_eq!(delivered(get(&mut srv, "s1", "t", 1)), (Some(s("b")), 1));
    assert_eq!(pending(&srv, "t", 0), 1);
    assert_eq!(delivered(get(&mut srv, "s1", "t", 1)), (Some(s("b")), 1));
    assert_eq!(pending(&srv, "t", 0), 1);
    assert_eq!(pending(&srv, "t", 1), 2);
}

#[test]
fn pending_counts_match_cursors() {
    let mut srv = server();
    sub(&mut srv, "s1", "t").unwrap();
    put(&mut srv, "p", "t", "a").unwrap();
    sub(&mut srv, "s2", "t").unwrap();
    put(&mut srv, "p", "t", "b").unwrap();
    // s1 owes a and b, s2 only b
    assert_eq!(pending(&srv, "t", 0), 1);
    assert_eq!(pending(&srv, "t", 1), 2);
    assert_eq!(cursor(&srv, "t", "s1"), Some(0));
    assert_eq!(cursor(&srv, "t", "s2"), Some(1));
}

#[test]
fn cursors_stay_inside_ledger() {
    let mut srv = server();
    sub(&mut srv, "s1", "t").unwrap();
    sub(&mut srv, "s2", "t").unwrap();
    put(&mut srv, "p", "t", "a").unwrap();
    put(&mut srv, "p", "t", "b").unwrap();
    get(&mut srv, "s1", "t", 0).unwrap();
    get(&mut srv, "s1", "t", 1).unwrap();
    get(&mut srv, "s2", "t", 0).unwrap();
    get(&mut srv, "s2", "t", 1).unwrap();
    let len = srv.state.ledger_len(&s("t")).unwrap();
    assert_eq!(len, 1);
    for ip in ["s1", "s2"] {
        if let Some(k) = cursor(&srv, "t", ip) {
            assert!(k < len);
        }
    }
    assert_eq!(cursor(&srv, "t", "s1"), Some(0));
    assert_eq!(srv.state.update_at(&s("t"), 0), Some((s("b"), 2)));
}

#[test]
fn late_subscriber_skips_backlog() {
    let mut srv = server();
    sub(&mut srv, "s1", "t").unwrap();
    put(&mut srv, "p", "t", "old").unwrap();
    sub(&mut srv, "s2", "t").unwrap();
    assert_eq!(cursor(&srv, "t", "s2"), None);
    assert_eq!(delivered(get(&mut srv, "s2", "t", 0)), (None, 0));
    put(&mut srv, "p", "t", "new").unwrap();
    assert_eq!(cursor(&srv, "t", "s2"), Some(1));
    // nothing was delivered, so the client presents the same number again
    assert_eq!(delivered(get(&mut srv, "s2", "t", 0)), (Some(s("new")), 0));
}

#[test]
fn unsubscribe_releases_and_shifts_cursors() {
    let mut srv = server();
    sub(&mut srv, "s1", "t").unwrap();
    sub(&mut srv, "s2", "t").unwrap();
    put(&mut srv, "p", "t", "a").unwrap();
    put(&mut srv, "p", "t", "b").unwrap();
    get(&mut srv, "s1", "t", 0).unwrap();
    get(&mut srv, "s1", "t", 1).unwrap();
    assert_eq!(pending(&srv, "t", 0), 1);
    assert_eq!(pending(&srv, "t", 1), 2);
    unsub(&mut srv, "s2", "t").unwrap();
    assert_eq!(srv.state.ledger_len(&s("t")), Some(1));
    assert_eq!(srv.state.update_at(&s("t"), 0), Some((s("b"), 1)));
    assert_eq!(cursor(&srv, "t", "s1"), Some(0));
    assert_eq!(delivered(get(&mut srv, "s1", "t", 2)), (None, 2));
    assert_eq!(srv.state.ledger_len(&s("t")), Some(0));
}

#[test]
fn unsubscribe_caught_up_changes_no_count() {
    let mut srv = server();
    sub(&mut srv, "s1", "t").unwrap();
    put(&mut srv, "p", "t", "a").unwrap();
    sub(&mut srv, "s2", "t").unwrap();
    unsub(&mut srv, "s2", "t").unwrap();
    assert_eq!(srv.state.update_at(&s("t"), 0), Some((s("a"), 1)));
}

#[test]
fn publish_without_subscribers_keeps_update() {
    let mut srv = server();
    assert!(is_ack(&put(&mut srv, "p", "fresh", "x")));
    assert_eq!(srv.state.update_at(&s("fresh"), 0), Some((s("x"), 0)));
}

#[test]
fn errors_for_unknown_topic_and_subscriber() {
    let mut srv = server();
    assert!(matches!(get(&mut srv, "s1", "nope", 0), Err(ServiceError::NOTOPIC(t)) if t == "nope"));
    assert!(matches!(unsub(&mut srv, "s1", "nope"), Err(ServiceError::NOTOPIC(t)) if t == "nope"));
    assert!(matches!(up(&mut srv, "s1", &[("nope", 1)]), Err(ServiceError::NOTOPIC(t)) if t == "nope"));
    sub(&mut srv, "s1", "t").unwrap();
    assert!(matches!(get(&mut srv, "s2", "t", 0), Err(ServiceError::NOSUB(t)) if t == "t"));
    assert!(matches!(unsub(&mut srv, "s2", "t"), Err(ServiceError::NOSUB(t)) if t == "t"));
    assert!(matches!(sub(&mut srv, "s1", "t"), Err(ServiceError::ALREASUB(t)) if t == "t"));
    assert!(matches!(reply_of(process_request(&mut srv, &Message::NOMSG)), Err(ServiceError::UNKNOMSG)));
}

#[test]
fn up_stops_at_first_failure() {
    let mut srv = server();
    sub(&mut srv, "s1", "a").unwrap();
    sub(&mut srv, "s1", "c").unwrap();
    let r = up(&mut srv, "s1", &[("a", 3), ("b", 4), ("c", 5)]);
    assert!(matches!(r, Err(ServiceError::NOTOPIC(t)) if t == "b"));
    assert_eq!(srv.state.subscription(&s("a"), &s("s1")).unwrap().last_recv_sequence_num, Some(3));
    assert_eq!(srv.state.subscription(&s("c"), &s("s1")).unwrap().last_recv_sequence_num, None);
}

#[test]
fn replies_are_tagged_with_requester() {
    let mut srv = server();
    let (_, who) = process_request(&mut srv, &Message::SUB { ip: s("s9"), topic: s("t") });
    assert_eq!(who, "s9");
    let (_, who) = process_request(&mut srv, &Message::NOMSG);
    assert_eq!(who, "<UNKNOWN>");
}

#[test]
fn directory_functions_directly() {
    let mut st = TopicsState::new();
    assert!(!st.has_topic(&s("t")));
    assert!(matches!(add_update(&mut st, &s("t"), &s("x")), Err(ServiceError::NOTOPIC(_))));
    add_topic(&mut st, &s("t"));
    add_topic(&mut st, &s("t"));
    assert!(st.has_topic(&s("t")));
    assert!(add_subscription(&mut st, &s("t"), &s("s1")).is_ok());
    assert!(add_update(&mut st, &s("t"), &s("x")).is_ok());
    assert_eq!(update_subscriber_update_ack(&mut st, &s("t"), &s("s1"), 7).ok(), Some(Some(0)));
    assert_eq!(get_next_subscriber_update(&mut st, &s("t"), &s("s1"), 8).ok(), Some((None, 8)));
    assert_eq!(st.ledger_len(&s("t")), Some(0));
    assert!(remove_subscription(&mut st, &s("t"), &s("s1")).is_ok());
    assert!(matches!(remove_subscription(&mut st, &s("t"), &s("s1")), Err(ServiceError::NOSUB(_))));
}

#[test]
fn error_texts() {
    assert_eq!(ServiceError::NOTOPIC(s("t")).to_string(), "error: topic t doesn't exist");
    assert_eq!(ServiceError::NOSUB(s("t")).to_string(), "error: not subscribed to topic t");
    assert_eq!(ServiceError::ALREASUB(s("t")).to_string(), "error: already subscribed to topic t");
    assert_eq!(ServiceError::UNKNOMSG.to_string(), "error: unknown request");
}
