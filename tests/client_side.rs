use rpubsub::client::{
    next_poll_step, process_operation, process_reply, Client, PollStep, State, TopicCounters,
    MAX_TRIES,
};
use rpubsub::protocol::{Message, ReplyOption, ServiceError, SocketAddress};
use rpubsub::server::{process_request, Server};
use rpubsub::topic::TopicsState;

fn s(x: &str) -> String {
    x.to_string()
}

fn client(ip: &str) -> Client {
    Client {
        ip: s(ip),
        state: State { sequence_numbers: TopicCounters::new(), put_counters: TopicCounters::new() },
    }
}

fn ok_rep(o: ReplyOption) -> Message {
    Message::REP { result: Ok(o) }
}

#[test]
fn parses_sub_and_unsub() {
    let mut c = client("c1");
    match process_operation(&mut c, &s("SUB news")) {
        Ok(Message::SUB { ip, topic }) => {
            assert_eq!(ip, "c1");
            assert_eq!(topic, "news");
        }
        other => panic!("{:?}", other),
    }
    assert!(matches!(process_operation(&mut c, &s("UNSUB news")), Ok(Message::UNSUB { topic, .. }) if topic == "news"));
}

#[test]
fn parse_errors() {
    let mut c = client("c1");
    assert_eq!(process_operation(&mut c, &s("")).unwrap_err(), "error: no operation was inputed");
    assert_eq!(process_operation(&mut c, &s("GET")).unwrap_err(), "error: no operation was inputed");
    assert_eq!(process_operation(&mut c, &s("GET t x")).unwrap_err(), "error: missing parameters");
    assert_eq!(process_operation(&mut c, &s("SUB  t")).unwrap_err(), "error: missing parameters");
    assert_eq!(process_operation(&mut c, &s("PUT t")).unwrap_err(), "error: missing parameters");
    assert_eq!(process_operation(&mut c, &s("GET t")).unwrap_err(), "error: not subscribed to topic t");
    assert_eq!(process_operation(&mut c, &s("FOO t")).unwrap_err(), "error: unknown operation");
    assert!(!c.state.put_counters.contains_key(&s("t")));
}

#[test]
fn put_starts_counter_at_zero() {
    let mut c = client("c1");
    match process_operation(&mut c, &s("PUT t hello")) {
        Ok(Message::PUT { ip, topic, sequence_num, payload }) => {
            assert_eq!((ip.as_str(), topic.as_str(), sequence_num, payload.as_str()), ("c1", "t", 0, "hello"));
        }
        other => panic!("{:?}", other),
    }
    assert_eq!(c.state.put_counters.get(&s("t")), Some(0));
    c.state.put_counters.insert(s("t"), 4);
    assert!(matches!(process_operation(&mut c, &s("PUT t again")), Ok(Message::PUT { sequence_num: 4, .. })));
}

#[test]
fn get_presents_remembered_number() {
    let mut c = client("c1");
    c.state.sequence_numbers.insert(s("t"), 9);
    assert!(matches!(process_operation(&mut c, &s("GET t")), Ok(Message::GET { sequence_num: 9, .. })));
}

#[test]
fn replies_update_counters() {
    let mut c = client("c1");
    let sub = Message::SUB { ip: s("c1"), topic: s("t") };
    process_reply(&mut c, &sub, &ok_rep(ReplyOption::NoOk));
    assert_eq!(c.state.sequence_numbers.get(&s("t")), Some(0));

    let get = Message::GET { ip: s("c1"), topic: s("t"), sequence_num: 0 };
    process_reply(&mut c, &get, &ok_rep(ReplyOption::TUP((Some(s("x")), 0))));
    assert_eq!(c.state.sequence_numbers.get(&s("t")), Some(1));
    // nothing delivered: the number stays
    let get = Message::GET { ip: s("c1"), topic: s("t"), sequence_num: 1 };
    process_reply(&mut c, &get, &ok_rep(ReplyOption::TUP((None, 1))));
    assert_eq!(c.state.sequence_numbers.get(&s("t")), Some(1));

    let put = Message::PUT { ip: s("c1"), topic: s("t"), sequence_num: 0, payload: s("p") };
    process_reply(&mut c, &put, &ok_rep(ReplyOption::NoOk));
    assert_eq!(c.state.put_counters.get(&s("t")), Some(1));

    // a delivery echoing another number resets the put counter to it
    process_reply(&mut c, &get, &ok_rep(ReplyOption::TUP((Some(s("y")), 7))));
    assert_eq!(c.state.put_counters.get(&s("t")), Some(7));
    assert_eq!(c.state.sequence_numbers.get(&s("t")), Some(1));

    let unsub = Message::UNSUB { ip: s("c1"), topic: s("t") };
    process_reply(&mut c, &unsub, &ok_rep(ReplyOption::NoOk));
    assert_eq!(c.state.sequence_numbers.get(&s("t")), None);
}

#[test]
fn error_replies_change_nothing() {
    let mut c = client("c1");
    let sub = Message::SUB { ip: s("c1"), topic: s("t") };
    process_reply(&mut c, &sub, &Message::REP { result: Err(ServiceError::ALREASUB(s("t"))) });
    assert_eq!(c.state.sequence_numbers.get(&s("t")), None);
    process_reply(&mut c, &sub, &Message::NOMSG);
    assert_eq!(c.state.sequence_numbers.get(&s("t")), None);
}

#[test]
fn counters_map() {
    let mut m = TopicCounters::new();
    m.insert(s("a"), 1);
    m.insert(s("b"), 2);
    m.insert(s("a"), 3);
    assert_eq!(m.get(&s("a")), Some(3));
    let mut v = m.to_vec();
    v.sort();
    assert_eq!(v, vec![(s("a"), 3), (s("b"), 2)]);
    m.remove(&s("a"));
    assert!(!m.contains_key(&s("a")));
    assert_eq!(m.to_vec(), vec![(s("b"), 2)]);
}

#[test]
fn counter_stops_at_largest_value() {
    let mut c = client("c1");
    c.state.put_counters.insert(s("t"), u128::MAX);
    let put = Message::PUT { ip: s("c1"), topic: s("t"), sequence_num: 0, payload: s("p") };
    process_reply(&mut c, &put, &ok_rep(ReplyOption::NoOk));
    assert_eq!(c.state.put_counters.get(&s("t")), Some(u128::MAX));
}

#[test]
fn poll_policy() {
    assert_eq!(next_poll_step(0, true), PollStep::Receive);
    assert_eq!(next_poll_step(0, false), PollStep::Resend(1));
    assert_eq!(next_poll_step(MAX_TRIES, false), PollStep::Resend(MAX_TRIES + 1));
    assert_eq!(next_poll_step(MAX_TRIES + 1, false), PollStep::GiveUp);
}

#[test]
fn client_and_server_round_trip() {
    let mut srv = Server {
        socket_address: SocketAddress { ip: s("127.0.0.1"), port: 1 },
        state_path: String::new(),
        state: TopicsState::new(),
    };
    let mut reader = client("r");
    let mut writer = client("w");
    let mut exchange = |c: &mut Client, line: &str, srv: &mut Server| -> Message {
        let req = process_operation(c, &s(line)).expect("request");
        let (rep, _) = process_request(srv, &req);
        process_reply(c, &req, &rep);
        rep
    };
    exchange(&mut reader, "SUB news", &mut srv);
    exchange(&mut writer, "PUT news one", &mut srv);
    exchange(&mut writer, "PUT news two", &mut srv);
    let mut got = Vec::new();
    for _ in 0..4 {
        if let Message::REP { result: Ok(ReplyOption::TUP((Some(c), _))) } =
            exchange(&mut reader, "GET news", &mut srv)
        {
            got.push(c);
        }
    }
    // the first GET is the handshake and already delivers; each later one acknowledges
    assert_eq!(got, vec![s("one"), s("two")]);
    assert_eq!(writer.state.put_counters.get(&s("news")), Some(2));
    assert_eq!(srv.state.ledger_len(&s("news")), Some(0));
}
