//! The broker's dispatcher: each request becomes one operation on the topic
//! directory and one reply.
use vstd::prelude::*;
use vstd::string::StringExecFns;
use crate::model::TopicModel;
use crate::protocol::{
    reply_view, Message, ReplyOption, SequenceNum, ServiceError, SocketAddress, Topic,
    UpdateContent,
};
use crate::topic::{
    ack_outcome, add_subscription, add_topic, add_update, get_next_subscriber_update,
    next_update_outcome, publish_outcome, remove_subscription, subscribe_outcome,
    unsubscribe_outcome, update_subscriber_update_ack, with_topic, TopicsState,
};

verus! {

/// The broker: where it listens, where its state is kept, and the state.
pub struct Server {
    pub socket_address: SocketAddress,
    pub state_path: String,
    pub state: TopicsState,
}

/// What a reply carries, seen through views: `None` for an acknowledgment
/// without content, `Some((content, seq))` for a delivery.
pub type ReplyModel = Result<Option<(Option<Seq<char>>, SequenceNum)>, ServiceError>;

/// A result without content, as a reply.
pub open spec fn ack_reply<T>(r: Result<T, ServiceError>) -> ReplyModel {
    match r {
        Ok(_) => Ok(None),
        Err(e) => Err(e),
    }
}

/// PUT: the topic is created if needed, then the update is published.
pub open spec fn put_outcome(d: Map<Seq<char>, TopicModel>, topic: Topic, content: Seq<char>) -> (
    Map<Seq<char>, TopicModel>,
    Result<(), ServiceError>,
) {
    publish_outcome(with_topic(d, topic@), topic, content)
}

/// UP: each `(topic, seq)` pair is presented in turn; the first failure
/// stops the replay and is the result.
pub open spec fn up_outcome(
    d: Map<Seq<char>, TopicModel>,
    ip: Seq<char>,
    pairs: Seq<(Topic, SequenceNum)>,
) -> (Map<Seq<char>, TopicModel>, Result<(), ServiceError>)
    decreases pairs.len(),
{
    if pairs.len() == 0 {
        (d, Ok(()))
    } else {
        let (d1, r) = ack_outcome(d, pairs[0].0, ip, pairs[0].1);
        match r {
            Err(e) => (d1, Err(e)),
            Ok(_) => up_outcome(d1, ip, pairs.drop_first()),
        }
    }
}

/// The new directory and the reply for `request`.
pub open spec fn request_outcome(d: Map<Seq<char>, TopicModel>, request: Message) -> (
    Map<Seq<char>, TopicModel>,
    ReplyModel,
) {
    match request {
        Message::GET { ip, topic, sequence_num } => {
            let (d1, r) = next_update_outcome(d, topic, ip@, sequence_num);
            (
                d1,
                match r {
                    Ok(x) => Ok(Some(x)),
                    Err(e) => Err(e),
                },
            )
        },
        Message::PUT { ip, topic, sequence_num, payload } => {
            let (d1, r) = put_outcome(d, topic, payload@);
            (d1, ack_reply(r))
        },
        Message::SUB { ip, topic } => {
            let (d1, r) = subscribe_outcome(d, topic, ip@);
            (d1, ack_reply(r))
        },
        Message::UNSUB { ip, topic } => {
            let (d1, r) = unsubscribe_outcome(d, topic, ip@);
            (d1, ack_reply(r))
        },
        Message::UP { ip, sequence_nums } => {
            let (d1, r) = up_outcome(d, ip@, sequence_nums@);
            (d1, ack_reply(r))
        },
        Message::NOMSG => (d, Err(ServiceError::UNKNOMSG)),
        Message::REP { .. } => (d, Ok(None)),
    }
}

/// Who sent `request`, as the reply is tagged.
pub open spec fn requester(request: Message) -> Seq<char> {
    match request {
        Message::GET { ip, .. } => ip@,
        Message::PUT { ip, .. } => ip@,
        Message::SUB { ip, .. } => ip@,
        Message::UNSUB { ip, .. } => ip@,
        Message::UP { ip, .. } => ip@,
        _ => "<UNKNOWN>"@,
    }
}

fn process_get(server: &mut Server, topic: &Topic, ip: &String, sequence_num: SequenceNum) -> (r:
    Result<ReplyOption, ServiceError>)
    requires
        old(server).state.wf(),
    ensures
        final(server).state.wf(),
        (final(server).state@, reply_view(r)) == request_outcome(
            old(server).state@,
            Message::GET { ip: *ip, topic: *topic, sequence_num },
        ),
{
    match get_next_subscriber_update(&mut server.state, topic, ip, sequence_num) {
        Ok(opt) => Ok(ReplyOption::TUP(opt)),
        Err(err) => Err(err),
    }
}

/// The sequence number a PUT carries is not checked: a PUT sent twice is
/// published twice.
fn process_put(
    server: &mut Server,
    topic: &Topic,
    content: &UpdateContent,
    _sequence_num: SequenceNum,
) -> (r: Result<ReplyOption, ServiceError>)
    requires
        old(server).state.wf(),
    ensures
        final(server).state.wf(),
        (final(server).state@, reply_view(r)) == ({
            let (d1, x) = put_outcome(old(server).state@, *topic, content@);
            (d1, ack_reply(x))
        }),
{
    add_topic(&mut server.state, topic);
    match add_update(&mut server.state, topic, content) {
        Ok(_) => Ok(ReplyOption::NoOk),
        Err(err) => Err(err),
    }
}

fn process_sub(server: &mut Server, topic: &Topic, ip: &String) -> (r: Result<
    ReplyOption,
    ServiceError,
>)
    requires
        old(server).state.wf(),
    ensures
        final(server).state.wf(),
        (final(server).state@, reply_view(r)) == ({
            let (d1, x) = subscribe_outcome(old(server).state@, *topic, ip@);
            (d1, ack_reply(x))
        }),
{
    match add_subscription(&mut server.state, topic, ip) {
        Ok(_) => Ok(ReplyOption::NoOk),
        Err(err) => Err(err),
    }
}

fn process_unsub(server: &mut Server, topic: &Topic, ip: &String) -> (r: Result<
    ReplyOption,
    ServiceError,
>)
    requires
        old(server).state.wf(),
    ensures
        final(server).state.wf(),
        (final(server).state@, reply_view(r)) == ({
            let (d1, x) = unsubscribe_outcome(old(server).state@, *topic, ip@);
            (d1, ack_reply(x))
        }),
{
    match remove_subscription(&mut server.state, topic, ip) {
        Ok(_) => Ok(ReplyOption::NoOk),
        Err(err) => Err(err),
    }
}

fn process_up(server: &mut Server, ip: &String, sequence_nums: &Vec<(Topic, SequenceNum)>) -> (r:
    Result<ReplyOption, ServiceError>)
    requires
        old(server).state.wf(),
    ensures
        final(server).state.wf(),
        (final(server).state@, reply_view(r)) == ({
            let (d1, x) = up_outcome(old(server).state@, ip@, sequence_nums@);
            (d1, ack_reply(x))
        }),
{
    let ghost pairs = sequence_nums@;
    assert(pairs.skip(0) =~= pairs);
    let mut i: usize = 0;
    while i < sequence_nums.len()
        invariant
            i <= pairs.len(),
            pairs == sequence_nums@,
            server.state.wf(),
            up_outcome(old(server).state@, ip@, pairs) == up_outcome(
                server.state@,
                ip@,
                pairs.skip(i as int),
            ),
        decreases pairs.len() - i,
    {
        let pair = &sequence_nums[i];
        assert(pairs.skip(i as int)[0] == pairs[i as int]);
        assert(pairs.skip(i as int).drop_first() =~= pairs.skip(i as int + 1));
        let res = update_subscriber_update_ack(&mut server.state, &pair.0, ip, pair.1);
        if let Err(e) = res {
            return Err(e);
        }
        i = i + 1;
    }
    assert(pairs.skip(i as int).len() == 0);
    Ok(ReplyOption::NoOk)
}

/// Carries out `request` and returns the reply, tagged with the requester.
pub fn process_request(server: &mut Server, request: &Message) -> (r: (Message, String))
    requires
        old(server).state.wf(),
    ensures
        final(server).state.wf(),
        r.1@ == requester(*request),
        match r.0 {
            Message::REP { result } => (final(server).state@, reply_view(result))
                == request_outcome(old(server).state@, *request),
            _ => false,
        },
{
    let mut client_ip = String::from_str("<UNKNOWN>");
    let result = match request {
        Message::GET { ip, topic, sequence_num } => {
            client_ip = ip.clone();
            process_get(server, topic, ip, *sequence_num)
        },
        Message::PUT { ip, topic, sequence_num, payload } => {
            client_ip = ip.clone();
            process_put(server, topic, payload, *sequence_num)
        },
        Message::SUB { ip, topic } => {
            client_ip = ip.clone();
            process_sub(server, topic, ip)
        },
        Message::UNSUB { ip, topic } => {
            client_ip = ip.clone();
            process_unsub(server, topic, ip)
        },
        Message::UP { ip, sequence_nums } => {
            client_ip = ip.clone();
            process_up(server, ip, sequence_nums)
        },
        Message::NOMSG => Err(ServiceError::UNKNOMSG),
        Message::REP { .. } => Ok(ReplyOption::NoOk),
    };
    (Message::REP { result }, client_ip)
}

} // verus!
