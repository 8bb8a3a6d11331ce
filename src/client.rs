//! The client's side of the protocol: its per-topic counters, the parsing of
//! a command line into a request, and what a reply does to the counters.
use vstd::prelude::*;
use vstd::string::{StrSliceExecFns, StringExecFns};
use crate::keyed::{
    find_key, keys_unique, lemma_to_map_at, lemma_to_map_push, lemma_to_map_remove,
    lemma_to_map_update, to_map,
};
use crate::protocol::{Message, ReplyOption, SequenceNum};

verus! {

/// A counter per topic name.
pub struct TopicCounters {
    entries: Vec<(String, u128)>,
}

impl View for TopicCounters {
    type V = Map<Seq<char>, u128>;

    closed spec fn view(&self) -> Map<Seq<char>, u128> {
        to_map(self.entry_views())
    }
}

impl TopicCounters {
    closed spec fn entry_views(&self) -> Seq<(Seq<char>, u128)> {
        self.entries@.map_values(|e: (String, u128)| (e.0@, e.1))
    }

    /// No topic is listed twice.
    pub closed spec fn wf(&self) -> bool {
        keys_unique(self.entry_views())
    }

    pub fn new() -> (r: Self)
        ensures
            r.wf(),
            r@ == Map::<Seq<char>, u128>::empty(),
    {
        let r = TopicCounters { entries: Vec::new() };
        assert(r.entry_views() =~= Seq::empty());
        assert(r@ =~= Map::empty());
        r
    }

    fn position(&self, topic: &String) -> (r: Option<usize>)
        requires
            self.wf(),
        ensures
            match r {
                Some(i) => {
                    &&& i < self.entries@.len()
                    &&& self.entries@[i as int].0@ == topic@
                    &&& self@.contains_key(topic@)
                    &&& self@[topic@] == self.entries@[i as int].1
                },
                None => !self@.contains_key(topic@),
            },
    {
        let r = find_key(&self.entries, topic);
        proof {
            match r {
                Some(i) => {
                    lemma_to_map_at(self.entry_views(), i as int);
                },
                None => {
                    if self@.contains_key(topic@) {
                        let c = choose|c: int|
                            0 <= c < self.entry_views().len() && #[trigger] self.entry_views()[c].0
                                == topic@;
                        assert(self.entries@[c].0@ == topic@);
                    }
                },
            }
        }
        r
    }

    pub fn contains_key(&self, topic: &String) -> (r: bool)
        requires
            self.wf(),
        ensures
            r == self@.contains_key(topic@),
    {
        self.position(topic).is_some()
    }

    pub fn get(&self, topic: &String) -> (r: Option<u128>)
        requires
            self.wf(),
        ensures
            r == (if self@.contains_key(topic@) {
                Some(self@[topic@])
            } else {
                None
            }),
    {
        match self.position(topic) {
            Some(i) => Some(self.entries[i].1),
            None => None,
        }
    }

    /// Sets the counter of `topic` to `value`.
    pub fn insert(&mut self, topic: String, value: u128)
        requires
            old(self).wf(),
        ensures
            final(self).wf(),
            final(self)@ == old(self)@.insert(topic@, value),
    {
        let ghost before = self.entry_views();
        match self.position(&topic) {
            Some(i) => {
                self.entries.set(i, (topic, value));
                proof {
                    lemma_to_map_update(before, i as int, value);
                    assert(self.entry_views() =~= before.update(i as int, (before[i as int].0, value)));
                }
            },
            None => {
                let ghost k = topic@;
                self.entries.push((topic, value));
                proof {
                    lemma_to_map_push(before, k, value);
                    assert(self.entry_views() =~= before.push((k, value)));
                }
            },
        }
    }

    /// Forgets the counter of `topic`, if any.
    pub fn remove(&mut self, topic: &String)
        requires
            old(self).wf(),
        ensures
            final(self).wf(),
            final(self)@ == old(self)@.remove(topic@),
    {
        let ghost before = self.entry_views();
        match self.position(topic) {
            Some(i) => {
                self.entries.remove(i);
                proof {
                    lemma_to_map_remove(before, i as int);
                    assert(self.entry_views() =~= before.remove(i as int));
                }
            },
            None => {
                assert(self@ =~= self@.remove(topic@));
            },
        }
    }

    /// Every `(topic, counter)` pair, each topic once.
    pub fn to_vec(&self) -> (r: Vec<(String, u128)>)
        requires
            self.wf(),
        ensures
            keys_unique(r@.map_values(|e: (String, u128)| (e.0@, e.1))),
            to_map(r@.map_values(|e: (String, u128)| (e.0@, e.1))) == self@,
    {
        let mut r: Vec<(String, u128)> = Vec::new();
        let mut i: usize = 0;
        while i < self.entries.len()
            invariant
                i <= self.entries@.len(),
                r@.map_values(|e: (String, u128)| (e.0@, e.1)) == self.entry_views().take(i as int),
            decreases self.entries@.len() - i,
        {
            let k = self.entries[i].0.clone();
            r.push((k, self.entries[i].1));
            assert(self.entry_views().take(i as int + 1) =~= self.entry_views().take(i as int).push(
                self.entry_views()[i as int],
            ));
            assert(r@.map_values(|e: (String, u128)| (e.0@, e.1)) =~= self.entry_views().take(
                i as int + 1,
            ));
            i = i + 1;
        }
        assert(self.entry_views().take(i as int) =~= self.entry_views());
        r
    }
}

/// What a client remembers between runs.
pub struct State {
    /// Per topic, the sequence number the next GET presents.
    pub sequence_numbers: TopicCounters,
    /// Per topic, how many PUTs were accepted.
    pub put_counters: TopicCounters,
}

impl State {
    pub open spec fn wf(&self) -> bool {
        self.sequence_numbers.wf() && self.put_counters.wf()
    }
}

pub struct Client {
    pub ip: String,
    pub state: State,
}

/// A counter moved one up; it stays at the largest value once there.
pub open spec fn bumped(c: u128) -> u128 {
    if c < u128::MAX {
        (c + 1) as u128
    } else {
        c
    }
}

fn bump(c: u128) -> (r: u128)
    ensures
        r == bumped(c),
{
    if c < u128::MAX {
        c + 1
    } else {
        c
    }
}

/// The pieces of `s` between single spaces, empty pieces included.
pub open spec fn split_spaces(s: Seq<char>) -> Seq<Seq<char>>
    decreases s.len(),
{
    if s.len() == 0 {
        seq![Seq::empty()]
    } else {
        let init = split_spaces(s.drop_last());
        if s.last() == ' ' {
            init.push(Seq::empty())
        } else {
            init.update(init.len() - 1, init.last().push(s.last()))
        }
    }
}

proof fn lemma_split_spaces_nonempty(s: Seq<char>)
    ensures
        split_spaces(s).len() >= 1,
    decreases s.len(),
{
    if s.len() > 0 {
        lemma_split_spaces_nonempty(s.drop_last());
    }
}

fn split_on_spaces(op: &String) -> (r: Vec<String>)
    ensures
        r@.map_values(|p: String| p@) == split_spaces(op@),
{
    let s = op.as_str();
    let n = s.unicode_len();
    let mut parts: Vec<String> = Vec::new();
    let mut start: usize = 0;
    let mut i: usize = 0;
    assert(op@.subrange(0, 0) =~= Seq::<char>::empty());
    while i < n
        invariant
            start <= i <= n,
            n == op@.len(),
            s@ == op@,
            parts@.map_values(|p: String| p@).push(op@.subrange(start as int, i as int))
                == split_spaces(op@.subrange(0, i as int)),
        decreases n - i,
    {
        let c = s.get_char(i);
        let ghost prefix = op@.subrange(0, i as int + 1);
        let ghost done = parts@.map_values(|p: String| p@);
        let ghost init = split_spaces(op@.subrange(0, i as int));
        assert(prefix.drop_last() =~= op@.subrange(0, i as int));
        assert(prefix.last() == c);
        assert(init == done.push(op@.subrange(start as int, i as int)));
        if c == ' ' {
            let piece = String::from_str(s.substring_char(start, i));
            parts.push(piece);
            start = i + 1;
            assert(parts@.map_values(|p: String| p@) =~= init);
            assert(op@.subrange(start as int, i as int + 1) =~= Seq::<char>::empty());
            assert(split_spaces(prefix) == init.push(Seq::<char>::empty()));
        } else {
            assert(op@.subrange(start as int, i as int).push(c) =~= op@.subrange(
                start as int,
                i as int + 1,
            ));
            assert(split_spaces(prefix) == init.update(
                init.len() - 1,
                op@.subrange(start as int, i as int + 1),
            ));
            assert(done.push(op@.subrange(start as int, i as int + 1)) =~= init.update(
                init.len() - 1,
                op@.subrange(start as int, i as int + 1),
            ));
        }
        i = i + 1;
    }
    let last = String::from_str(s.substring_char(start, n));
    let ghost done = parts@.map_values(|p: String| p@);
    parts.push(last);
    assert(parts@.map_values(|p: String| p@) =~= done.push(op@.subrange(start as int, n as int)));
    assert(op@.subrange(0, n as int) =~= op@);
    assert(parts@.map_values(|p: String| p@) =~= split_spaces(op@));
    parts
}

fn is_word(s: &String, w: &str) -> (r: bool)
    ensures
        r == (s@ == w@),
{
    *s == String::from_str(w)
}

/// A request parsed from a command line, as a value.
pub enum Operation {
    Get { topic: Seq<char>, sequence_num: SequenceNum },
    Put { topic: Seq<char>, sequence_num: SequenceNum, payload: Seq<char> },
    Sub { topic: Seq<char> },
    Unsub { topic: Seq<char> },
}

/// The request `m` from `ip` is the operation `o`.
pub open spec fn message_is(m: Message, ip: Seq<char>, o: Operation) -> bool {
    match (m, o) {
        (Message::GET { ip: i, topic, sequence_num }, Operation::Get { topic: t, sequence_num: s }) => {
            &&& i@ == ip
            &&& topic@ == t
            &&& sequence_num == s
        },
        (
            Message::PUT { ip: i, topic, sequence_num, payload },
            Operation::Put { topic: t, sequence_num: s, payload: p },
        ) => {
            &&& i@ == ip
            &&& topic@ == t
            &&& sequence_num == s
            &&& payload@ == p
        },
        (Message::SUB { ip: i, topic }, Operation::Sub { topic: t }) => i@ == ip && topic@ == t,
        (Message::UNSUB { ip: i, topic }, Operation::Unsub { topic: t }) => i@ == ip && topic@
            == t,
        _ => false,
    }
}

/// A command line `op` read against the client's counters: the put
/// counters afterwards, and the request or the error text.
///
/// `SUB t`, `UNSUB t` and `GET t` take one operand, `PUT t payload` two;
/// GET needs a sequence number for the topic, and PUT starts a missing put
/// counter at zero.
pub open spec fn operation_outcome(
    seqs: Map<Seq<char>, u128>,
    puts: Map<Seq<char>, u128>,
    op: Seq<char>,
) -> (Map<Seq<char>, u128>, Result<Operation, Seq<char>>) {
    let w = split_spaces(op);
    if w.len() < 2 {
        (puts, Err("error: no operation was inputed"@))
    } else if (w[0] == "GET"@ || w[0] == "SUB"@ || w[0] == "UNSUB"@) && w.len() != 2 {
        (puts, Err("error: missing parameters"@))
    } else if w[0] == "PUT"@ && w.len() != 3 {
        (puts, Err("error: missing parameters"@))
    } else if w[0] == "SUB"@ {
        (puts, Ok(Operation::Sub { topic: w[1] }))
    } else if w[0] == "UNSUB"@ {
        (puts, Ok(Operation::Unsub { topic: w[1] }))
    } else if w[0] == "PUT"@ {
        let p1 = if puts.contains_key(w[1]) {
            puts
        } else {
            puts.insert(w[1], 0)
        };
        (p1, Ok(Operation::Put { topic: w[1], sequence_num: p1[w[1]], payload: w[2] }))
    } else if w[0] == "GET"@ {
        if !seqs.contains_key(w[1]) {
            (puts, Err("error: not subscribed to topic "@ + w[1]))
        } else {
            (puts, Ok(Operation::Get { topic: w[1], sequence_num: seqs[w[1]] }))
        }
    } else {
        (puts, Err("error: unknown operation"@))
    }
}

/// Reads a command line into a request (see `operation_outcome`).
pub fn process_operation(client: &mut Client, op: &String) -> (r: Result<Message, String>)
    requires
        old(client).state.wf(),
    ensures
        final(client).state.wf(),
        final(client).ip == old(client).ip,
        final(client).state.sequence_numbers@ == old(client).state.sequence_numbers@,
        ({
            let (puts, res) = operation_outcome(
                old(client).state.sequence_numbers@,
                old(client).state.put_counters@,
                op@,
            );
            &&& final(client).state.put_counters@ == puts
            &&& match (r, res) {
                (Ok(m), Ok(o)) => message_is(m, old(client).ip@, o),
                (Err(e), Err(t)) => e@ == t,
                _ => false,
            }
        }),
{
    let operands = split_on_spaces(op);
    assert(operands@.len() == split_spaces(op@).len());
    if operands.len() < 2 {
        return Err(String::from_str("error: no operation was inputed"));
    }
    assert(operands@[0]@ == split_spaces(op@)[0]);
    assert(operands@[1]@ == split_spaces(op@)[1]);
    let is_get = is_word(&operands[0], "GET");
    let is_sub = is_word(&operands[0], "SUB");
    let is_unsub = is_word(&operands[0], "UNSUB");
    let is_put = is_word(&operands[0], "PUT");
    if (is_get || is_sub || is_unsub) && operands.len() != 2 {
        return Err(String::from_str("error: missing parameters"));
    }
    if is_put && operands.len() != 3 {
        return Err(String::from_str("error: missing parameters"));
    }
    let topic = operands[1].clone();
    if is_sub {
        Ok(Message::SUB { ip: client.ip.clone(), topic })
    } else if is_unsub {
        Ok(Message::UNSUB { ip: client.ip.clone(), topic })
    } else if is_put {
        assert(operands@[2]@ == split_spaces(op@)[2]);
        if !client.state.put_counters.contains_key(&topic) {
            client.state.put_counters.insert(topic.clone(), 0);
        }
        let sequence_num = match client.state.put_counters.get(&topic) {
            Some(n) => n,
            // not reached: the counter was just made sure of
            None => 0,
        };
        let payload = operands[2].clone();
        Ok(Message::PUT { ip: client.ip.clone(), topic, sequence_num, payload })
    } else if is_get {
        match client.state.sequence_numbers.get(&topic) {
            None => {
                let mut e = String::from_str("error: not subscribed to topic ");
                e.append(topic.as_str());
                Err(e)
            },
            Some(sequence_num) => Ok(Message::GET { ip: client.ip.clone(), sequence_num, topic }),
        }
    } else {
        Err(String::from_str("error: unknown operation"))
    }
}

/// The counters after `reply` answered `request`: SUB starts a sequence
/// number at zero, UNSUB forgets it, an accepted PUT moves its put counter
/// on, and a delivery moves the sequence number on. A delivery that echoes
/// another sequence number sets the put counter to the echoed one.
pub open spec fn reply_outcome(
    seqs: Map<Seq<char>, u128>,
    puts: Map<Seq<char>, u128>,
    request: Message,
    reply: Message,
) -> (Map<Seq<char>, u128>, Map<Seq<char>, u128>) {
    match reply {
        Message::REP { result } => match result {
            Err(_) => (seqs, puts),
            Ok(reply_option) => match request {
                Message::SUB { topic, .. } => (
                    if seqs.contains_key(topic@) {
                        seqs
                    } else {
                        seqs.insert(topic@, 0)
                    },
                    puts,
                ),
                Message::UNSUB { topic, .. } => (seqs.remove(topic@), puts),
                Message::PUT { topic, .. } => {
                    let p1 = if puts.contains_key(topic@) {
                        puts
                    } else {
                        puts.insert(topic@, 0)
                    };
                    match reply_option {
                        ReplyOption::NoOk => (seqs, p1.insert(topic@, bumped(p1[topic@]))),
                        ReplyOption::TUP(_) => (seqs, p1),
                    }
                },
                Message::GET { topic, sequence_num, .. } => match reply_option {
                    ReplyOption::TUP((content, echoed)) => if sequence_num == echoed {
                        if content is Some && seqs.contains_key(topic@) {
                            (seqs.insert(topic@, bumped(seqs[topic@])), puts)
                        } else {
                            (seqs, puts)
                        }
                    } else if puts.contains_key(topic@) {
                        (seqs, puts.insert(topic@, echoed))
                    } else {
                        (seqs, puts)
                    },
                    ReplyOption::NoOk => (seqs, puts),
                },
                _ => (seqs, puts),
            },
        },
        _ => (seqs, puts),
    }
}

/// Updates the client's counters once `reply` answered `request` (see
/// `reply_outcome`).
pub fn process_reply(client: &mut Client, request: &Message, reply: &Message)
    requires
        old(client).state.wf(),
    ensures
        final(client).state.wf(),
        final(client).ip == old(client).ip,
        (final(client).state.sequence_numbers@, final(client).state.put_counters@)
            == reply_outcome(
            old(client).state.sequence_numbers@,
            old(client).state.put_counters@,
            *request,
            *reply,
        ),
{
    let result = match reply {
        Message::REP { result } => result,
        _ => {
            return ;
        },
    };
    let reply_option = match result {
        Ok(o) => o,
        Err(_) => {
            return ;
        },
    };
    match request {
        Message::SUB { topic, .. } => {
            if !client.state.sequence_numbers.contains_key(topic) {
                client.state.sequence_numbers.insert(topic.clone(), 0);
            }
        },
        Message::UNSUB { topic, .. } => {
            if client.state.sequence_numbers.contains_key(topic) {
                client.state.sequence_numbers.remove(topic);
            } else {
                assert(client.state.sequence_numbers@ =~= client.state.sequence_numbers@.remove(
                    topic@,
                ));
            }
        },
        Message::PUT { topic, .. } => {
            if !client.state.put_counters.contains_key(topic) {
                client.state.put_counters.insert(topic.clone(), 0);
            }
            match reply_option {
                ReplyOption::NoOk => {
                    if let Some(counter) = client.state.put_counters.get(topic) {
                        client.state.put_counters.insert(topic.clone(), bump(counter));
                    }
                },
                ReplyOption::TUP(_) => {},
            }
        },
        Message::GET { topic, sequence_num, .. } => {
            match reply_option {
                ReplyOption::TUP(tup) => {
                    if *sequence_num == tup.1 {
                        if tup.0.is_some() {
                            if let Some(counter) = client.state.sequence_numbers.get(topic) {
                                client.state.sequence_numbers.insert(topic.clone(), bump(counter));
                            }
                        }
                    } else {
                        if client.state.put_counters.contains_key(topic) {
                            client.state.put_counters.insert(topic.clone(), tup.1);
                        }
                    }
                },
                ReplyOption::NoOk => {},
            }
        },
        _ => {},
    }
}

/// How many times a request is sent again before the client gives up.
pub const MAX_TRIES: u32 = 3;

/// What the client does after waiting for a reply.
#[derive(Debug, Clone, Copy, PartialEq, Eq, Structural)]
pub enum PollStep {
    /// A reply is ready: read it.
    Receive,
    /// Nothing came: send again, with this many retries spent.
    Resend(u32),
    /// Nothing came and the retries are spent.
    GiveUp,
}

/// The retry policy: after `tries` retries, a wait that saw a reply
/// (`ready`) or not.
pub fn next_poll_step(tries: u32, ready: bool) -> (r: PollStep)
    ensures
        ready ==> r == PollStep::Receive,
        !ready && tries > MAX_TRIES ==> r == PollStep::GiveUp,
        !ready && tries <= MAX_TRIES ==> r == PollStep::Resend((tries + 1) as u32),
{
    if ready {
        PollStep::Receive
    } else if tries > MAX_TRIES {
        PollStep::GiveUp
    } else {
        PollStep::Resend(tries + 1)
    }
}

} // verus!
