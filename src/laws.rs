//! What the broker guarantees across operations, stated over the model and
//! proved.
use vstd::prelude::*;
use crate::model::{
    lemma_advance_wf, lemma_collect_wf, lemma_cursor_owed, lemma_release_wf,
    lemma_settled_prefix_bound,
    owing, released_from, settled_prefix, TopicModel,
};
use crate::protocol::{SequenceNum, Topic};
use crate::server::put_outcome;
use crate::topic::{ack_outcome, subscribe_outcome, with_topic, TopicsState};

verus! {

/// A successful acknowledgment (GET or UP) either leaves the subscriber's
/// last sequence number as it was, or records it on first contact, or
/// moves it up by exactly one, to the number presented.
pub proof fn lemma_ack_moves_by_one(
    d: Map<Seq<char>, TopicModel>,
    topic: Topic,
    ip: Seq<char>,
    seq: SequenceNum,
)
    requires
        d.contains_key(topic@),
        d[topic@].wf(),
        d[topic@].subscriptions.contains_key(ip),
    ensures
        ack_outcome(d, topic, ip, seq).1 is Ok,
        ({
            let before = d[topic@].subscriptions[ip].last_recv_sequence_num;
            let after = ack_outcome(d, topic, ip, seq).0[topic@].subscriptions[ip].last_recv_sequence_num;
            ||| after == before
            ||| before is None && after == Some(seq)
            ||| before is Some && seq == before->Some_0 + 1 && after == Some(seq)
        }),
{
    lemma_advance_wf(d[topic@], ip, seq);
}

/// Presenting the same sequence number twice in a row: the second time
/// changes nothing (no cursor moves, no count drops) and hands back what the
/// first did.
pub proof fn lemma_ack_idempotent(
    d: Map<Seq<char>, TopicModel>,
    topic: Topic,
    ip: Seq<char>,
    seq: SequenceNum,
)
    requires
        d.contains_key(topic@) ==> d[topic@].wf(),
    ensures
        ack_outcome(ack_outcome(d, topic, ip, seq).0, topic, ip, seq) == ack_outcome(
            d,
            topic,
            ip,
            seq,
        ),
{
    if d.contains_key(topic@) && d[topic@].subscriptions.contains_key(ip) {
        let (t1, r1) = d[topic@].advance(ip, seq);
        lemma_advance_wf(d[topic@], ip, seq);
        let d1 = d.insert(topic@, t1);
        assert(d1[topic@] == t1);
        assert(t1.advance(ip, seq).0 == t1);
        assert(d1.insert(topic@, t1) =~= d1);
    }
}

/// An in-order acknowledgment lowers by one the count of the update at the
/// subscriber's cursor; that update leaves the ledger exactly when it is the
/// head and its count has reached zero.
pub proof fn lemma_ack_releases_one(t: TopicModel, id: Seq<char>, seq: SequenceNum)
    requires
        t.wf(),
        t.subscriptions.contains_key(id),
        t.subscriptions[id].last_recv_sequence_num is Some,
        seq == t.subscriptions[id].last_recv_sequence_num->Some_0 + 1,
        t.subscriptions[id].topic_update_idx is Some,
    ensures
        ({
            let idx = t.subscriptions[id].topic_update_idx->Some_0 as int;
            let p = t.ledger[idx].pending - 1;
            let r = t.advance(id, seq).0;
            &&& p >= 0
            &&& if idx == 0 && p == 0 {
                r.ledger == t.ledger.drop_first()
            } else {
                &&& r.ledger.len() == t.ledger.len()
                &&& r.ledger[idx].pending == p
                &&& forall|j: int| 0 <= j < t.ledger.len() && j != idx ==> #[trigger] r.ledger[j] == t.ledger[j]
            }
        }),
{
    lemma_cursor_owed(t, id);
    let idx = t.subscriptions[id].topic_update_idx->Some_0;
    if idx == 0 && t.ledger[0].pending - 1 == 0 {
        assert(t.acknowledge(id, seq, idx).ledger.drop_first() =~= t.ledger.drop_first());
    }
}

/// In a sound directory every update's count is the number of subscribers
/// whose cursor is at or before it; nothing is ever owed by fewer than none.
pub proof fn lemma_pending_counts(state: &TopicsState)
    requires
        state.wf(),
    ensures
        forall|name: Seq<char>, j: int|
            #![trigger state@[name].ledger[j]]
            state@.contains_key(name) && 0 <= j < state@[name].ledger.len() ==> state@[name].ledger[j].pending
                == owing(state@[name].subscriptions, j).len(),
{
    state.lemma_topics_wf();
}

/// In a sound directory every cursor points into its topic's ledger.
pub proof fn lemma_cursors_valid(state: &TopicsState)
    requires
        state.wf(),
    ensures
        forall|name: Seq<char>, id: Seq<char>|
            #![trigger state@[name].subscriptions[id]]
            state@.contains_key(name) && state@[name].subscriptions.contains_key(id)
                && state@[name].subscriptions[id].topic_update_idx is Some ==> state@[name].subscriptions[id].topic_update_idx->Some_0
                < state@[name].ledger.len(),
{
    state.lemma_topics_wf();
    assert forall|name: Seq<char>, id: Seq<char>|
        #![trigger state@[name].subscriptions[id]]
        state@.contains_key(name) && state@[name].subscriptions.contains_key(id)
            && state@[name].subscriptions[id].topic_update_idx is Some implies state@[name].subscriptions[id].topic_update_idx->Some_0
            < state@[name].ledger.len() by {
        assert(state@[name].wf());
        assert(state@[name].subscriptions.contains_key(id));
    }
}

/// A subscriber that joins a topic holding `n` updates is owed none of
/// them: it is caught up, and the next update published is the first one
/// it is pointed at.
pub proof fn lemma_backlog_isolation(
    d: Map<Seq<char>, TopicModel>,
    topic: Topic,
    ip: Seq<char>,
    content: Seq<char>,
)
    requires
        d.contains_key(topic@) ==> d[topic@].wf(),
        subscribe_outcome(d, topic, ip).1 is Ok,
    ensures
        ({
            let n = with_topic(d, topic@)[topic@].ledger.len();
            let joined = subscribe_outcome(d, topic, ip).0;
            let published = put_outcome(joined, topic, content).0;
            &&& joined[topic@].subscriptions[ip].topic_update_idx is None
            &&& published[topic@].subscriptions[ip].topic_update_idx == Some(n as usize)
            &&& published[topic@].ledger.len() == n + 1
            &&& published[topic@].ledger[n as int].content == content
        }),
{
}

/// A subscriber that leaves with its cursor at `k` gives up exactly one
/// acknowledgment on every update from `k` on; the leading updates whose
/// count thereby reaches zero are collected, and the head left is owed.
pub proof fn lemma_unsubscribe_releases(t: TopicModel, id: Seq<char>)
    requires
        t.wf(),
        t.subscriptions.contains_key(id),
        t.subscriptions[id].topic_update_idx is Some,
    ensures
        ({
            let k = t.subscriptions[id].topic_update_idx->Some_0 as int;
            let r = t.unsubscribe(id);
            let c = settled_prefix(released_from(t.ledger, k)) as int;
            &&& r.ledger.len() + c == t.ledger.len()
            &&& forall|j: int|
                0 <= j < r.ledger.len() ==> (#[trigger] r.ledger[j]).pending == t.ledger[j
                    + c].pending - (if j + c >= k {
                    1int
                } else {
                    0int
                }) && r.ledger[j].content == t.ledger[j + c].content
            &&& forall|j: int|
                0 <= j < c ==> (#[trigger] t.ledger[j]).pending == (if j >= k {
                    1int
                } else {
                    0int
                })
            &&& r.ledger.len() == 0 || r.ledger[0].pending > 0
        }),
{
    let k = t.subscriptions[id].topic_update_idx->Some_0 as int;
    let rel = t.release(id, k);
    lemma_release_wf(t, id);
    lemma_cursor_owed(t, id);
    lemma_collect_wf(rel);
    lemma_settled_prefix_bound(rel.ledger);
    let c = settled_prefix(rel.ledger) as int;
    assert forall|j: int| 0 <= j < c implies (#[trigger] t.ledger[j]).pending == (if j >= k {
        1int
    } else {
        0int
    }) by {
        assert(rel.ledger[j].pending == 0);
    }
    assert forall|j: int| 0 <= j < t.unsubscribe(id).ledger.len() implies (
    #[trigger] t.unsubscribe(id).ledger[j]).pending == t.ledger[j + c].pending - (if j + c >= k {
        1int
    } else {
        0int
    }) && t.unsubscribe(id).ledger[j].content == t.ledger[j + c].content by {
        assert(t.unsubscribe(id).ledger[j] == rel.ledger[j + c]);
    }
}

} // verus!
