//! Topics: each holds an update ledger and a subscription registry, kept in
//! step by the acknowledgment protocol.
use vstd::prelude::*;
use crate::keyed::{
    find_key, keys_unique, lemma_to_map_at, lemma_to_map_finite, lemma_to_map_push,
    lemma_to_map_remove, lemma_to_map_update, lemma_to_map_values, to_map,
};
use crate::model::{
    assigned, count_covering, cursor_valid, fresh_subscription, lemma_acknowledge_wf,
    lemma_advance_wf, lemma_count_covering, lemma_cursor_owed, lemma_pop_head_wf,
    lemma_publish_wf, lemma_release_wf, lemma_subscribe_wf, lemma_unsubscribe_wf, owing,
    released_from, shifted, SubscriptionInfo, TopicModel, UpdateModel,
};
use crate::protocol::{SequenceNum, ServiceError, Topic};

verus! {

/// A published update and the number of subscribers still owing an
/// acknowledgment for it.
pub struct Update {
    content: String,
    pending_updates: usize,
}

impl View for Update {
    type V = UpdateModel;

    closed spec fn view(&self) -> UpdateModel {
        UpdateModel { content: self.content@, pending: self.pending_updates as nat }
    }
}

/// One topic: the ledger of updates and the subscriptions to it.
pub struct TopicInfo {
    subscriptions: Vec<(String, SubscriptionInfo)>,
    update_queue: Vec<Update>,
}

impl View for TopicInfo {
    type V = TopicModel;

    closed spec fn view(&self) -> TopicModel {
        TopicModel { ledger: self.ledger_view(), subscriptions: to_map(self.sub_entries()) }
    }
}

impl TopicInfo {
    closed spec fn sub_entries(&self) -> Seq<(Seq<char>, SubscriptionInfo)> {
        self.subscriptions@.map_values(|e: (String, SubscriptionInfo)| (e.0@, e.1))
    }

    closed spec fn ledger_view(&self) -> Seq<UpdateModel> {
        self.update_queue@.map_values(|u: Update| u@)
    }

    /// No subscriber is registered twice.
    pub closed spec fn keys_ok(&self) -> bool {
        keys_unique(self.sub_entries())
    }

    /// The registry is sound and the topic keeps the ledger invariant.
    pub open spec fn wf(&self) -> bool {
        self.keys_ok() && self@.wf()
    }

    pub fn new() -> (r: Self)
        ensures
            r.wf(),
            r@ == TopicModel::empty(),
    {
        let r = TopicInfo { subscriptions: Vec::new(), update_queue: Vec::new() };
        assert(r.sub_entries() =~= Seq::empty());
        assert(r@.subscriptions =~= Map::empty());
        assert(r@.ledger =~= Seq::empty());
        r
    }

    /// Drops the subscription of `ip`, if any, and nothing else.
    pub fn remove_subscription_info(&mut self, ip: &String)
        requires
            old(self).keys_ok(),
        ensures
            final(self).keys_ok(),
            final(self)@ == (TopicModel {
                ledger: old(self)@.ledger,
                subscriptions: old(self)@.subscriptions.remove(ip@),
            }),
    {
        match find_key(&self.subscriptions, ip) {
            Some(i) => {
                let ghost before = self.sub_entries();
                self.subscriptions.remove(i);
                proof {
                    lemma_to_map_remove(before, i as int);
                    assert(self.sub_entries() =~= before.remove(i as int));
                }
            },
            None => {
                proof {
                    assert forall|k: Seq<char>| #[trigger]
                        to_map(self.sub_entries()).contains_key(k) implies k != ip@ by {
                        let c = choose|c: int|
                            0 <= c < self.sub_entries().len() && #[trigger] self.sub_entries()[c].0
                                == k;
                        assert(self.subscriptions@[c].0@ == k);
                    }
                    assert(self@.subscriptions =~= self@.subscriptions.remove(ip@));
                }
            },
        }
    }

    /// Where `ip` stands in the registry, if it is subscribed.
    fn subscriber_pos(&self, ip: &String) -> (r: Option<usize>)
        requires
            self.keys_ok(),
        ensures
            match r {
                Some(p) => {
                    &&& p < self.subscriptions@.len()
                    &&& self.subscriptions@[p as int].0@ == ip@
                    &&& self@.subscriptions.contains_key(ip@)
                },
                None => !self@.subscriptions.contains_key(ip@),
            },
    {
        let r = find_key(&self.subscriptions, ip);
        proof {
            match r {
                Some(p) => {
                    lemma_to_map_at(self.sub_entries(), p as int);
                },
                None => {
                    if self@.subscriptions.contains_key(ip@) {
                        let c = choose|c: int|
                            0 <= c < self.sub_entries().len() && #[trigger] self.sub_entries()[c].0
                                == ip@;
                        assert(self.subscriptions@[c].0@ == ip@);
                    }
                },
            }
        }
        r
    }

    /// Registers `ip`, owing nothing yet.
    fn join(&mut self, ip: &String)
        requires
            old(self).wf(),
            !old(self)@.subscriptions.contains_key(ip@),
        ensures
            final(self).wf(),
            final(self)@ == old(self)@.subscribe(ip@),
    {
        let ghost t0 = self@;
        let ghost before = self.sub_entries();
        self.subscriptions.push((ip.clone(), fresh_subscription_info()));
        proof {
            lemma_to_map_push(before, ip@, fresh_subscription());
            assert(self.sub_entries() =~= before.push((ip@, fresh_subscription())));
            lemma_subscribe_wf(t0, ip@);
        }
    }

    /// Replaces the subscription at position `pos` of the registry.
    fn set_subscription(&mut self, pos: usize, s: SubscriptionInfo)
        requires
            old(self).keys_ok(),
            pos < old(self).subscriptions@.len(),
        ensures
            final(self).keys_ok(),
            final(self).subscriptions@.len() == old(self).subscriptions@.len(),
            forall|i: int|
                0 <= i < old(self).subscriptions@.len() ==> (#[trigger] final(self).subscriptions@[i]).0 == old(self).subscriptions@[i].0,
            final(self)@ == (TopicModel {
                ledger: old(self)@.ledger,
                subscriptions: old(self)@.subscriptions.insert(
                    old(self).subscriptions@[pos as int].0@,
                    s,
                ),
            }),
    {
        let ghost before = self.sub_entries();
        let key = self.subscriptions[pos].0.clone();
        self.subscriptions.set(pos, (key, s));
        proof {
            lemma_to_map_update(before, pos as int, s);
            assert(self.sub_entries() =~= before.update(pos as int, (before[pos as int].0, s)));
        }
    }

    /// Sets how many subscribers owe the update at `idx`.
    fn set_pending(&mut self, idx: usize, p: usize)
        requires
            idx < old(self).update_queue@.len(),
        ensures
            final(self).subscriptions == old(self).subscriptions,
            final(self)@ == (TopicModel {
                ledger: old(self)@.ledger.update(
                    idx as int,
                    UpdateModel { content: old(self)@.ledger[idx as int].content, pending: p as nat },
                ),
                subscriptions: old(self)@.subscriptions,
            }),
    {
        let ghost before = self.ledger_view();
        let mut u = Update { content: String::new(), pending_updates: 0 };
        self.update_queue.set_and_swap(idx, &mut u);
        u.pending_updates = p;
        self.update_queue.set_and_swap(idx, &mut u);
        proof {
            assert(self.ledger_view() =~= before.update(
                idx as int,
                UpdateModel { content: before[idx as int].content, pending: p as nat },
            ));
        }
    }

    /// Moves every cursor one slot left, after the head left the ledger.
    fn shift_cursors(&mut self)
        requires
            old(self).keys_ok(),
            forall|id: Seq<char>| #[trigger]
                old(self)@.subscriptions.contains_key(id) ==> !(old(self)@.subscriptions[id].topic_update_idx == Some(0usize)),
        ensures
            final(self).keys_ok(),
            final(self).subscriptions@.len() == old(self).subscriptions@.len(),
            forall|i: int|
                0 <= i < old(self).subscriptions@.len() ==> (#[trigger] final(self).subscriptions@[i]).0 == old(self).subscriptions@[i].0,
            final(self)@ == (TopicModel {
                ledger: old(self)@.ledger,
                subscriptions: old(self)@.subscriptions.map_values(
                    |s: SubscriptionInfo| shifted(s),
                ),
            }),
    {
        let ghost before = self.sub_entries();
        let ghost old_subs = self.subscriptions@;
        assert(to_map(before) == self@.subscriptions);
        let mut i: usize = 0;
        while i < self.subscriptions.len()
            invariant
                self.update_queue == old(self).update_queue,
                self.subscriptions@.len() == old_subs.len(),
                before == old(self).sub_entries(),
                old_subs == old(self).subscriptions@,
                keys_unique(before),
                forall|id: Seq<char>| #[trigger]
                    to_map(before).contains_key(id) ==> !(to_map(before)[id].topic_update_idx
                        == Some(0usize)),
                forall|j: int|
                    0 <= j < old_subs.len() ==> (#[trigger] self.subscriptions@[j]).0
                        == old_subs[j].0,
                forall|j: int| 0 <= j < i ==> (#[trigger] self.subscriptions@[j]).1 == shifted(old_subs[j].1),
                forall|j: int| i <= j < old_subs.len() ==> (#[trigger] self.subscriptions@[j]).1 == old_subs[j].1,
            decreases old_subs.len() - i,
        {
            let s = self.subscriptions[i].1;
            match s.topic_update_idx {
                Some(k) => {
                    proof {
                        lemma_to_map_at(before, i as int);
                    }
                    let key = self.subscriptions[i].0.clone();
                    let moved = SubscriptionInfo {
                        last_recv_sequence_num: s.last_recv_sequence_num,
                        topic_update_idx: Some(k - 1),
                    };
                    self.subscriptions.set(i, (key, moved));
                },
                None => {},
            }
            i = i + 1;
        }
        proof {
            lemma_to_map_values(before, self.sub_entries(), |s: SubscriptionInfo| shifted(s));
        }
    }

    /// Points every caught-up subscription at the update at `n`.
    fn assign_idle(&mut self, n: usize)
        requires
            old(self).keys_ok(),
        ensures
            final(self).keys_ok(),
            final(self)@ == (TopicModel {
                ledger: old(self)@.ledger,
                subscriptions: old(self)@.subscriptions.map_values(
                    |s: SubscriptionInfo| assigned(s, n as nat),
                ),
            }),
    {
        let ghost before = self.sub_entries();
        let ghost old_subs = self.subscriptions@;
        let mut i: usize = 0;
        while i < self.subscriptions.len()
            invariant
                self.update_queue == old(self).update_queue,
                self.subscriptions@.len() == old_subs.len(),
                before == old(self).sub_entries(),
                old_subs == old(self).subscriptions@,
                keys_unique(before),
                forall|j: int|
                    0 <= j < old_subs.len() ==> (#[trigger] self.subscriptions@[j]).0
                        == old_subs[j].0,
                forall|j: int| 0 <= j < i ==> (#[trigger] self.subscriptions@[j]).1 == assigned(old_subs[j].1, n as nat),
                forall|j: int| i <= j < old_subs.len() ==> (#[trigger] self.subscriptions@[j]).1 == old_subs[j].1,
            decreases old_subs.len() - i,
        {
            let s = self.subscriptions[i].1;
            if s.topic_update_idx.is_none() {
                let key = self.subscriptions[i].0.clone();
                let pointed = SubscriptionInfo {
                    last_recv_sequence_num: s.last_recv_sequence_num,
                    topic_update_idx: Some(n),
                };
                self.subscriptions.set(i, (key, pointed));
            }
            i = i + 1;
        }
        proof {
            lemma_to_map_values(before, self.sub_entries(), |s: SubscriptionInfo| assigned(s, n as nat));
        }
    }

    /// Appends an update owed by every current subscriber and points the
    /// caught-up subscribers at it.
    fn publish(&mut self, content: String)
        requires
            old(self).wf(),
        ensures
            final(self).wf(),
            final(self)@ == old(self)@.publish(content@),
    {
        let ghost t0 = self@;
        let n = topic_subscriber_num(self);
        let ghost before = self.ledger_view();
        self.update_queue.push(Update { content, pending_updates: n });
        let len = self.update_queue.len();
        assert(self.ledger_view() =~= before.push(
            UpdateModel { content: content@, pending: t0.subscriptions.dom().len() },
        ));
        associate_subscribers_to_last_update(self);
        proof {
            lemma_publish_wf(t0, content@);
        }
    }

    /// The subscriber at position `pos` presents `seq` (see `TopicModel::advance`).
    fn acknowledge(&mut self, pos: usize, seq: u128) -> (r: Option<usize>)
        requires
            old(self).wf(),
            pos < old(self).subscriptions@.len(),
        ensures
            final(self).wf(),
            (final(self)@, r) == old(self)@.advance(old(self).subscriptions@[pos as int].0@, seq),
    {
        let ghost id = self.subscriptions@[pos as int].0@;
        let ghost t0 = self@;
        proof {
            lemma_to_map_at(self.sub_entries(), pos as int);
            lemma_advance_wf(t0, id, seq);
        }
        let s = self.subscriptions[pos].1;
        let recorded = SubscriptionInfo {
            last_recv_sequence_num: Some(seq),
            topic_update_idx: s.topic_update_idx,
        };
        match s.last_recv_sequence_num {
            None => {
                self.set_subscription(pos, recorded);
                s.topic_update_idx
            },
            Some(last) => {
                if seq > 0 && seq - 1 == last {
                    match s.topic_update_idx {
                        None => {
                            self.set_subscription(pos, recorded);
                            None
                        },
                        Some(idx) => {
                            proof {
                                lemma_cursor_owed(t0, id);
                                lemma_acknowledge_wf(t0, id, seq);
                            }
                            let pending = self.update_queue[idx].pending_updates - 1;
                            self.set_pending(idx, pending);
                            let next = if idx + 1 == self.update_queue.len() {
                                None
                            } else {
                                Some(idx + 1)
                            };
                            self.set_subscription(
                                pos,
                                SubscriptionInfo {
                                    last_recv_sequence_num: Some(seq),
                                    topic_update_idx: next,
                                },
                            );
                            assert(self@ == t0.acknowledge(id, seq, idx));
                            if idx == 0 && pending == 0 {
                                let ghost acked = self@;
                                proof {
                                    lemma_pop_head_wf(acked);
                                }
                                self.update_queue.remove(0);
                                assert(self.ledger_view() =~= acked.ledger.drop_first());
                                self.shift_cursors();
                                assert(self@ == acked.pop_head());
                                proof {
                                    lemma_to_map_at(self.sub_entries(), pos as int);
                                }
                                self.subscriptions[pos].1.topic_update_idx
                            } else {
                                next
                            }
                        },
                    }
                } else {
                    s.topic_update_idx
                }
            },
        }
    }

    /// The subscriber at position `pos` leaves (see `TopicModel::unsubscribe`).
    fn leave(&mut self, pos: usize)
        requires
            old(self).wf(),
            pos < old(self).subscriptions@.len(),
        ensures
            final(self).wf(),
            final(self)@ == old(self)@.unsubscribe(old(self).subscriptions@[pos as int].0@),
    {
        let ghost id = self.subscriptions@[pos as int].0@;
        let ghost t0 = self@;
        proof {
            lemma_to_map_at(self.sub_entries(), pos as int);
        }
        let cursor = self.subscriptions[pos].1.topic_update_idx;
        let key = self.subscriptions[pos].0.clone();
        self.remove_subscription_info(&key);
        match cursor {
            None => {
                proof {
                    lemma_unsubscribe_wf(t0, id);
                }
            },
            Some(k) => {
                proof {
                    lemma_cursor_owed(t0, id);
                    lemma_release_wf(t0, id);
                }
                let ghost removed = self.subscriptions;
                let mut i: usize = k;
                while i < self.update_queue.len()
                    invariant
                        k <= i <= t0.ledger.len(),
                        self.subscriptions == removed,
                        self.keys_ok(),
                        self@.subscriptions == t0.subscriptions.remove(id),
                        self@.ledger.len() == t0.ledger.len(),
                        forall|j: int|
                            0 <= j < t0.ledger.len() ==> (#[trigger] self@.ledger[j]) == (if k <= j
                                < i {
                                released_from(t0.ledger, k as int)[j]
                            } else {
                                t0.ledger[j]
                            }),
                        forall|j: int|
                            k <= j < t0.ledger.len() ==> (#[trigger] t0.ledger[j]).pending >= 1,
                    decreases t0.ledger.len() - i,
                {
                    assert(self@.ledger[i as int] == t0.ledger[i as int]);
                    assert(self.ledger_view()[i as int] == self.update_queue@[i as int]@);
                    let p = self.update_queue[i].pending_updates - 1;
                    self.set_pending(i, p);
                    i = i + 1;
                }
                assert(self@.ledger =~= released_from(t0.ledger, k as int));
                assert(self@ == t0.release(id, k as int));
                remove_nonpending_updates(self);
            },
        }
    }
}

fn fresh_subscription_info() -> (r: SubscriptionInfo)
    ensures
        r == fresh_subscription(),
{
    SubscriptionInfo { last_recv_sequence_num: None, topic_update_idx: None }
}

/// How many subscribers the topic has.
fn topic_subscriber_num(topic_info: &TopicInfo) -> (r: usize)
    requires
        topic_info.wf(),
    ensures
        r == topic_info@.subscriptions.dom().len(),
{
    proof {
        lemma_to_map_finite(topic_info.sub_entries());
    }
    topic_info.subscriptions.len()
}

/// Removes head updates that nobody owes, moving the cursors along.
fn remove_nonpending_updates(topic_info: &mut TopicInfo)
    requires
        old(topic_info).wf(),
    ensures
        final(topic_info).wf(),
        final(topic_info)@ == old(topic_info)@.collect(),
{
    while topic_info.update_queue.len() > 0 && topic_info.update_queue[0].pending_updates == 0
        invariant
            topic_info.wf(),
            topic_info@.collect() == old(topic_info)@.collect(),
        decreases topic_info.update_queue@.len(),
    {
        let ghost before = topic_info@;
        assert(before.ledger[0].pending == 0);
        proof {
            lemma_pop_head_wf(before);
        }
        topic_info.update_queue.remove(0);
        assert(topic_info.ledger_view() =~= before.ledger.drop_first());
        topic_info.shift_cursors();
        assert(topic_info@ == before.pop_head());
    }
}

/// The index of the newest update, if any.
fn latest_update_idx_in_topic(topic_info: &TopicInfo) -> (r: Option<usize>)
    ensures
        r == (if topic_info@.ledger.len() == 0 {
            None
        } else {
            Some((topic_info@.ledger.len() - 1) as usize)
        }),
{
    let size = topic_info.update_queue.len();
    if size == 0 {
        None
    } else {
        Some(size - 1)
    }
}

/// Points every caught-up subscription at the newest update.
fn associate_subscribers_to_last_update(topic_info: &mut TopicInfo)
    requires
        old(topic_info).keys_ok(),
        old(topic_info)@.ledger.len() > 0,
    ensures
        final(topic_info).keys_ok(),
        final(topic_info)@ == (TopicModel {
            ledger: old(topic_info)@.ledger,
            subscriptions: old(topic_info)@.subscriptions.map_values(
                |s: SubscriptionInfo| assigned(s, (old(topic_info)@.ledger.len() - 1) as nat),
            ),
        }),
{
    match latest_update_idx_in_topic(topic_info) {
        Some(idx) => {
            let ghost t0 = topic_info@;
            topic_info.assign_idle(idx);
            assert(topic_info@.subscriptions =~= t0.subscriptions.map_values(
                |s: SubscriptionInfo| assigned(s, (t0.ledger.len() - 1) as nat),
            ));
        },
        None => {},
    }
}

/// The directory with `name` present: unchanged if it was, else with an
/// empty topic under that name.
pub open spec fn with_topic(d: Map<Seq<char>, TopicModel>, name: Seq<char>) -> Map<
    Seq<char>,
    TopicModel,
> {
    if d.contains_key(name) {
        d
    } else {
        d.insert(name, TopicModel::empty())
    }
}

/// SUB: the topic is created if needed; `ip` joins unless already there.
pub open spec fn subscribe_outcome(d: Map<Seq<char>, TopicModel>, topic: Topic, ip: Seq<char>) -> (
    Map<Seq<char>, TopicModel>,
    Result<(), ServiceError>,
) {
    let d1 = with_topic(d, topic@);
    if d1[topic@].subscriptions.contains_key(ip) {
        (d1, Err(ServiceError::ALREASUB(topic)))
    } else {
        (d1.insert(topic@, d1[topic@].subscribe(ip)), Ok(()))
    }
}

/// UNSUB: `ip` leaves an existing topic it is subscribed to.
pub open spec fn unsubscribe_outcome(d: Map<Seq<char>, TopicModel>, topic: Topic, ip: Seq<char>) -> (
    Map<Seq<char>, TopicModel>,
    Result<(), ServiceError>,
) {
    if !d.contains_key(topic@) {
        (d, Err(ServiceError::NOTOPIC(topic)))
    } else if !d[topic@].subscriptions.contains_key(ip) {
        (d, Err(ServiceError::NOSUB(topic)))
    } else {
        (d.insert(topic@, d[topic@].unsubscribe(ip)), Ok(()))
    }
}

/// Publishing `content` on an existing topic.
pub open spec fn publish_outcome(d: Map<Seq<char>, TopicModel>, topic: Topic, content: Seq<char>) -> (
    Map<Seq<char>, TopicModel>,
    Result<(), ServiceError>,
) {
    if !d.contains_key(topic@) {
        (d, Err(ServiceError::NOTOPIC(topic)))
    } else {
        (d.insert(topic@, d[topic@].publish(content)), Ok(()))
    }
}

/// `ip` presents `seq` on an existing topic it is subscribed to; the index
/// of the update it is to read next.
pub open spec fn ack_outcome(
    d: Map<Seq<char>, TopicModel>,
    topic: Topic,
    ip: Seq<char>,
    seq: SequenceNum,
) -> (Map<Seq<char>, TopicModel>, Result<Option<usize>, ServiceError>) {
    if !d.contains_key(topic@) {
        (d, Err(ServiceError::NOTOPIC(topic)))
    } else if !d[topic@].subscriptions.contains_key(ip) {
        (d, Err(ServiceError::NOSUB(topic)))
    } else {
        let (t, r) = d[topic@].advance(ip, seq);
        (d.insert(topic@, t), Ok(r))
    }
}

/// GET: like `ack_outcome`, handing back the content of the update to read
/// next, if any, with `seq` echoed.
pub open spec fn next_update_outcome(
    d: Map<Seq<char>, TopicModel>,
    topic: Topic,
    ip: Seq<char>,
    seq: SequenceNum,
) -> (Map<Seq<char>, TopicModel>, Result<(Option<Seq<char>>, SequenceNum), ServiceError>) {
    let (d1, r) = ack_outcome(d, topic, ip, seq);
    (
        d1,
        match r {
            Ok(Some(idx)) => Ok((Some(d1[topic@].ledger[idx as int].content), seq)),
            Ok(None) => Ok((None, seq)),
            Err(e) => Err(e),
        },
    )
}

/// A delivery seen through views.
pub open spec fn delivery_view(r: Result<(Option<String>, SequenceNum), ServiceError>) -> Result<
    (Option<Seq<char>>, SequenceNum),
    ServiceError,
> {
    match r {
        Ok((Some(c), s)) => Ok((Some(c@), s)),
        Ok((None, s)) => Ok((None, s)),
        Err(e) => Err(e),
    }
}

/// Every topic, by name.
pub struct TopicsState {
    topics: Vec<(String, TopicInfo)>,
}

impl View for TopicsState {
    type V = Map<Seq<char>, TopicModel>;

    closed spec fn view(&self) -> Map<Seq<char>, TopicModel> {
        to_map(self.entries())
    }
}

impl TopicsState {
    closed spec fn entries(&self) -> Seq<(Seq<char>, TopicModel)> {
        self.topics@.map_values(|e: (String, TopicInfo)| (e.0@, e.1@))
    }

    /// Topic names are unique and every topic keeps its invariant.
    pub closed spec fn wf(&self) -> bool {
        &&& keys_unique(self.entries())
        &&& forall|i: int| 0 <= i < self.topics@.len() ==> (#[trigger] self.topics@[i]).1.wf()
    }

    pub fn new() -> (r: Self)
        ensures
            r.wf(),
            r@ == Map::<Seq<char>, TopicModel>::empty(),
    {
        let r = TopicsState { topics: Vec::new() };
        assert(r.entries() =~= Seq::empty());
        assert(r@ =~= Map::empty());
        r
    }

    /// Every topic of a sound directory keeps the ledger invariant.
    pub proof fn lemma_topics_wf(&self)
        requires
            self.wf(),
        ensures
            self@.dom().finite(),
            forall|k: Seq<char>| #[trigger] self@.contains_key(k) ==> self@[k].wf(),
    {
        lemma_to_map_finite(self.entries());
        assert forall|k: Seq<char>| #[trigger] self@.contains_key(k) implies self@[k].wf() by {
            let c = choose|c: int| 0 <= c < self.entries().len() && #[trigger] self.entries()[c].0 == k;
            lemma_to_map_at(self.entries(), c);
            assert(self.topics@[c].1.wf());
        }
    }

    /// Where the topic `name` stands, if it exists.
    fn position(&self, name: &String) -> (r: Option<usize>)
        requires
            self.wf(),
        ensures
            match r {
                Some(i) => {
                    &&& i < self.topics@.len()
                    &&& self.topics@[i as int].0@ == name@
                    &&& self@.contains_key(name@)
                    &&& self@[name@] == self.topics@[i as int].1@
                },
                None => !self@.contains_key(name@),
            },
    {
        let r = find_key(&self.topics, name);
        proof {
            match r {
                Some(i) => {
                    lemma_to_map_at(self.entries(), i as int);
                },
                None => {
                    if self@.contains_key(name@) {
                        let c = choose|c: int|
                            0 <= c < self.entries().len() && #[trigger] self.entries()[c].0 == name@;
                        assert(self.topics@[c].0@ == name@);
                    }
                },
            }
        }
        r
    }

    /// Takes the topic at position `i` out, leaving a placeholder.
    fn take_topic(&mut self, i: usize) -> (r: (String, TopicInfo))
        requires
            i < old(self).topics@.len(),
        ensures
            r == old(self).topics@[i as int],
            final(self).topics@.len() == old(self).topics@.len(),
            forall|j: int|
                0 <= j < old(self).topics@.len() && j != i ==> #[trigger] final(self).topics@[j]
                    == old(self).topics@[j],
    {
        let mut entry = (String::new(), TopicInfo::new());
        self.topics.set_and_swap(i, &mut entry);
        entry
    }

    /// Puts a topic back where `take_topic` took it from `prev`.
    fn put_topic(&mut self, i: usize, entry: (String, TopicInfo), Ghost(prev): Ghost<TopicsState>)
        requires
            prev.wf(),
            i < prev.topics@.len(),
            old(self).topics@.len() == prev.topics@.len(),
            forall|j: int|
                0 <= j < prev.topics@.len() && j != i ==> #[trigger] old(self).topics@[j]
                    == prev.topics@[j],
            entry.0 == prev.topics@[i as int].0,
            entry.1.wf(),
        ensures
            final(self).wf(),
            final(self)@ == prev@.insert(entry.0@, entry.1@),
    {
        let mut e = entry;
        self.topics.set_and_swap(i, &mut e);
        proof {
            assert(self.topics@ =~= prev.topics@.update(i as int, entry));
            lemma_to_map_update(prev.entries(), i as int, entry.1@);
            assert(self.entries() =~= prev.entries().update(
                i as int,
                (prev.entries()[i as int].0, entry.1@),
            ));
            assert forall|j: int| 0 <= j < self.topics@.len() implies (
            #[trigger] self.topics@[j]).1.wf() by {
                if j != i {
                    assert(prev.topics@[j].1.wf());
                }
            }
        }
    }

    /// Whether the topic `topic` exists.
    pub fn has_topic(&self, topic: &Topic) -> (r: bool)
        requires
            self.wf(),
        ensures
            r == self@.contains_key(topic@),
    {
        self.position(topic).is_some()
    }

    /// How many updates the ledger of `topic` holds, if the topic exists.
    pub fn ledger_len(&self, topic: &Topic) -> (r: Option<usize>)
        requires
            self.wf(),
        ensures
            r == (if self@.contains_key(topic@) {
                Some(self@[topic@].ledger.len() as usize)
            } else {
                None
            }),
    {
        match self.position(topic) {
            Some(i) => Some(self.topics[i].1.update_queue.len()),
            None => None,
        }
    }

    /// The content and the count of the update at `idx` of `topic`, if any.
    pub fn update_at(&self, topic: &Topic, idx: usize) -> (r: Option<(String, usize)>)
        requires
            self.wf(),
        ensures
            match r {
                Some((c, p)) => {
                    &&& self@.contains_key(topic@)
                    &&& idx < self@[topic@].ledger.len()
                    &&& c@ == self@[topic@].ledger[idx as int].content
                    &&& p == self@[topic@].ledger[idx as int].pending
                },
                None => !self@.contains_key(topic@) || idx >= self@[topic@].ledger.len(),
            },
    {
        match self.position(topic) {
            Some(i) => {
                if idx < self.topics[i].1.update_queue.len() {
                    let u = &self.topics[i].1.update_queue[idx];
                    Some((u.content.clone(), u.pending_updates))
                } else {
                    None
                }
            },
            None => None,
        }
    }

    /// The subscription of `ip` to `topic`, if any.
    pub fn subscription(&self, topic: &Topic, ip: &String) -> (r: Option<SubscriptionInfo>)
        requires
            self.wf(),
        ensures
            r == (if self@.contains_key(topic@) && self@[topic@].subscriptions.contains_key(ip@) {
                Some(self@[topic@].subscriptions[ip@])
            } else {
                None
            }),
    {
        match self.position(topic) {
            Some(i) => {
                let info = &self.topics[i].1;
                assert(info.wf());
                match info.subscriber_pos(ip) {
                    Some(p) => {
                        proof {
                            lemma_to_map_at(info.sub_entries(), p as int);
                        }
                        Some(info.subscriptions[p].1)
                    },
                    None => None,
                }
            },
            None => None,
        }
    }

    /// The content of the update at `idx` of topic `i`.
    fn content_at(&self, i: usize, idx: usize) -> (r: String)
        requires
            i < self.topics@.len(),
            idx < self.topics@[i as int].1@.ledger.len(),
        ensures
            r@ == self.topics@[i as int].1@.ledger[idx as int].content,
    {
        self.topics[i].1.update_queue[idx].content.clone()
    }
}

/// Creates the topic `topic` unless it exists.
pub fn add_topic(state: &mut TopicsState, topic: &Topic)
    requires
        old(state).wf(),
    ensures
        final(state).wf(),
        final(state)@ == with_topic(old(state)@, topic@),
{
    match state.position(topic) {
        Some(_) => {},
        None => {
            let ghost before = state.entries();
            let ghost prev = state.topics@;
            let info = TopicInfo::new();
            state.topics.push((topic.clone(), info));
            proof {
                lemma_to_map_push(before, topic@, TopicModel::empty());
                assert(state.entries() =~= before.push((topic@, TopicModel::empty())));
                assert forall|j: int| 0 <= j < state.topics@.len() implies (
                #[trigger] state.topics@[j]).1.wf() by {
                    if j < prev.len() {
                        assert(state.topics@[j] == prev[j]);
                    }
                }
            }
        },
    }
}

/// SUB: subscribes `ip` to `topic`, creating the topic if needed.
pub fn add_subscription(state: &mut TopicsState, topic: &Topic, ip: &String) -> (r: Result<
    (),
    ServiceError,
>)
    requires
        old(state).wf(),
    ensures
        final(state).wf(),
        (final(state)@, r) == subscribe_outcome(old(state)@, *topic, ip@),
{
    add_topic(state, topic);
    let i = match state.position(topic) {
        Some(i) => i,
        None => {
            // not reached: add_topic has just made sure the topic exists
            return Err(ServiceError::NOTOPIC(topic.clone()));
        },
    };
    if state.topics[i].1.subscriber_pos(ip).is_some() {
        return Err(ServiceError::ALREASUB(topic.clone()));
    }
    let ghost prev = *state;
    let mut entry = state.take_topic(i);
    entry.1.join(ip);
    state.put_topic(i, entry, Ghost(prev));
    Ok(())
}

/// UNSUB: removes the subscription of `ip` to `topic`, giving up what it
/// still owed and collecting the head of the ledger.
pub fn remove_subscription(state: &mut TopicsState, topic: &Topic, ip: &String) -> (r: Result<
    (),
    ServiceError,
>)
    requires
        old(state).wf(),
    ensures
        final(state).wf(),
        (final(state)@, r) == unsubscribe_outcome(old(state)@, *topic, ip@),
{
    let i = match state.position(topic) {
        Some(i) => i,
        None => {
            return Err(ServiceError::NOTOPIC(topic.clone()));
        },
    };
    let p = match state.topics[i].1.subscriber_pos(ip) {
        Some(p) => p,
        None => {
            return Err(ServiceError::NOSUB(topic.clone()));
        },
    };
    let ghost prev = *state;
    let mut entry = state.take_topic(i);
    entry.1.leave(p);
    state.put_topic(i, entry, Ghost(prev));
    Ok(())
}

/// PUT: appends `content` to the ledger of an existing topic.
pub fn add_update(state: &mut TopicsState, topic: &Topic, content: &String) -> (r: Result<
    (),
    ServiceError,
>)
    requires
        old(state).wf(),
    ensures
        final(state).wf(),
        (final(state)@, r) == publish_outcome(old(state)@, *topic, content@),
{
    let i = match state.position(topic) {
        Some(i) => i,
        None => {
            return Err(ServiceError::NOTOPIC(topic.clone()));
        },
    };
    let ghost prev = *state;
    let mut entry = state.take_topic(i);
    entry.1.publish(content.clone());
    state.put_topic(i, entry, Ghost(prev));
    Ok(())
}

/// The acknowledgment protocol: `ip` presents `sequence_num` on `topic`.
/// The first contact only records it; the successor of the last recorded
/// number acknowledges the update at the cursor; any other number changes
/// nothing. Returns the index of the update `ip` is to read next.
pub fn update_subscriber_update_ack(
    state: &mut TopicsState,
    topic: &Topic,
    ip: &String,
    sequence_num: SequenceNum,
) -> (r: Result<Option<usize>, ServiceError>)
    requires
        old(state).wf(),
    ensures
        final(state).wf(),
        (final(state)@, r) == ack_outcome(old(state)@, *topic, ip@, sequence_num),
{
    let i = match state.position(topic) {
        Some(i) => i,
        None => {
            return Err(ServiceError::NOTOPIC(topic.clone()));
        },
    };
    let p = match state.topics[i].1.subscriber_pos(ip) {
        Some(p) => p,
        None => {
            return Err(ServiceError::NOSUB(topic.clone()));
        },
    };
    let ghost prev = *state;
    let mut entry = state.take_topic(i);
    let r = entry.1.acknowledge(p, sequence_num);
    state.put_topic(i, entry, Ghost(prev));
    Ok(r)
}

/// GET: acknowledges as `update_subscriber_update_ack` does, then hands back
/// the content of the update to read next, if any, and echoes the sequence
/// number.
pub fn get_next_subscriber_update(
    state: &mut TopicsState,
    topic: &Topic,
    ip: &String,
    sequence_num: SequenceNum,
) -> (r: Result<(Option<String>, SequenceNum), ServiceError>)
    requires
        old(state).wf(),
    ensures
        final(state).wf(),
        final(state)@ == next_update_outcome(old(state)@, *topic, ip@, sequence_num).0,
        delivery_view(r) == next_update_outcome(old(state)@, *topic, ip@, sequence_num).1,
{
    let ghost d0 = state@;
    proof {
        state.lemma_topics_wf();
        if d0.contains_key(topic@) && d0[topic@].subscriptions.contains_key(ip@) {
            lemma_advance_wf(d0[topic@], ip@, sequence_num);
        }
    }
    match update_subscriber_update_ack(state, topic, ip, sequence_num) {
        Ok(Some(idx)) => {
            let i = match state.position(topic) {
                Some(i) => i,
                None => {
                    // not reached: the acknowledgment succeeded on this topic
                    return Ok((None, sequence_num));
                },
            };
            let content = state.content_at(i, idx);
            Ok((Some(content), sequence_num))
        },
        Ok(None) => Ok((None, sequence_num)),
        Err(e) => Err(e),
    }
}

/// A topic as plain values, for keeping it outside the process.
pub struct TopicSnapshot {
    pub name: String,
    /// Each update's content and count, head first.
    pub updates: Vec<(String, usize)>,
    pub subscriptions: Vec<(String, SubscriptionInfo)>,
}

impl TopicSnapshot {
    pub open spec fn sub_entries(&self) -> Seq<(Seq<char>, SubscriptionInfo)> {
        self.subscriptions@.map_values(|e: (String, SubscriptionInfo)| (e.0@, e.1))
    }

    /// The topic the snapshot describes.
    pub open spec fn model(&self) -> TopicModel {
        TopicModel {
            ledger: self.updates@.map_values(
                |u: (String, usize)| UpdateModel { content: u.0@, pending: u.1 as nat },
            ),
            subscriptions: to_map(self.sub_entries()),
        }
    }

    /// No subscriber twice, and the described topic keeps the invariant.
    pub open spec fn valid(&self) -> bool {
        keys_unique(self.sub_entries()) && self.model().wf()
    }
}

/// Names and topics of a list of snapshots.
pub open spec fn snapshot_entries(snaps: Seq<TopicSnapshot>) -> Seq<(Seq<char>, TopicModel)> {
    snaps.map_values(|s: TopicSnapshot| (s.name@, s.model()))
}

/// No name twice, and every snapshot valid.
pub open spec fn snapshots_valid(snaps: Seq<TopicSnapshot>) -> bool {
    &&& keys_unique(snapshot_entries(snaps))
    &&& forall|i: int| 0 <= i < snaps.len() ==> (#[trigger] snaps[i]).valid()
}

/// The directory a list of snapshots describes.
pub open spec fn snapshots_model(snaps: Seq<TopicSnapshot>) -> Map<Seq<char>, TopicModel> {
    to_map(snapshot_entries(snaps))
}

impl TopicInfo {
    /// The topic as plain values.
    fn snapshot(&self, name: String) -> (r: TopicSnapshot)
        requires
            self.wf(),
        ensures
            r.name == name,
            r.valid(),
            r.model() == self@,
    {
        let mut updates: Vec<(String, usize)> = Vec::new();
        let mut i: usize = 0;
        while i < self.update_queue.len()
            invariant
                i <= self.update_queue@.len(),
                updates@.len() == i,
                forall|j: int|
                    0 <= j < i ==> (#[trigger] updates@[j]).0@ == self.update_queue@[j].content@
                        && updates@[j].1 == self.update_queue@[j].pending_updates,
            decreases self.update_queue@.len() - i,
        {
            let u = &self.update_queue[i];
            updates.push((u.content.clone(), u.pending_updates));
            i = i + 1;
        }
        let mut subscriptions: Vec<(String, SubscriptionInfo)> = Vec::new();
        let mut k: usize = 0;
        while k < self.subscriptions.len()
            invariant
                k <= self.subscriptions@.len(),
                subscriptions@.len() == k,
                forall|j: int|
                    0 <= j < k ==> (#[trigger] subscriptions@[j]).0@ == self.subscriptions@[j].0@
                        && subscriptions@[j].1 == self.subscriptions@[j].1,
            decreases self.subscriptions@.len() - k,
        {
            let e = &self.subscriptions[k];
            subscriptions.push((e.0.clone(), e.1));
            k = k + 1;
        }
        let r = TopicSnapshot { name, updates, subscriptions };
        assert(r.sub_entries() =~= self.sub_entries());
        assert(r.model().ledger =~= self@.ledger);
        r
    }

    /// The topic a snapshot describes, if the snapshot is valid.
    fn restore(snap: &TopicSnapshot) -> (r: Option<TopicInfo>)
        ensures
            r is Some <==> snap.valid(),
            r matches Some(t) ==> t.wf() && t@ == snap.model(),
    {
        let n = snap.updates.len();
        let ghost want = snap.sub_entries();
        let mut subscriptions: Vec<(String, SubscriptionInfo)> = Vec::new();
        let mut k: usize = 0;
        while k < snap.subscriptions.len()
            invariant
                k <= snap.subscriptions@.len(),
                n == snap.updates@.len(),
                want == snap.sub_entries(),
                subscriptions@.len() == k,
                forall|j: int|
                    0 <= j < k ==> (#[trigger] subscriptions@[j]).0@ == want[j].0
                        && subscriptions@[j].1 == want[j].1,
                keys_unique(want.take(k as int)),
                forall|j: int| 0 <= j < k ==> cursor_valid((#[trigger] want[j]).1, n as nat),
            decreases snap.subscriptions@.len() - k,
        {
            let e = &snap.subscriptions[k];
            assert(want[k as int] == (e.0@, e.1));
            if let Some(p) = find_key(&subscriptions, &e.0) {
                assert(want[p as int].0 == want[k as int].0);
                assert(!keys_unique(want));
                return None;
            }
            match e.1.topic_update_idx {
                Some(c) => {
                    if c >= n {
                        proof {
                            if keys_unique(want) {
                                lemma_to_map_at(want, k as int);
                                assert(!cursor_valid(snap.model().subscriptions[want[k as int].0], n as nat));
                            }
                        }
                        return None;
                    }
                },
                None => {},
            }
            subscriptions.push((e.0.clone(), e.1));
            proof {
                assert forall|a: int, b: int|
                    0 <= a < k + 1 && 0 <= b < k + 1 && #[trigger] want.take(k as int + 1)[a].0
                        == #[trigger] want.take(k as int + 1)[b].0 implies a == b by {
                    if a < k && b < k {
                        assert(want.take(k as int)[a] == want[a]);
                        assert(want.take(k as int)[b] == want[b]);
                    } else if a < k {
                        assert(subscriptions@[a].0@ == want[a].0);
                    } else if b < k {
                        assert(subscriptions@[b].0@ == want[b].0);
                    }
                }
            }
            k = k + 1;
        }
        assert(want.take(k as int) =~= want);
        let ghost subs = to_map(want);
        proof {
            lemma_to_map_finite(want);
            assert forall|id: Seq<char>| #[trigger] subs.contains_key(id) implies cursor_valid(
                subs[id],
                n as nat,
            ) by {
                let c = choose|c: int| 0 <= c < want.len() && #[trigger] want[c].0 == id;
                lemma_to_map_at(want, c);
            }
        }
        let mut j: usize = 0;
        while j < n
            invariant
                j <= n,
                n == snap.updates@.len(),
                want == snap.sub_entries(),
                subs == to_map(want),
                keys_unique(want),
                forall|i: int| 0 <= i < j ==> (#[trigger] snap.updates@[i]).1 == owing(subs, i).len(),
            decreases n - j,
        {
            let mut count: usize = 0;
            let mut k: usize = 0;
            while k < snap.subscriptions.len()
                invariant
                    k <= snap.subscriptions@.len(),
                    want == snap.sub_entries(),
                    count == count_covering(want.take(k as int), j as int),
                    count <= k,
                decreases snap.subscriptions@.len() - k,
            {
                assert(want.take(k as int + 1).drop_last() =~= want.take(k as int));
                let s = snap.subscriptions[k].1;
                assert(want[k as int].1 == s);
                match s.topic_update_idx {
                    Some(c) => {
                        if c <= j {
                            count = count + 1;
                        }
                    },
                    None => {},
                }
                k = k + 1;
            }
            assert(want.take(k as int) =~= want);
            proof {
                lemma_count_covering(want, j as int);
            }
            if count != snap.updates[j].1 {
                assert(snap.model().ledger[j as int].pending != owing(subs, j as int).len());
                return None;
            }
            j = j + 1;
        }
        let mut update_queue: Vec<Update> = Vec::new();
        let mut i: usize = 0;
        while i < n
            invariant
                i <= n,
                n == snap.updates@.len(),
                update_queue@.len() == i,
                forall|q: int|
                    0 <= q < i ==> (#[trigger] update_queue@[q]).content@ == snap.updates@[q].0@
                        && update_queue@[q].pending_updates == snap.updates@[q].1,
            decreases n - i,
        {
            let u = &snap.updates[i];
            update_queue.push(Update { content: u.0.clone(), pending_updates: u.1 });
            i = i + 1;
        }
        let t = TopicInfo { subscriptions, update_queue };
        assert(t.ledger_view() =~= snap.model().ledger);
        assert(t.sub_entries() =~= want);
        Some(t)
    }
}

impl TopicsState {
    /// Every topic as plain values.
    pub fn snapshot(&self) -> (r: Vec<TopicSnapshot>)
        requires
            self.wf(),
        ensures
            snapshots_valid(r@),
            snapshots_model(r@) == self@,
    {
        let mut r: Vec<TopicSnapshot> = Vec::new();
        let mut i: usize = 0;
        while i < self.topics.len()
            invariant
                self.wf(),
                i <= self.topics@.len(),
                r@.len() == i,
                forall|j: int|
                    0 <= j < i ==> (#[trigger] r@[j]).valid() && r@[j].name == self.topics@[j].0
                        && r@[j].model() == self.topics@[j].1@,
            decreases self.topics@.len() - i,
        {
            assert(self.topics@[i as int].1.wf());
            let name = self.topics[i].0.clone();
            let snap = self.topics[i].1.snapshot(name);
            r.push(snap);
            i = i + 1;
        }
        assert(snapshot_entries(r@) =~= self.entries());
        r
    }

    /// The directory that `snaps` describes, if the snapshots are valid.
    pub fn restore(snaps: &Vec<TopicSnapshot>) -> (r: Option<TopicsState>)
        ensures
            r is Some <==> snapshots_valid(snaps@),
            r matches Some(st) ==> st.wf() && st@ == snapshots_model(snaps@),
    {
        let ghost want = snapshot_entries(snaps@);
        let mut st = TopicsState { topics: Vec::new() };
        assert(st.entries() =~= want.take(0));
        let mut i: usize = 0;
        while i < snaps.len()
            invariant
                i <= snaps@.len(),
                want == snapshot_entries(snaps@),
                st.wf(),
                st.entries() == want.take(i as int),
                forall|j: int| 0 <= j < i ==> (#[trigger] snaps@[j]).valid(),
            decreases snaps@.len() - i,
        {
            let snap = &snaps[i];
            assert(want[i as int] == (snap.name@, snap.model()));
            if let Some(p) = st.position(&snap.name) {
                assert(st.entries()[p as int].0 == st.topics@[p as int].0@);
                assert(want.take(i as int)[p as int] == want[p as int]);
                assert(want[p as int].0 == want[i as int].0);
                assert(!keys_unique(want));
                return None;
            }
            let info = match TopicInfo::restore(snap) {
                Some(info) => info,
                None => {
                    return None;
                },
            };
            let ghost before = st.entries();
            let ghost prev = st.topics@;
            proof {
                if to_map(before).contains_key(snap.name@) {
                    let c = choose|c: int| 0 <= c < before.len() && #[trigger] before[c].0 == snap.name@;
                    assert(st.topics@[c].0@ == snap.name@);
                }
            }
            st.topics.push((snap.name.clone(), info));
            proof {
                lemma_to_map_push(before, snap.name@, snap.model());
                assert(st.entries() =~= want.take(i as int + 1));
                assert forall|j: int| 0 <= j < st.topics@.len() implies (
                #[trigger] st.topics@[j]).1.wf() by {
                    if j < prev.len() {
                        assert(st.topics@[j] == prev[j]);
                    }
                }
            }
            i = i + 1;
        }
        assert(want.take(i as int) =~= want);
        Some(st)
    }
}

} // verus!
