//! The mathematical model of a topic: its ledger of updates and its registry
//! of subscriptions, the operations on it, and the invariant they keep.
use vstd::prelude::*;
use crate::keyed::{keys_unique, lemma_to_map_finite, lemma_to_map_push, to_map};

verus! {

/// A subscriber's progress on one topic.
#[derive(Clone, Copy, Debug, PartialEq, Eq, Structural)]
pub struct SubscriptionInfo {
    /// The last sequence number acknowledged; `None` before the first contact.
    pub last_recv_sequence_num: Option<u128>,
    /// Index of the next update owed to the subscriber; `None` when caught up.
    pub topic_update_idx: Option<usize>,
}

/// An update in the ledger, as a value.
pub struct UpdateModel {
    pub content: Seq<char>,
    /// How many subscribers still owe an acknowledgment for it.
    pub pending: nat,
}

/// A topic, as a value.
pub struct TopicModel {
    pub ledger: Seq<UpdateModel>,
    pub subscriptions: Map<Seq<char>, SubscriptionInfo>,
}

/// The subscription a new subscriber starts with.
pub open spec fn fresh_subscription() -> SubscriptionInfo {
    SubscriptionInfo { last_recv_sequence_num: None, topic_update_idx: None }
}

/// The subscription still owes an acknowledgment for the update at index `j`.
pub open spec fn covers(s: SubscriptionInfo, j: int) -> bool {
    match s.topic_update_idx {
        Some(k) => k <= j,
        None => false,
    }
}

/// The subscribers that still owe an acknowledgment for the update at `j`.
pub open spec fn owing(subs: Map<Seq<char>, SubscriptionInfo>, j: int) -> Set<Seq<char>> {
    subs.dom().filter(|id: Seq<char>| covers(subs[id], j))
}

/// A cursor, if any, points into a ledger of `len` updates.
pub open spec fn cursor_valid(s: SubscriptionInfo, len: nat) -> bool {
    match s.topic_update_idx {
        Some(k) => k < len,
        None => true,
    }
}

/// The cursor moved one slot left, after the ledger lost its head.
pub open spec fn shifted(s: SubscriptionInfo) -> SubscriptionInfo {
    match s.topic_update_idx {
        Some(k) => SubscriptionInfo {
            last_recv_sequence_num: s.last_recv_sequence_num,
            topic_update_idx: Some((k - 1) as usize),
        },
        None => s,
    }
}

/// A caught-up subscription pointed at the update at index `n`.
pub open spec fn assigned(s: SubscriptionInfo, n: nat) -> SubscriptionInfo {
    match s.topic_update_idx {
        Some(_) => s,
        None => SubscriptionInfo {
            last_recv_sequence_num: s.last_recv_sequence_num,
            topic_update_idx: Some(n as usize),
        },
    }
}

/// The ledger with one acknowledgment fewer owed for every update from `k` on.
pub open spec fn released_from(ledger: Seq<UpdateModel>, k: int) -> Seq<UpdateModel> {
    Seq::new(
        ledger.len(),
        |j: int|
            if j >= k {
                UpdateModel { content: ledger[j].content, pending: (ledger[j].pending - 1) as nat }
            } else {
                ledger[j]
            },
    )
}

/// The cursor after the update at `idx` of a ledger of `len` updates.
pub open spec fn next_cursor(idx: usize, len: nat) -> Option<usize> {
    if idx + 1 == len {
        None
    } else {
        Some((idx + 1) as usize)
    }
}

/// The number of leading updates that nobody owes anything for.
pub open spec fn settled_prefix(ledger: Seq<UpdateModel>) -> nat
    decreases ledger.len(),
{
    if ledger.len() > 0 && ledger[0].pending == 0 {
        1 + settled_prefix(ledger.drop_first())
    } else {
        0
    }
}

impl TopicModel {
    pub open spec fn empty() -> TopicModel {
        TopicModel { ledger: Seq::empty(), subscriptions: Map::empty() }
    }

    /// Every cursor points into the ledger, and every update's count is the
    /// number of subscribers whose cursor is at or before it.
    pub open spec fn wf(self) -> bool {
        &&& self.subscriptions.dom().finite()
        &&& self.ledger.len() <= usize::MAX
        &&& forall|id: Seq<char>| #[trigger]
            self.subscriptions.contains_key(id) ==> cursor_valid(
                self.subscriptions[id],
                self.ledger.len(),
            )
        &&& forall|j: int|
            0 <= j < self.ledger.len() ==> (#[trigger] self.ledger[j]).pending == owing(
                self.subscriptions,
                j,
            ).len()
    }

    /// A new subscriber joins, owing nothing.
    pub open spec fn subscribe(self, id: Seq<char>) -> TopicModel {
        TopicModel {
            ledger: self.ledger,
            subscriptions: self.subscriptions.insert(id, fresh_subscription()),
        }
    }

    /// An update is appended, owed by every subscriber; caught-up subscribers
    /// are pointed at it.
    pub open spec fn publish(self, content: Seq<char>) -> TopicModel {
        TopicModel {
            ledger: self.ledger.push(
                UpdateModel { content, pending: self.subscriptions.dom().len() },
            ),
            subscriptions: self.subscriptions.map_values(
                |s: SubscriptionInfo| assigned(s, self.ledger.len()),
            ),
        }
    }

    /// The head update leaves the ledger and every cursor moves one slot left.
    pub open spec fn pop_head(self) -> TopicModel {
        TopicModel {
            ledger: self.ledger.drop_first(),
            subscriptions: self.subscriptions.map_values(|s: SubscriptionInfo| shifted(s)),
        }
    }

    /// Head updates that nobody owes are removed, one after another.
    pub open spec fn collect(self) -> TopicModel
        decreases self.ledger.len(),
    {
        if self.ledger.len() > 0 && self.ledger[0].pending == 0 {
            self.pop_head().collect()
        } else {
            self
        }
    }

    /// The subscriber `id` leaves after owing for the updates from `k` on.
    pub open spec fn release(self, id: Seq<char>, k: int) -> TopicModel {
        TopicModel {
            ledger: released_from(self.ledger, k),
            subscriptions: self.subscriptions.remove(id),
        }
    }

    /// The subscriber `id` leaves; what it still owed is given up and the
    /// head is collected.
    pub open spec fn unsubscribe(self, id: Seq<char>) -> TopicModel {
        match self.subscriptions[id].topic_update_idx {
            None => TopicModel { ledger: self.ledger, subscriptions: self.subscriptions.remove(id) },
            Some(k) => self.release(id, k as int).collect(),
        }
    }

    /// The subscriber `id`, whose cursor is at `idx`, acknowledges the update
    /// there with `seq` and moves on.
    pub open spec fn acknowledge(self, id: Seq<char>, seq: u128, idx: usize) -> TopicModel {
        TopicModel {
            ledger: self.ledger.update(
                idx as int,
                UpdateModel {
                    content: self.ledger[idx as int].content,
                    pending: (self.ledger[idx as int].pending - 1) as nat,
                },
            ),
            subscriptions: self.subscriptions.insert(
                id,
                SubscriptionInfo {
                    last_recv_sequence_num: Some(seq),
                    topic_update_idx: next_cursor(idx, self.ledger.len()),
                },
            ),
        }
    }

    /// The subscriber `id` presents `seq`: the new topic, and the index of
    /// the update it is to read next.
    pub open spec fn advance(self, id: Seq<char>, seq: u128) -> (TopicModel, Option<usize>) {
        let s = self.subscriptions[id];
        let recorded = SubscriptionInfo {
            last_recv_sequence_num: Some(seq),
            topic_update_idx: s.topic_update_idx,
        };
        match s.last_recv_sequence_num {
            None => (
                TopicModel {
                    ledger: self.ledger,
                    subscriptions: self.subscriptions.insert(id, recorded),
                },
                s.topic_update_idx,
            ),
            Some(last) => if seq == last + 1 {
                match s.topic_update_idx {
                    None => (
                        TopicModel {
                            ledger: self.ledger,
                            subscriptions: self.subscriptions.insert(id, recorded),
                        },
                        None,
                    ),
                    Some(idx) => {
                        let acked = self.acknowledge(id, seq, idx);
                        if idx == 0 && acked.ledger[0].pending == 0 {
                            let popped = acked.pop_head();
                            (popped, popped.subscriptions[id].topic_update_idx)
                        } else {
                            (acked, next_cursor(idx, self.ledger.len()))
                        }
                    },
                }
            } else {
                (self, s.topic_update_idx)
            },
        }
    }
}

pub proof fn lemma_owing_finite(subs: Map<Seq<char>, SubscriptionInfo>, j: int)
    requires
        subs.dom().finite(),
    ensures
        owing(subs, j).finite(),
{
    subs.dom().lemma_len_filter(|id: Seq<char>| covers(subs[id], j));
}

/// Joining keeps the invariant.
pub proof fn lemma_subscribe_wf(t: TopicModel, id: Seq<char>)
    requires
        t.wf(),
        !t.subscriptions.contains_key(id),
    ensures
        t.subscribe(id).wf(),
{
    let r = t.subscribe(id);
    assert forall|j: int| 0 <= j < r.ledger.len() implies (#[trigger] r.ledger[j]).pending == owing(
        r.subscriptions,
        j,
    ).len() by {
        assert(owing(r.subscriptions, j) =~= owing(t.subscriptions, j));
    }
}

/// Publishing keeps the invariant.
pub proof fn lemma_publish_wf(t: TopicModel, c: Seq<char>)
    requires
        t.wf(),
        t.ledger.len() < usize::MAX,
    ensures
        t.publish(c).wf(),
{
    let r = t.publish(c);
    let n = t.ledger.len();
    assert(r.subscriptions.dom() =~= t.subscriptions.dom());
    assert forall|j: int| 0 <= j < r.ledger.len() implies (#[trigger] r.ledger[j]).pending == owing(
        r.subscriptions,
        j,
    ).len() by {
        if j < n {
            assert(owing(r.subscriptions, j) =~= owing(t.subscriptions, j));
        } else {
            assert(owing(r.subscriptions, j) =~= t.subscriptions.dom());
        }
    }
}

/// Dropping a head that nobody owes keeps the invariant.
pub proof fn lemma_pop_head_wf(t: TopicModel)
    requires
        t.wf(),
        t.ledger.len() > 0,
        t.ledger[0].pending == 0,
    ensures
        t.pop_head().wf(),
        forall|id: Seq<char>| #[trigger]
            t.subscriptions.contains_key(id) ==> !(t.subscriptions[id].topic_update_idx
                == Some(0usize)),
{
    let r = t.pop_head();
    lemma_owing_finite(t.subscriptions, 0);
    owing(t.subscriptions, 0).lemma_len0_is_empty();
    assert forall|id: Seq<char>| #[trigger]
        t.subscriptions.contains_key(id) implies !(t.subscriptions[id].topic_update_idx == Some(
        0usize,
    )) by {
        if t.subscriptions[id].topic_update_idx == Some(0usize) {
            assert(owing(t.subscriptions, 0).contains(id));
        }
    }
    assert(r.subscriptions.dom() =~= t.subscriptions.dom());
    assert forall|j: int| 0 <= j < r.ledger.len() implies (#[trigger] r.ledger[j]).pending == owing(
        r.subscriptions,
        j,
    ).len() by {
        assert(r.ledger[j] == t.ledger[j + 1]);
        assert(owing(r.subscriptions, j) =~= owing(t.subscriptions, j + 1));
    }
}

pub proof fn lemma_settled_prefix_bound(ledger: Seq<UpdateModel>)
    ensures
        settled_prefix(ledger) <= ledger.len(),
        forall|j: int| 0 <= j < settled_prefix(ledger) ==> (#[trigger] ledger[j]).pending == 0,
    decreases ledger.len(),
{
    if ledger.len() > 0 && ledger[0].pending == 0 {
        lemma_settled_prefix_bound(ledger.drop_first());
        assert forall|j: int| 0 <= j < settled_prefix(ledger) implies (#[trigger] ledger[j]).pending
            == 0 by {
            if j > 0 {
                assert(ledger[j] == ledger.drop_first()[j - 1]);
            }
        }
    }
}

/// Collecting the head keeps the invariant, and leaves a head that is owed.
pub proof fn lemma_collect_wf(t: TopicModel)
    requires
        t.wf(),
    ensures
        t.collect().wf(),
        t.collect().ledger.len() == 0 || t.collect().ledger[0].pending > 0,
        t.collect().ledger == t.ledger.skip(settled_prefix(t.ledger) as int),
    decreases t.ledger.len(),
{
    if t.ledger.len() > 0 && t.ledger[0].pending == 0 {
        lemma_pop_head_wf(t);
        lemma_collect_wf(t.pop_head());
        assert(settled_prefix(t.ledger) == 1 + settled_prefix(t.ledger.drop_first()));
        lemma_settled_prefix_bound(t.ledger.drop_first());
        assert(t.ledger.drop_first().skip(settled_prefix(t.ledger.drop_first()) as int)
            =~= t.ledger.skip(settled_prefix(t.ledger) as int));
    } else {
        assert(t.ledger.skip(0) =~= t.ledger);
    }
}

/// Releasing what a leaving subscriber owed keeps the invariant.
pub proof fn lemma_release_wf(t: TopicModel, id: Seq<char>)
    requires
        t.wf(),
        t.subscriptions.contains_key(id),
        t.subscriptions[id].topic_update_idx is Some,
    ensures
        t.release(id, t.subscriptions[id].topic_update_idx->Some_0 as int).wf(),
{
    let k = t.subscriptions[id].topic_update_idx->Some_0 as int;
    let r = t.release(id, k);
    assert forall|j: int| 0 <= j < r.ledger.len() implies (#[trigger] r.ledger[j]).pending == owing(
        r.subscriptions,
        j,
    ).len() by {
        lemma_owing_finite(t.subscriptions, j);
        if j >= k {
            assert(owing(t.subscriptions, j).contains(id));
            assert(owing(r.subscriptions, j) =~= owing(t.subscriptions, j).remove(id));
        } else {
            assert(owing(r.subscriptions, j) =~= owing(t.subscriptions, j));
        }
    }
}

/// Leaving keeps the invariant.
pub proof fn lemma_unsubscribe_wf(t: TopicModel, id: Seq<char>)
    requires
        t.wf(),
        t.subscriptions.contains_key(id),
    ensures
        t.unsubscribe(id).wf(),
{
    match t.subscriptions[id].topic_update_idx {
        None => {
            let r = t.unsubscribe(id);
            assert forall|j: int| 0 <= j < r.ledger.len() implies (#[trigger] r.ledger[j]).pending
                == owing(r.subscriptions, j).len() by {
                assert(owing(r.subscriptions, j) =~= owing(t.subscriptions, j));
            }
        },
        Some(k) => {
            lemma_release_wf(t, id);
            lemma_collect_wf(t.release(id, k as int));
        },
    }
}

/// An update at a subscriber's cursor is owed by that subscriber at least.
pub proof fn lemma_cursor_owed(t: TopicModel, id: Seq<char>)
    requires
        t.wf(),
        t.subscriptions.contains_key(id),
        t.subscriptions[id].topic_update_idx is Some,
    ensures
        t.subscriptions[id].topic_update_idx->Some_0 < t.ledger.len(),
        forall|j: int|
            t.subscriptions[id].topic_update_idx->Some_0 <= j < t.ledger.len() ==> (
            #[trigger] t.ledger[j]).pending >= 1,
{
    let k = t.subscriptions[id].topic_update_idx->Some_0 as int;
    assert forall|j: int| k <= j < t.ledger.len() implies (#[trigger] t.ledger[j]).pending >= 1 by {
        lemma_owing_finite(t.subscriptions, j);
        assert(owing(t.subscriptions, j).contains(id));
    }
}

/// Acknowledging the update at the cursor keeps the invariant.
pub proof fn lemma_acknowledge_wf(t: TopicModel, id: Seq<char>, seq: u128)
    requires
        t.wf(),
        t.subscriptions.contains_key(id),
        t.subscriptions[id].topic_update_idx is Some,
    ensures
        t.acknowledge(id, seq, t.subscriptions[id].topic_update_idx->Some_0).wf(),
        t.acknowledge(id, seq, t.subscriptions[id].topic_update_idx->Some_0).subscriptions.dom()
            == t.subscriptions.dom(),
{
    let idx = t.subscriptions[id].topic_update_idx->Some_0;
    let acked = t.acknowledge(id, seq, idx);
    lemma_cursor_owed(t, id);
    assert(acked.subscriptions.dom() =~= t.subscriptions.dom());
    assert forall|j: int| 0 <= j < acked.ledger.len() implies (#[trigger] acked.ledger[j]).pending
        == owing(acked.subscriptions, j).len() by {
        lemma_owing_finite(t.subscriptions, j);
        if j == idx {
            assert(owing(t.subscriptions, j).contains(id));
            assert(owing(acked.subscriptions, j) =~= owing(t.subscriptions, j).remove(id));
        } else {
            assert(owing(acked.subscriptions, j) =~= owing(t.subscriptions, j));
        }
    }
}

/// Presenting a sequence number keeps the invariant, and the index handed
/// back is the subscriber's new cursor.
pub proof fn lemma_advance_wf(t: TopicModel, id: Seq<char>, seq: u128)
    requires
        t.wf(),
        t.subscriptions.contains_key(id),
    ensures
        t.advance(id, seq).0.wf(),
        t.advance(id, seq).0.subscriptions.contains_key(id),
        t.advance(id, seq).0.subscriptions.dom() == t.subscriptions.dom(),
        t.advance(id, seq).1 == t.advance(id, seq).0.subscriptions[id].topic_update_idx,
{
    let s = t.subscriptions[id];
    let r = t.advance(id, seq);
    let recorded = SubscriptionInfo {
        last_recv_sequence_num: Some(seq),
        topic_update_idx: s.topic_update_idx,
    };
    let same = TopicModel { ledger: t.ledger, subscriptions: t.subscriptions.insert(id, recorded) };
    assert forall|j: int| 0 <= j < same.ledger.len() implies (#[trigger] same.ledger[j]).pending
        == owing(same.subscriptions, j).len() by {
        assert(owing(same.subscriptions, j) =~= owing(t.subscriptions, j));
    }
    assert(same.subscriptions.dom() =~= t.subscriptions.dom());
    if s.last_recv_sequence_num is Some && seq == s.last_recv_sequence_num->Some_0 + 1
        && s.topic_update_idx is Some {
        let idx = s.topic_update_idx->Some_0;
        let acked = t.acknowledge(id, seq, idx);
        lemma_acknowledge_wf(t, id, seq);
        if idx == 0 && acked.ledger[0].pending == 0 {
            lemma_pop_head_wf(acked);
            assert(acked.pop_head().subscriptions.dom() =~= t.subscriptions.dom());
        }
    }
}

/// How many entries of a registry list still owe the update at `j`.
pub open spec fn count_covering(s: Seq<(Seq<char>, SubscriptionInfo)>, j: int) -> nat
    decreases s.len(),
{
    if s.len() == 0 {
        0
    } else {
        count_covering(s.drop_last(), j) + if covers(s.last().1, j) {
            1nat
        } else {
            0nat
        }
    }
}

/// Counting a registry list entry by entry gives the size of the owing set.
pub proof fn lemma_count_covering(s: Seq<(Seq<char>, SubscriptionInfo)>, j: int)
    requires
        keys_unique(s),
    ensures
        to_map(s).dom().finite(),
        count_covering(s, j) == owing(to_map(s), j).len(),
    decreases s.len(),
{
    lemma_to_map_finite(s);
    if s.len() == 0 {
        assert(owing(to_map(s), j) =~= Set::empty());
    } else {
        let p = s.drop_last();
        let last = s.last();
        assert(keys_unique(p));
        lemma_count_covering(p, j);
        if to_map(p).contains_key(last.0) {
            let c = choose|c: int| 0 <= c < p.len() && #[trigger] p[c].0 == last.0;
            assert(s[c].0 == s[s.len() - 1].0);
        }
        lemma_to_map_push(p, last.0, last.1);
        assert(p.push((last.0, last.1)) =~= s);
        lemma_owing_finite(to_map(p), j);
        if covers(last.1, j) {
            assert(owing(to_map(s), j) =~= owing(to_map(p), j).insert(last.0));
        } else {
            assert(owing(to_map(s), j) =~= owing(to_map(p), j));
        }
    }
}

} // verus!
