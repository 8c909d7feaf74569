//! The broadcast hub: fan-out of every published message to every
//! registered subscriber, each reading at its own pace through an
//! independent bounded queue.
//!
//! Delivery is best effort: when a subscriber's queue is full, the oldest
//! unread record is dropped to make room and the subscriber is marked
//! lagging, so a slow subscriber loses messages instead of stalling the
//! publisher or any other subscriber.

use vstd::prelude::*;

use crate::message::MeshMessage;
use crate::message::MeshMessageView;

verus! {

/// Capacity of each subscriber's queue: beyond this many unread records,
/// the oldest is dropped on the next publish.
pub const QUEUE_CAPACITY: usize = 100;

/// What one call of [`BroadcastHub::receive`] reports.
pub enum RecvOutcome {
    /// The oldest unread record, removed from the subscriber's queue.
    Message(MeshMessage),
    /// Records were dropped since the last successful read; reported once
    /// per lagging event, after which reads resume with the oldest
    /// retained record.
    Lagged,
    /// No record is queued right now; the caller decides how to wait.
    Pending,
    /// The subscription has ended; no further records will be delivered.
    Closed,
}

/// The mathematical shape of one subscription: its queued records (oldest
/// first), whether a drop has happened since the last successful read,
/// and whether the subscription has ended.
pub struct SubscriberView {
    pub queue: Seq<MeshMessageView>,
    pub lagged: bool,
    pub closed: bool,
}

/// The state of a subscription immediately after registration: an empty
/// queue, not lagging, not closed.
pub open spec fn fresh_subscriber() -> SubscriberView {
    SubscriberView { queue: Seq::empty(), lagged: false, closed: false }
}

/// One publish as seen by one subscriber: a closed subscription is left
/// alone; a queue with room grows by the record; a full queue drops its
/// oldest record to make room and the subscriber is marked lagging.
pub open spec fn publish_one(s: SubscriberView, v: MeshMessageView) -> SubscriberView {
    if s.closed {
        s
    } else if s.queue.len() < QUEUE_CAPACITY {
        SubscriberView { queue: s.queue.push(v), lagged: s.lagged, closed: s.closed }
    } else {
        SubscriberView { queue: s.queue.drop_first().push(v), lagged: true, closed: s.closed }
    }
}

/// One publish as seen by the whole hub: every subscriber advances by
/// [`publish_one`], each independently of all others.
pub open spec fn publish_spec(subs: Seq<SubscriberView>, v: MeshMessageView) -> Seq<
    SubscriberView,
> {
    subs.map_values(|s: SubscriberView| publish_one(s, v))
}

/// A whole sequence of publishes, applied in order.
pub open spec fn publish_all(subs: Seq<SubscriberView>, ps: Seq<MeshMessageView>) -> Seq<
    SubscriberView,
>
    decreases ps.len(),
{
    if ps.len() == 0 {
        subs
    } else {
        publish_spec(publish_all(subs, ps.drop_last()), ps.last())
    }
}

/// Fan-out: one publish reaches every subscriber that is active at
/// publish time. For any two such subscribers with room in their queues,
/// the published record becomes the newest entry of both queues, neither
/// is marked lagging by it, and so each observes the record once its
/// earlier queue entries have been received.
pub proof fn lemma_fan_out(subs: Seq<SubscriberView>, v: MeshMessageView, i: int, j: int)
    requires
        0 <= i < subs.len(),
        0 <= j < subs.len(),
        !subs[i].closed,
        !subs[j].closed,
        subs[i].queue.len() < QUEUE_CAPACITY,
        subs[j].queue.len() < QUEUE_CAPACITY,
    ensures
        publish_spec(subs, v)[i].queue == subs[i].queue.push(v),
        publish_spec(subs, v)[j].queue == subs[j].queue.push(v),
        publish_spec(subs, v)[i].lagged == subs[i].lagged,
        publish_spec(subs, v)[j].lagged == subs[j].lagged,
{
}

/// The subscription state left by `k` successful receives from an
/// active, non-lagging subscriber with no publish in between: the first
/// `k` queued records are gone, the rest keep their order.
pub open spec fn after_receives(s: SubscriberView, k: int) -> SubscriberView {
    SubscriberView { queue: s.queue.skip(k), lagged: s.lagged, closed: s.closed }
}

/// Delivery order: each successful receive of an active, non-lagging
/// subscriber yields the oldest queued record and steps the state as
/// [`after_receives`] counts it, so the k-th receive yields the k-th
/// queued record. In particular a record that a publish appended at
/// position k is observed after k receives: a pace-keeping subscriber
/// eventually observes every record published while it was registered.
pub proof fn lemma_delivery_in_order(s: SubscriberView, k: int)
    requires
        !s.closed,
        !s.lagged,
        0 <= k < s.queue.len(),
    ensures
        after_receives(s, 0) == s,
        after_receives(s, k).queue.len() > 0,
        after_receives(s, k).queue[0] == s.queue[k],
        after_receives(s, k + 1) == (SubscriberView {
            queue: after_receives(s, k).queue.drop_first(),
            lagged: s.lagged,
            closed: s.closed,
        }),
{
    assert(after_receives(s, 0).queue =~= s.queue);
    assert(after_receives(s, k + 1).queue =~= after_receives(s, k).queue.drop_first());
}

/// What a run of publishes leaves in one active subscriber's queue.
///
/// A subscriber that keeps pace (its queue never asked to hold more than
/// the capacity) holds every record published while it was registered, in
/// publish order, and is never marked lagging by them. A subscriber that
/// overflows is marked lagging and holds exactly the most recent
/// [`QUEUE_CAPACITY`] records, in publish order, with no duplicates and
/// no record lost beyond the oldest ones. Each subscriber's outcome
/// depends on its own state alone: one slow subscriber never affects
/// another.
pub proof fn lemma_publish_history(subs: Seq<SubscriberView>, ps: Seq<MeshMessageView>, i: int)
    requires
        0 <= i < subs.len(),
        !subs[i].closed,
        subs[i].queue.len() <= QUEUE_CAPACITY,
    ensures
        publish_all(subs, ps).len() == subs.len(),
        !publish_all(subs, ps)[i].closed,
        subs[i].queue.len() + ps.len() <= QUEUE_CAPACITY ==> publish_all(subs, ps)[i].queue
            == subs[i].queue + ps && publish_all(subs, ps)[i].lagged == subs[i].lagged,
        subs[i].queue.len() + ps.len() > QUEUE_CAPACITY ==> publish_all(subs, ps)[i].queue == (
        subs[i].queue + ps).skip(subs[i].queue.len() + ps.len() - QUEUE_CAPACITY) && publish_all(
            subs,
            ps,
        )[i].lagged,
        publish_all(subs, ps)[i].queue.len() <= QUEUE_CAPACITY,
    decreases ps.len(),
{
    let q = subs[i].queue;
    let total = q + ps;
    if ps.len() == 0 {
        assert(total =~= q);
    } else {
        lemma_publish_history(subs, ps.drop_last(), i);
        let prev = publish_all(subs, ps.drop_last());
        let cur = publish_spec(prev, ps.last());
        let total_prev = q + ps.drop_last();
        assert(cur[i] == publish_one(prev[i], ps.last()));
        if q.len() + ps.len() <= QUEUE_CAPACITY {
            assert(prev[i].queue == total_prev);
            assert(cur[i].queue =~= total);
        } else if q.len() + ps.len() - 1 <= QUEUE_CAPACITY {
            assert(prev[i].queue == total_prev);
            assert(prev[i].queue.len() == QUEUE_CAPACITY);
            assert(cur[i].queue == prev[i].queue.drop_first().push(ps.last()));
            assert(cur[i].queue =~= total.skip(total.len() - QUEUE_CAPACITY));
        } else {
            assert(prev[i].queue == total_prev.skip(
                total_prev.len() - QUEUE_CAPACITY,
            ));
            assert(prev[i].queue.len() == QUEUE_CAPACITY);
            assert(cur[i].queue == prev[i].queue.drop_first().push(ps.last()));
            assert(cur[i].queue =~= total.skip(total.len() - QUEUE_CAPACITY));
        }
    }
}

/// Late subscription: a subscriber registered after a record was
/// published never receives that record. Its queue starts empty, and
/// after any further run of publishes it holds only records from that
/// run.
pub proof fn lemma_late_subscription(
    subs: Seq<SubscriberView>,
    ps: Seq<MeshMessageView>,
    v: MeshMessageView,
)
    requires
        !ps.contains(v),
    ensures
        !publish_all(subs.push(fresh_subscriber()), ps)[subs.len() as int].queue.contains(v),
{
    let slot = subs.len() as int;
    let joined = subs.push(fresh_subscriber());
    lemma_publish_history(joined, ps, slot);
    let q = publish_all(joined, ps)[slot].queue;
    assert(joined[slot].queue + ps =~= ps);
    if q.contains(v) {
        let k = choose|k: int| 0 <= k < q.len() && q[k] == v;
        if ps.len() <= QUEUE_CAPACITY {
            assert(ps[k] == v);
        } else {
            assert(ps[k + ps.len() - QUEUE_CAPACITY] == v);
        }
    }
}

/// A handle bound to one registered subscription of a [`BroadcastHub`].
#[derive(Clone, Copy)]
pub struct SubscriptionHandle {
    index: usize,
}

impl SubscriptionHandle {
    /// The slot of the subscription this handle is bound to.
    pub closed spec fn slot(&self) -> int {
        self.index as int
    }
}

struct Subscriber {
    queue: Vec<MeshMessage>,
    lagged: bool,
    closed: bool,
}

impl View for Subscriber {
    type V = SubscriberView;

    closed spec fn view(&self) -> SubscriberView {
        SubscriberView {
            queue: self.queue@.map_values(|m: MeshMessage| m@),
            lagged: self.lagged,
            closed: self.closed,
        }
    }
}

/// The fan-out channel: a registry of subscriptions, each with an
/// independent bounded queue. Mutual exclusion between concurrent callers
/// is the boundary layer's concern; each operation here is a single
/// bounded-time structural step, so no call ever waits on a subscriber's
/// pace.
pub struct BroadcastHub {
    subs: Vec<Subscriber>,
}

impl View for BroadcastHub {
    type V = Seq<SubscriberView>;

    /// The hub as the sequence of its subscription states, in
    /// registration order. Slots are never removed: a subscription that
    /// ends stays in place, marked closed.
    closed spec fn view(&self) -> Seq<SubscriberView> {
        self.subs@.map_values(|s: Subscriber| s@)
    }
}

impl BroadcastHub {
    /// Well-formed: no queue holds more than [`QUEUE_CAPACITY`] records.
    pub open spec fn wf(&self) -> bool {
        forall|i: int| 0 <= i < self@.len() ==> #[trigger] self@[i].queue.len() <= QUEUE_CAPACITY
    }

    /// A hub with no subscribers.
    pub fn new() -> (hub: Self)
        ensures
            hub.wf(),
            hub@ == Seq::<SubscriberView>::empty(),
    {
        let hub = BroadcastHub { subs: Vec::new() };
        proof {
            assert(hub@ =~= Seq::<SubscriberView>::empty());
        }
        hub
    }

    /// Registers a new subscriber and returns a handle bound to a fresh,
    /// empty queue. The subscriber sees only records published after this
    /// call: no backlog is replayed.
    pub fn subscribe(&mut self) -> (h: SubscriptionHandle)
        requires
            old(self).wf(),
        ensures
            final(self).wf(),
            h.slot() == old(self)@.len(),
            final(self)@ == old(self)@.push(fresh_subscriber()),
    {
        let h = SubscriptionHandle { index: self.subs.len() };
        let sub = Subscriber { queue: Vec::new(), lagged: false, closed: false };
        proof {
            assert(sub@.queue =~= Seq::<MeshMessageView>::empty());
        }
        self.subs.push(sub);
        proof {
            assert(self@ =~= old(self)@.push(fresh_subscriber()));
        }
        h
    }

    /// Pushes the record onto every active subscriber's queue, dropping
    /// the oldest unread record of any queue already at capacity. Never
    /// blocks on a subscriber's pace, never fails, and with no
    /// subscribers is a no-op fan-out.
    pub fn publish(&mut self, m: &MeshMessage)
        requires
            old(self).wf(),
        ensures
            final(self).wf(),
            final(self)@ == publish_spec(old(self)@, m@),
    {
        let ghost v0 = self@;
        let n = self.subs.len();
        let mut i: usize = 0;
        while i < n
            invariant
                n == self.subs@.len(),
                v0.len() == n,
                i <= n,
                forall|j: int| 0 <= j < v0.len() ==> #[trigger] v0[j].queue.len() <= QUEUE_CAPACITY,
                forall|j: int| 0 <= j < i ==> self@[j] == publish_one(v0[j], m@),
                forall|j: int| i <= j < n ==> self@[j] == v0[j],
            decreases n - i,
        {
            let ghost snap = self.subs@;
            let ghost before = snap[i as int]@;
            proof {
                assert(before == v0[i as int]);
            }
            let sub = &mut self.subs[i];
            if !sub.closed {
                if sub.queue.len() >= QUEUE_CAPACITY {
                    sub.queue.remove(0);
                    sub.lagged = true;
                    proof {
                        assert(sub@.queue =~= before.queue.drop_first());
                    }
                }
                sub.queue.push(m.clone());
            }
            proof {
                assert(forall|j: int| 0 <= j < n && j != i as int ==> self.subs@[j] == snap[j]);
                assert forall|j: int| 0 <= j < n && j != i as int implies self@[j] == snap[j]@ by {
                    assert(self@[j] == self.subs@[j]@);
                }
                assert forall|j: int| 0 <= j < i implies self@[j] == publish_one(v0[j], m@) by {
                    assert(snap.map_values(|s: Subscriber| s@)[j] == publish_one(v0[j], m@));
                    assert(snap[j]@ == publish_one(v0[j], m@));
                }
                assert forall|j: int| (i as int) < j < n implies self@[j] == v0[j] by {
                    assert(snap.map_values(|s: Subscriber| s@)[j] == v0[j]);
                    assert(snap[j]@ == v0[j]);
                }
                assert(self@[i as int] == publish_one(before, m@)) by {
                    if !before.closed {
                        if before.queue.len() < QUEUE_CAPACITY {
                            assert(self.subs@[i as int]@.queue =~= before.queue.push(m@));
                        } else {
                            assert(self.subs@[i as int]@.queue =~= before.queue.drop_first().push(
                                m@,
                            ));
                        }
                    }
                }
            }
            i = i + 1;
        }
        proof {
            assert(self@ =~= publish_spec(v0, m@));
            assert forall|j: int| 0 <= j < self@.len() implies #[trigger] self@[j].queue.len()
                <= QUEUE_CAPACITY by {
                assert(self@[j] == publish_one(v0[j], m@));
                assert(v0[j].queue.len() <= QUEUE_CAPACITY);
            }
        }
    }

    /// One read step for the subscription behind `h`. Reports, in this
    /// order of precedence: closure of the subscription; a lagging event
    /// (once, clearing the mark); the oldest unread record, removed from
    /// the queue; or that nothing is queued yet. Never touches any other
    /// subscription.
    pub fn receive(&mut self, h: &SubscriptionHandle) -> (r: RecvOutcome)
        requires
            old(self).wf(),
            0 <= h.slot() < old(self)@.len(),
        ensures
            final(self).wf(),
            final(self)@.len() == old(self)@.len(),
            forall|j: int|
                0 <= j < old(self)@.len() && j != h.slot() ==> final(self)@[j] == old(self)@[j],
            ({
                let s = old(self)@[h.slot()];
                let t = final(self)@[h.slot()];
                if s.closed {
                    r is Closed && t == s
                } else if s.lagged {
                    r is Lagged && t == (SubscriberView {
                        queue: s.queue,
                        lagged: false,
                        closed: false,
                    })
                } else if s.queue.len() > 0 {
                    (r matches RecvOutcome::Message(m) && m@ == s.queue[0]) && t
                        == (SubscriberView {
                        queue: s.queue.drop_first(),
                        lagged: false,
                        closed: false,
                    })
                } else {
                    r is Pending && t == s
                }
            }),
    {
        let ghost snap = self.subs@;
        let ghost before = self@[h.slot()];
        let i = h.index;
        let sub = &mut self.subs[i];
        let r = if sub.closed {
            RecvOutcome::Closed
        } else if sub.lagged {
            sub.lagged = false;
            RecvOutcome::Lagged
        } else if sub.queue.len() > 0 {
            let m = sub.queue.remove(0);
            proof {
                assert(sub@.queue =~= before.queue.drop_first());
            }
            RecvOutcome::Message(m)
        } else {
            RecvOutcome::Pending
        };
        proof {
            assert(forall|j: int|
                0 <= j < snap.len() && j != h.slot() ==> self.subs@[j] == snap[j]);
            assert(self@[h.slot()].queue.len() <= before.queue.len());
            assert forall|j: int| 0 <= j < self@.len() implies #[trigger] self@[j].queue.len()
                <= QUEUE_CAPACITY by {
                assert(old(self)@[j].queue.len() <= QUEUE_CAPACITY);
            }
        }
        r
    }

    /// Releases the subscription behind `h`: its queue is discarded and
    /// no further records are delivered to it. Terminal for this
    /// subscription only; every other subscription is untouched.
    pub fn unsubscribe(&mut self, h: &SubscriptionHandle)
        requires
            old(self).wf(),
            0 <= h.slot() < old(self)@.len(),
        ensures
            final(self).wf(),
            final(self)@.len() == old(self)@.len(),
            forall|j: int|
                0 <= j < old(self)@.len() && j != h.slot() ==> final(self)@[j] == old(self)@[j],
            final(self)@[h.slot()] == (SubscriberView {
                queue: Seq::empty(),
                lagged: false,
                closed: true,
            }),
    {
        let ghost snap = self.subs@;
        let i = h.index;
        let sub = &mut self.subs[i];
        sub.queue.clear();
        sub.lagged = false;
        sub.closed = true;
        proof {
            assert(sub@.queue =~= Seq::<MeshMessageView>::empty());
        }
        proof {
            assert(forall|j: int|
                0 <= j < snap.len() && j != h.slot() ==> self.subs@[j] == snap[j]);
            assert forall|j: int| 0 <= j < self@.len() implies #[trigger] self@[j].queue.len()
                <= QUEUE_CAPACITY by {
                assert(old(self)@[j].queue.len() <= QUEUE_CAPACITY);
            }
        }
    }
}

} // verus!
