//! Queue of gossip that waits to ride along on protocol messages.
//!
//! An event is sent a number of times that grows with the logarithm of the
//! cluster's size; the queue keeps how many sends of each event are left and
//! hands events out oldest first.

use vstd::arithmetic::power2::{lemma2_to64, lemma_pow2_pos, lemma_pow2_unfold, pow2};
use vstd::prelude::*;

use crate::cluster::message::{events_view, EventView, GossipEvent};

verus! {

/// How many sends an event gets for each doubling of the cluster.
pub const GOSSIP_FANOUT_MULT: u32 = 3;

#[derive(Debug)]
struct Pending {
    event: GossipEvent,
    budget: u32,
}

/// Queue of events, each with the number of sends that are left for it.
#[derive(Debug)]
pub struct GossipQueue {
    pending: Vec<Pending>,
    capacity: usize,
}

/// An event that waits, and how many sends are left for it.
pub ghost struct PendingView {
    pub event: EventView,
    pub budget: u32,
}

/// Mathematical value of a [`GossipQueue`].
pub ghost struct QueueView {
    /// What waits, oldest first.
    pub pending: Seq<PendingView>,
    /// How much may wait.
    pub capacity: nat,
}

spec fn pending_view(s: Seq<Pending>) -> Seq<PendingView> {
    Seq::new(s.len(), |i: int| PendingView { event: s[i].event@, budget: s[i].budget })
}

impl View for GossipQueue {
    type V = QueueView;

    closed spec fn view(&self) -> QueueView {
        QueueView { pending: pending_view(self.pending@), capacity: self.capacity as nat }
    }
}

/// Number of binary digits of `n`: the least `k` with `n` below two to the
/// power of `k`, which is the logarithm of `n + 1`, rounded up.
pub open spec fn binary_digits(n: nat) -> nat
    decreases n,
{
    if n == 0 {
        0
    } else {
        1 + binary_digits(n / 2)
    }
}

/// How many sends an event gets in a cluster of `n` live members.
pub open spec fn send_budget(n: int) -> int {
    let size: int = if n < 1 {
        1
    } else if n > u32::MAX {
        u32::MAX as int
    } else {
        n
    };
    GOSSIP_FANOUT_MULT * binary_digits(size as nat)
}

/// Larger numbers have no fewer digits.
proof fn lemma_digits_monotone(a: nat, b: nat)
    requires
        a <= b,
    ensures
        binary_digits(a) <= binary_digits(b),
    decreases b,
{
    if a > 0 {
        lemma_digits_monotone(a / 2, b / 2);
    }
}

proof fn lemma_digits_bound()
    ensures
        binary_digits(u32::MAX as nat) == 32,
{
    reveal_with_fuel(binary_digits, 33);
}

/// A larger cluster gives every event at least as many sends.
pub proof fn law_budget_grows(a: int, b: int)
    requires
        a <= b,
    ensures
        send_budget(a) <= send_budget(b),
        3 <= send_budget(a) <= 96,
{
    let x: nat = if a < 1 {
        1
    } else if a > u32::MAX {
        u32::MAX as nat
    } else {
        a as nat
    };
    let y: nat = if b < 1 {
        1
    } else if b > u32::MAX {
        u32::MAX as nat
    } else {
        b as nat
    };
    lemma_digits_monotone(x, y);
    lemma_digits_monotone(1, x);
    lemma_digits_monotone(x, u32::MAX as nat);
    lemma_digits_bound();
    assert(binary_digits(1) == 1) by {
        reveal_with_fuel(binary_digits, 2);
    }
}

/// How many sends an event gets in a cluster of `live_member_count` members.
pub fn budget_for(live_member_count: usize) -> (r: u32)
    ensures
        r == send_budget(live_member_count as int),
        1 <= r <= 96,
{
    let size: u32 = if live_member_count < 1 {
        1
    } else if live_member_count > u32::MAX as usize {
        u32::MAX
    } else {
        live_member_count as u32
    };
    let mut left: u32 = size;
    let mut digits: u32 = 0;
    proof {
        law_budget_grows(live_member_count as int, live_member_count as int);
        lemma_digits_monotone(size as nat, u32::MAX as nat);
        lemma_digits_bound();
    }
    while left > 0
        invariant
            digits + binary_digits(left as nat) == binary_digits(size as nat),
            binary_digits(size as nat) <= 32,
        decreases left,
    {
        left = left / 2;
        digits = digits + 1;
    }
    GOSSIP_FANOUT_MULT * digits
}

/// Position of the first pending entry of `event`; the length where there is
/// none.
pub open spec fn position(s: Seq<PendingView>, event: EventView) -> int
    decreases s.len(),
{
    if s.len() == 0 || s[0].event == event {
        0
    } else {
        1 + position(s.skip(1), event)
    }
}

proof fn lemma_position(s: Seq<PendingView>, event: EventView, k: int)
    requires
        0 <= k <= s.len(),
        forall|j: int| 0 <= j < k ==> (#[trigger] s[j]).event != event,
        k < s.len() ==> s[k].event == event,
    ensures
        position(s, event) == k,
    decreases s.len(),
{
    if k > 0 {
        assert(s[0].event != event);
        assert forall|j: int| 0 <= j < k - 1 implies (#[trigger] s.skip(1)[j]).event != event by {
            assert(s[j + 1].event != event);
        }
        assert(k < s.len() ==> s.skip(1)[k - 1] == s[k]);
        lemma_position(s.skip(1), event, k - 1);
    }
}

/// The larger of two numbers.
pub open spec fn larger(a: u32, b: u32) -> u32 {
    if a >= b {
        a
    } else {
        b
    }
}

/// The queue after an event came in with `budget` sends: an event that waits
/// already gets at least that many; a new one goes to the end, and pushes out
/// the oldest where the queue is full. A queue for no events keeps none.
pub open spec fn pushed(q: QueueView, event: EventView, budget: u32) -> Seq<PendingView> {
    let k = position(q.pending, event);
    if k < q.pending.len() {
        q.pending.update(
            k,
            PendingView { event, budget: larger(q.pending[k].budget, budget) },
        )
    } else if q.capacity == 0 {
        q.pending
    } else if q.pending.len() == q.capacity {
        q.pending.skip(1).push(PendingView { event, budget })
    } else {
        q.pending.push(PendingView { event, budget })
    }
}

/// What is left of the first `n` entries once each has been sent: one send
/// less, and gone where none is left.
pub open spec fn spent(s: Seq<PendingView>, n: int) -> Seq<PendingView>
    decreases n,
{
    if n <= 0 {
        Seq::empty()
    } else {
        let front = spent(s, n - 1);
        let e = s[n - 1];
        if e.budget <= 1 {
            front
        } else {
            front.push(PendingView { event: e.event, budget: (e.budget - 1) as u32 })
        }
    }
}

/// How many events one send of at most `max` takes.
pub open spec fn batch(s: Seq<PendingView>, max: int) -> int {
    if max < s.len() {
        max
    } else {
        s.len() as int
    }
}

/// Events of pending entries.
pub open spec fn pending_events(s: Seq<PendingView>) -> Seq<EventView> {
    Seq::new(s.len(), |i: int| s[i].event)
}

impl GossipQueue {
    /// A queue for at most `capacity` events. A new event pushes out the oldest
    /// of a full queue.
    pub fn with_capacity(capacity: usize) -> (r: Self)
        ensures
            r@ == (QueueView { pending: Seq::empty(), capacity: capacity as nat }),
    {
        let r: GossipQueue = GossipQueue { pending: Vec::new(), capacity };
        assert(r@.pending =~= Seq::<PendingView>::empty());
        r
    }

    /// Queues an event, with the number of sends that a cluster of
    /// `live_member_count` members asks for.
    pub fn push(&mut self, event: GossipEvent, live_member_count: usize)
        ensures
            final(self)@.capacity == old(self)@.capacity,
            final(self)@.pending == pushed(
                old(self)@,
                event@,
                send_budget(live_member_count as int) as u32,
            ),
    {
        let budget: u32 = budget_for(live_member_count);
        let ghost s = self@.pending;
        let mut i: usize = 0;
        while i < self.pending.len() && !self.pending[i].event.same_as(&event)
            invariant
                *self == *old(self),
                s == self@.pending,
                i <= self.pending@.len(),
                forall|j: int| 0 <= j < i ==> (#[trigger] s[j]).event != event@,
            decreases self.pending@.len() - i,
        {
            assert(s[i as int].event == self.pending@[i as int].event@);
            i = i + 1;
        }
        proof {
            if i < s.len() {
                assert(s[i as int].event == self.pending@[i as int].event@);
            }
            lemma_position(s, event@, i as int);
        }
        if i < self.pending.len() {
            let known: u32 = self.pending[i].budget;
            let ghost was = self.pending@[i as int].event@;
            let raised: u32 = if known >= budget {
                known
            } else {
                budget
            };
            self.pending[i] = Pending { event, budget: raised };
            assert(self@.pending =~= pushed(
                old(self)@,
                was,
                send_budget(live_member_count as int) as u32,
            ));
            return;
        }
        if self.capacity == 0 {
            return;
        }
        if self.pending.len() == self.capacity {
            self.pending.remove(0);
            assert(self@.pending =~= s.skip(1));
        }
        let ghost ev = event@;
        self.pending.push(Pending { event, budget });
        assert(self@.pending =~= pushed(
            old(self)@,
            ev,
            send_budget(live_member_count as int) as u32,
        ));
    }

    /// Takes up to `max` events to ride along on one message, oldest first.
    /// Each has one send less left; an event without any is dropped.
    pub fn drain_for_send(&mut self, max: usize) -> (r: Vec<GossipEvent>)
        ensures
            ({
                let s = old(self)@.pending;
                let n = batch(s, max as int);
                &&& events_view(r@) == pending_events(s.take(n))
                &&& final(self)@.pending == spent(s, n) + s.skip(n)
                &&& final(self)@.capacity == old(self)@.capacity
            }),
    {
        let ghost s = self@.pending;
        let mut out: Vec<GossipEvent> = Vec::new();
        let mut idx: usize = 0;
        proof {
            assert(s.take(0) =~= Seq::<PendingView>::empty());
            assert(events_view(out@) =~= pending_events(s.take(0)));
            assert(spent(s, 0) + s.skip(0) =~= s);
        }
        while out.len() < max && idx < self.pending.len()
            invariant
                s == old(self)@.pending,
                self@.capacity == old(self)@.capacity,
                out@.len() <= s.len(),
                out@.len() <= max,
                events_view(out@) == pending_events(s.take(out@.len() as int)),
                idx == spent(s, out@.len() as int).len(),
                self@.pending == spent(s, out@.len() as int) + s.skip(out@.len() as int),
            decreases s.len() - out@.len(),
        {
            let ghost k = out@.len() as int;
            let ghost front = spent(s, k);
            assert(self@.pending.len() == self.pending@.len());
            assert(self@.pending[idx as int] == s[k]);
            assert(s[k].event == self.pending@[idx as int].event@);
            let event: GossipEvent = self.pending[idx].event.clone();
            let copy: GossipEvent = event.clone();
            let budget: u32 = self.pending[idx].budget;
            let ghost taken = events_view(out@);
            let ghost waiting = self@.pending;
            out.push(event);
            proof {
                assert(events_view(out@) =~= taken.push(s[k].event));
                assert(pending_events(s.take(k + 1)) =~= pending_events(s.take(k)).push(
                    s[k].event,
                ));
                assert(s.skip(k) =~= seq![s[k]] + s.skip(k + 1));
            }
            if budget <= 1 {
                self.pending.remove(idx);
                proof {
                    assert(self@.pending =~= waiting.remove(front.len() as int));
                    assert(self@.pending =~= spent(s, k + 1) + s.skip(k + 1));
                }
            } else {
                self.pending[idx] = Pending { event: copy, budget: budget - 1 };
                idx = idx + 1;
                proof {
                    let e = PendingView { event: s[k].event, budget: (s[k].budget - 1) as u32 };
                    assert(self@.pending =~= waiting.update(front.len() as int, e));
                    assert(self@.pending =~= spent(s, k + 1) + s.skip(k + 1));
                }
            }
        }
        out
    }

    /// How many events wait.
    pub fn len(&self) -> (r: usize)
        ensures
            r == self@.pending.len(),
    {
        self.pending.len()
    }

    /// Whether nothing waits.
    pub fn is_empty(&self) -> (r: bool)
        ensures
            r == (self@.pending.len() == 0),
    {
        self.pending.len() == 0
    }
}

impl Default for GossipQueue {
    /// An empty queue for no events.
    fn default() -> (r: Self)
        ensures
            r@ == (QueueView { pending: Seq::empty(), capacity: 0 }),
    {
        GossipQueue::with_capacity(0)
    }
}

// ---------------------------------------------------------------------------
// What holds of every queue
// ---------------------------------------------------------------------------

/// No event waits twice, every waiting event has a send left, and no more wait
/// than may.
pub open spec fn sound(q: QueueView) -> bool {
    &&& forall|i: int, j: int|
        0 <= i < j < q.pending.len() ==> (#[trigger] q.pending[i]).event != (
        #[trigger] q.pending[j]).event
    &&& forall|i: int| 0 <= i < q.pending.len() ==> (#[trigger] q.pending[i]).budget >= 1
    &&& q.pending.len() <= q.capacity
}

proof fn lemma_position_bounds(s: Seq<PendingView>, event: EventView)
    ensures
        0 <= position(s, event) <= s.len(),
        position(s, event) < s.len() ==> s[position(s, event)].event == event,
        forall|j: int| 0 <= j < position(s, event) ==> (#[trigger] s[j]).event != event,
    decreases s.len(),
{
    if s.len() > 0 && s[0].event != event {
        lemma_position_bounds(s.skip(1), event);
        let k = position(s.skip(1), event);
        assert(k < s.len() - 1 ==> s.skip(1)[k] == s[k + 1]);
        assert forall|j: int| 0 <= j < k + 1 implies (#[trigger] s[j]).event != event by {
            if j > 0 {
                assert(s.skip(1)[j - 1] == s[j]);
            }
        }
    }
}

/// Pushing keeps the queue sound.
pub proof fn law_push_keeps_soundness(q: QueueView, event: EventView, budget: u32)
    requires
        sound(q),
        budget >= 1,
    ensures
        sound((QueueView { pending: pushed(q, event, budget), capacity: q.capacity })),
{
    lemma_position_bounds(q.pending, event);
}

proof fn lemma_spent(s: Seq<PendingView>, n: int, q: QueueView) -> (from: Seq<int>)
    requires
        0 <= n <= s.len(),
        s == q.pending,
        sound(q),
    ensures
        from.len() == spent(s, n).len(),
        from.len() <= n,
        forall|a: int|
            0 <= a < from.len() ==> 0 <= #[trigger] from[a] < n && spent(s, n)[a].event
                == s[from[a]].event && spent(s, n)[a].budget >= 1,
        forall|a: int, b: int| 0 <= a < b < from.len() ==> #[trigger] from[a] < #[trigger] from[b],
    decreases n,
{
    if n <= 0 {
        Seq::empty()
    } else {
        let front = lemma_spent(s, n - 1, q);
        if s[n - 1].budget <= 1 {
            front
        } else {
            front.push(n - 1)
        }
    }
}

/// Taking events to send keeps the queue sound.
pub proof fn law_drain_keeps_soundness(q: QueueView, max: int)
    requires
        sound(q),
        0 <= max,
    ensures
        ({
            let n = batch(q.pending, max);
            sound((QueueView {
                pending: spent(q.pending, n) + q.pending.skip(n),
                capacity: q.capacity,
            }))
        }),
{
    let s = q.pending;
    let n = batch(s, max);
    let from = lemma_spent(s, n, q);
    let t = spent(s, n) + s.skip(n);
    let k = from.len() as int;
    assert forall|i: int, j: int| 0 <= i < j < t.len() implies (#[trigger] t[i]).event != (
    #[trigger] t[j]).event by {
        let a: int = if i < k {
            from[i]
        } else {
            i - k + n
        };
        let b: int = if j < k {
            from[j]
        } else {
            j - k + n
        };
        assert(t[i].event == s[a].event);
        assert(t[j].event == s[b].event);
        if j < k {
            assert(from[i] < from[j]);
        }
        assert(a < b);
    }
    assert forall|i: int| 0 <= i < t.len() implies (#[trigger] t[i]).budget >= 1 by {
        if i < k {
            assert(from[i] < n);
        } else {
            assert(t[i] == s[i - k + n]);
        }
    }
}

/// A cluster of at least half of and fewer than two to the power of `k` members
/// sends every event `3 * k` times.
pub proof fn law_sends_grow_with_the_logarithm(n: int, k: nat)
    requires
        1 <= n <= u32::MAX,
        1 <= k,
        pow2((k - 1) as nat) <= n < pow2(k),
    ensures
        send_budget(n) == 3 * k,
{
    lemma_digits_are_the_logarithm(n as nat, k);
}

proof fn lemma_digits_are_the_logarithm(n: nat, k: nat)
    requires
        1 <= k,
        pow2((k - 1) as nat) <= n < pow2(k),
    ensures
        binary_digits(n) == k,
    decreases k,
{
    lemma_pow2_pos((k - 1) as nat);
    lemma_pow2_unfold(k);
    if k == 1 {
        lemma2_to64();
        reveal_with_fuel(binary_digits, 2);
    } else {
        lemma_pow2_unfold((k - 1) as nat);
        lemma_digits_are_the_logarithm(n / 2, (k - 1) as nat);
    }
}

/// An event that is queued waits; new, it waits behind all others, with as many
/// sends as asked for, and a full queue gives up its oldest event for it. One that
/// waits already keeps its place, with the larger number of sends. The others stay
/// as they are, in their order.
pub proof fn law_queued_events_wait(q: QueueView, event: EventView, budget: u32)
    requires
        sound(q),
        q.capacity > 0,
    ensures
        ({
            let s = q.pending;
            let t = pushed(q, event, budget);
            let known = exists|i: int| 0 <= i < s.len() && (#[trigger] s[i]).event == event;
            &&& !known && s.len() < q.capacity ==> {
                &&& t.len() == s.len() + 1
                &&& t[s.len() as int].event == event && t[s.len() as int].budget == budget
                &&& forall|i: int| 0 <= i < s.len() ==> #[trigger] t[i] == s[i]
            }
            &&& !known && s.len() == q.capacity ==> {
                &&& t.len() == s.len()
                &&& t[s.len() - 1].event == event && t[s.len() - 1].budget == budget
                &&& forall|i: int| 0 <= i < s.len() - 1 ==> #[trigger] t[i] == s[i + 1]
            }
            &&& forall|i: int|
                0 <= i < s.len() && (#[trigger] s[i]).event == event ==> {
                    &&& t.len() == s.len()
                    &&& t[i].event == event
                    &&& t[i].budget >= s[i].budget && t[i].budget >= budget
                    &&& t[i].budget == s[i].budget || t[i].budget == budget
                    &&& forall|j: int| 0 <= j < s.len() && j != i ==> #[trigger] t[j] == s[j]
                }
        }),
{
    lemma_position_bounds(q.pending, event);
}

/// Sending takes one send from each of the oldest events, as many as fit, and
/// drops those that had but one left. The rest stay as they are, and all keep
/// their order: the events that wait afterwards stood at the places returned.
pub proof fn law_each_send_is_counted(q: QueueView, max: int) -> (from: Seq<int>)
    requires
        sound(q),
        0 <= max,
    ensures
        ({
            let s = q.pending;
            let t = spent(s, batch(s, max)) + s.skip(batch(s, max));
            &&& from.len() == t.len()
            &&& forall|a: int|
                0 <= a < from.len() ==> {
                    &&& 0 <= #[trigger] from[a] < s.len()
                    &&& t[a].event == s[from[a]].event
                    &&& t[a].budget == (if from[a] < max {
                        s[from[a]].budget - 1
                    } else {
                        s[from[a]].budget as int
                    })
                }
            &&& forall|a: int, b: int|
                0 <= a < b < from.len() ==> #[trigger] from[a] < #[trigger] from[b]
            &&& forall|i: int|
                0 <= i < s.len() ==> (#[trigger] from.contains(i) <==> max <= i || s[i].budget
                    > 1)
        }),
{
    let s = q.pending;
    let n = batch(s, max);
    let front = lemma_spent_from(s, n, q);
    let k = front.len() as int;
    let from = front + Seq::new((s.len() - n) as nat, |i: int| n + i);
    let t = spent(s, n) + s.skip(n);
    assert forall|i: int| 0 <= i < s.len() implies (#[trigger] from.contains(i) <==> max <= i
        || s[i].budget > 1) by {
        if i < n {
            if from.contains(i) {
                let a = choose|a: int| 0 <= a < from.len() && from[a] == i;
                assert(front[a] == i);
                assert(front.contains(i));
            }
            if s[i].budget > 1 {
                assert(front.contains(i));
                let a = choose|a: int| 0 <= a < front.len() && front[a] == i;
                assert(from[a] == i);
            }
        } else {
            assert(from[k + i - n] == i);
        }
    }
    from
}

proof fn lemma_spent_from(s: Seq<PendingView>, n: int, q: QueueView) -> (from: Seq<int>)
    requires
        0 <= n <= s.len(),
        s == q.pending,
        sound(q),
    ensures
        from.len() == spent(s, n).len(),
        forall|a: int|
            0 <= a < from.len() ==> 0 <= #[trigger] from[a] < n && spent(s, n)[a].event
                == s[from[a]].event && spent(s, n)[a].budget == s[from[a]].budget - 1,
        forall|a: int, b: int| 0 <= a < b < from.len() ==> #[trigger] from[a] < #[trigger] from[b],
        forall|i: int| 0 <= i < n ==> (#[trigger] from.contains(i) <==> s[i].budget > 1),
    decreases n,
{
    if n <= 0 {
        Seq::empty()
    } else {
        let front = lemma_spent_from(s, n - 1, q);
        let from = if s[n - 1].budget <= 1 {
            front
        } else {
            front.push(n - 1)
        };
        assert forall|i: int| 0 <= i < n implies (#[trigger] from.contains(i) <==> s[i].budget
            > 1) by {
            if i < n - 1 {
                if front.contains(i) {
                    let a = choose|a: int| 0 <= a < front.len() && front[a] == i;
                    assert(from[a] == i);
                }
                if from.contains(i) {
                    let a = choose|a: int| 0 <= a < from.len() && from[a] == i;
                    assert(front[a] == i);
                    assert(front.contains(i));
                }
            } else if s[i].budget > 1 {
                assert(from[front.len() as int] == i);
            }
        }
        from
    }
}

} // verus!
