//! The notification channel: a bounded status-reporting queue between the
//! executor and an external delivery loop.
//!
//! The queue has a fixed capacity and an explicit backpressure policy. Under
//! the default `Block` policy a send into a full queue hands the
//! notification back to the sender instead of dropping it: the sender is
//! expected to suspend and retry, so nothing is lost as long as the consumer
//! eventually drains the queue.

use crate::store::Status;
use vstd::prelude::*;

verus! {

/// Routing hint carried by every notification.
#[derive(Clone, Copy, Debug, PartialEq, Eq, Structural)]
pub enum Category {
    /// Operational status reports.
    Operations,
}

/// One status report: which item settled, how, and where to route the
/// report. Rendering it as text and carrying it to a sink is the delivery
/// layer's concern.
#[derive(Clone, Copy, Debug, PartialEq, Eq, Structural)]
pub enum Notification {
    Status { item_id: u64, status: Status, category: Category },
}

impl Notification {
    /// The settled item's id.
    pub open spec fn spec_item_id(self) -> u64 {
        match self {
            Notification::Status { item_id, .. } => item_id,
        }
    }

    /// The status the item settled to.
    pub open spec fn spec_status(self) -> Status {
        match self {
            Notification::Status { status, .. } => status,
        }
    }

    /// The routing hint.
    pub open spec fn spec_category(self) -> Category {
        match self {
            Notification::Status { category, .. } => category,
        }
    }

    pub fn item_id(&self) -> (r: u64)
        ensures
            r == self.spec_item_id(),
    {
        match self {
            Notification::Status { item_id, .. } => *item_id,
        }
    }

    pub fn status(&self) -> (r: Status)
        ensures
            r == self.spec_status(),
    {
        match self {
            Notification::Status { status, .. } => *status,
        }
    }

    pub fn category(&self) -> (r: Category)
        ensures
            r == self.spec_category(),
    {
        match self {
            Notification::Status { category, .. } => *category,
        }
    }
}

/// What a full queue does with one more notification.
#[derive(Clone, Copy, Debug, PartialEq, Eq, Structural)]
pub enum BackpressurePolicy {
    /// Hand the notification back; the sender suspends and retries.
    Block,
    /// Evict the oldest queued notification and enqueue the new one.
    DropOldest,
    /// Discard the new notification.
    DropNew,
}

/// How one send ended.
#[derive(Clone, Copy, Debug, PartialEq, Eq, Structural)]
pub enum SendOutcome {
    /// The notification was queued.
    Enqueued,
    /// The queue was full under `Block`: the notification comes back to the
    /// sender, which should retry once the consumer has drained.
    Rejected(Notification),
    /// The queue was full under `DropOldest`: this oldest notification was
    /// evicted to make room.
    DroppedOldest(Notification),
    /// The queue was full under `DropNew`: the new notification was
    /// discarded.
    DroppedNew(Notification),
}

/// Queue contents after offering `x` to a queue `q` of capacity `cap`.
pub open spec fn enqueue_step(
    p: BackpressurePolicy,
    cap: nat,
    q: Seq<Notification>,
    x: Notification,
) -> Seq<Notification> {
    if q.len() < cap {
        q.push(x)
    } else {
        match p {
            BackpressurePolicy::Block => q,
            BackpressurePolicy::DropOldest => q.drop_first().push(x),
            BackpressurePolicy::DropNew => q,
        }
    }
}

/// The notifications handed back to the sender by that same offer: one under
/// `Block` on a full queue, none otherwise.
pub open spec fn rejected_step(
    p: BackpressurePolicy,
    cap: nat,
    q: Seq<Notification>,
    x: Notification,
) -> Seq<Notification> {
    if q.len() < cap {
        Seq::empty()
    } else {
        match p {
            BackpressurePolicy::Block => seq![x],
            BackpressurePolicy::DropOldest => Seq::empty(),
            BackpressurePolicy::DropNew => Seq::empty(),
        }
    }
}

/// Queue contents after offering every notification of `xs` in order.
pub open spec fn enqueue_all(
    p: BackpressurePolicy,
    cap: nat,
    q: Seq<Notification>,
    xs: Seq<Notification>,
) -> Seq<Notification>
    decreases xs.len(),
{
    if xs.len() == 0 {
        q
    } else {
        enqueue_all(p, cap, enqueue_step(p, cap, q, xs[0]), xs.drop_first())
    }
}

/// The notifications handed back to the sender over that same run.
pub open spec fn rejected_all(
    p: BackpressurePolicy,
    cap: nat,
    q: Seq<Notification>,
    xs: Seq<Notification>,
) -> Seq<Notification>
    decreases xs.len(),
{
    if xs.len() == 0 {
        Seq::empty()
    } else {
        rejected_step(p, cap, q, xs[0]) + rejected_all(
            p,
            cap,
            enqueue_step(p, cap, q, xs[0]),
            xs.drop_first(),
        )
    }
}

/// Offering one more notification at the end of a run is one more step.
pub proof fn lemma_enqueue_all_snoc(
    p: BackpressurePolicy,
    cap: nat,
    q: Seq<Notification>,
    xs: Seq<Notification>,
    x: Notification,
)
    ensures
        enqueue_all(p, cap, q, xs.push(x)) == enqueue_step(p, cap, enqueue_all(p, cap, q, xs), x),
        rejected_all(p, cap, q, xs.push(x)) == rejected_all(p, cap, q, xs) + rejected_step(
            p,
            cap,
            enqueue_all(p, cap, q, xs),
            x,
        ),
    decreases xs.len(),
{
    if xs.len() == 0 {
        let ys = xs.push(x);
        assert(ys[0] == x);
        assert(ys.drop_first() =~= Seq::<Notification>::empty());
        let q1 = enqueue_step(p, cap, q, x);
        assert(enqueue_all(p, cap, q, ys) == enqueue_all(p, cap, q1, ys.drop_first()));
        assert(enqueue_all(p, cap, q1, ys.drop_first()) == q1);
        assert(enqueue_all(p, cap, q, xs) == q);
        assert(rejected_all(p, cap, q, ys) == rejected_step(p, cap, q, x) + rejected_all(
            p,
            cap,
            q1,
            ys.drop_first(),
        ));
        assert(rejected_all(p, cap, q1, ys.drop_first()) =~= Seq::<Notification>::empty());
        assert(rejected_all(p, cap, q, xs) == Seq::<Notification>::empty());
        assert(rejected_all(p, cap, q, xs) + rejected_step(p, cap, enqueue_all(p, cap, q, xs), x)
            =~= rejected_step(p, cap, q, x));
    } else {
        let ys = xs.push(x);
        let q1 = enqueue_step(p, cap, q, xs[0]);
        assert(ys[0] == xs[0]);
        assert(ys.drop_first() =~= xs.drop_first().push(x));
        lemma_enqueue_all_snoc(p, cap, q1, xs.drop_first(), x);
        assert(enqueue_all(p, cap, q, ys) == enqueue_all(p, cap, q1, ys.drop_first()));
        assert(enqueue_all(p, cap, q, xs) == enqueue_all(p, cap, q1, xs.drop_first()));
        assert(rejected_all(p, cap, q, ys) == rejected_step(p, cap, q, xs[0]) + rejected_all(
            p,
            cap,
            q1,
            ys.drop_first(),
        ));
        assert(rejected_all(p, cap, q, xs) == rejected_step(p, cap, q, xs[0]) + rejected_all(
            p,
            cap,
            q1,
            xs.drop_first(),
        ));
        assert(rejected_all(p, cap, q, ys) =~= rejected_all(p, cap, q, xs) + rejected_step(
            p,
            cap,
            enqueue_all(p, cap, q, xs),
            x,
        ));
    }
}

/// Law: under the blocking policy nothing is ever discarded. One offer
/// either queues the notification or hands it back unchanged with the queue
/// untouched, so queue-then-returned together hold exactly the old queue
/// plus the new notification.
pub proof fn lemma_block_send_no_loss(cap: nat, q: Seq<Notification>, x: Notification)
    ensures
        enqueue_step(BackpressurePolicy::Block, cap, q, x) + rejected_step(
            BackpressurePolicy::Block,
            cap,
            q,
            x,
        ) == q.push(x),
        q.len() >= cap ==> enqueue_step(BackpressurePolicy::Block, cap, q, x) == q
            && rejected_step(BackpressurePolicy::Block, cap, q, x) == seq![x],
{
    if q.len() < cap {
        assert(enqueue_step(BackpressurePolicy::Block, cap, q, x) + rejected_step(
            BackpressurePolicy::Block,
            cap,
            q,
            x,
        ) =~= q.push(x));
    } else {
        assert(enqueue_step(BackpressurePolicy::Block, cap, q, x) + rejected_step(
            BackpressurePolicy::Block,
            cap,
            q,
            x,
        ) =~= q.push(x));
    }
}

/// Law: under the blocking policy a whole run of sends preserves every
/// notification: what remains queued followed by what was handed back is
/// exactly the old queue followed by everything offered, in order.
pub proof fn lemma_block_run_no_loss(cap: nat, q: Seq<Notification>, xs: Seq<Notification>)
    ensures
        enqueue_all(BackpressurePolicy::Block, cap, q, xs) + rejected_all(
            BackpressurePolicy::Block,
            cap,
            q,
            xs,
        ) == q + xs,
    decreases xs.len(),
{
    let p = BackpressurePolicy::Block;
    if xs.len() == 0 {
        assert(enqueue_all(p, cap, q, xs) + rejected_all(p, cap, q, xs) =~= q + xs);
    } else {
        let q1 = enqueue_step(p, cap, q, xs[0]);
        lemma_block_run_no_loss(cap, q1, xs.drop_first());
        lemma_block_send_no_loss(cap, q, xs[0]);
        if q.len() < cap {
            assert(q1 =~= q.push(xs[0]));
            assert(rejected_step(p, cap, q, xs[0]) =~= Seq::<Notification>::empty());
            assert(enqueue_all(p, cap, q, xs) + rejected_all(p, cap, q, xs) =~= q1
                + xs.drop_first());
            assert(q1 + xs.drop_first() =~= q + xs);
        } else {
            assert(q1 == q);
            assert(enqueue_all(p, cap, q, xs) + rejected_all(p, cap, q, xs) =~= (enqueue_all(
                p,
                cap,
                q1,
                xs.drop_first(),
            ) + seq![xs[0]]) + rejected_all(p, cap, q1, xs.drop_first()));
            // the one rejected notification commutes past the rest of the run:
            // both sides list queue contents, then returns, in offer order
            lemma_block_rejection_prefix(cap, q1, xs.drop_first());
            assert((enqueue_all(p, cap, q1, xs.drop_first()) + seq![xs[0]]) + rejected_all(
                p,
                cap,
                q1,
                xs.drop_first(),
            ) =~= q + xs);
        }
    }
}

/// Under the blocking policy a full queue stays full, so once one offer is
/// handed back every later offer is handed back too: the run's returns are
/// the offers themselves whenever the queue starts at or over capacity.
pub proof fn lemma_block_rejection_prefix(cap: nat, q: Seq<Notification>, xs: Seq<Notification>)
    requires
        q.len() >= cap,
    ensures
        enqueue_all(BackpressurePolicy::Block, cap, q, xs) == q,
        rejected_all(BackpressurePolicy::Block, cap, q, xs) == xs,
    decreases xs.len(),
{
    let p = BackpressurePolicy::Block;
    if xs.len() == 0 {
        assert(rejected_all(p, cap, q, xs) =~= xs);
    } else {
        lemma_block_rejection_prefix(cap, q, xs.drop_first());
        assert(rejected_all(p, cap, q, xs) =~= xs);
    }
}

/// A bounded many-producer/one-consumer queue of notifications with an
/// explicit backpressure policy. Capacity is fixed at construction.
pub struct NotificationChannel {
    buf: Vec<Notification>,
    capacity: usize,
    policy: BackpressurePolicy,
}

/// Reference capacity used by `NotificationChannel::with_default_capacity`.
pub const DEFAULT_CAPACITY: usize = 32;

impl View for NotificationChannel {
    type V = Seq<Notification>;

    closed spec fn view(&self) -> Seq<Notification> {
        self.buf@
    }
}

impl NotificationChannel {
    pub closed spec fn spec_capacity(&self) -> nat {
        self.capacity as nat
    }

    pub closed spec fn spec_policy(&self) -> BackpressurePolicy {
        self.policy
    }

    pub open spec fn wf(&self) -> bool {
        self@.len() <= self.spec_capacity() && self.spec_capacity() >= 1
    }

    /// An empty channel of the given capacity and policy.
    pub fn new(capacity: usize, policy: BackpressurePolicy) -> (c: Self)
        requires
            capacity >= 1,
        ensures
            c.wf(),
            c@ == Seq::<Notification>::empty(),
            c.spec_capacity() == capacity,
            c.spec_policy() == policy,
    {
        let c = NotificationChannel { buf: Vec::new(), capacity, policy };
        proof {
            assert(c@ =~= Seq::<Notification>::empty());
        }
        c
    }

    /// An empty channel of the reference capacity, blocking when full.
    pub fn with_default_capacity() -> (c: Self)
        ensures
            c.wf(),
            c@ == Seq::<Notification>::empty(),
            c.spec_capacity() == DEFAULT_CAPACITY,
            c.spec_policy() == BackpressurePolicy::Block,
    {
        Self::new(DEFAULT_CAPACITY, BackpressurePolicy::Block)
    }

    /// How many notifications are queued.
    pub fn len(&self) -> (n: usize)
        ensures
            n == self@.len(),
    {
        self.buf.len()
    }

    /// Whether nothing is queued.
    pub fn is_empty(&self) -> (r: bool)
        ensures
            r == (self@.len() == 0),
    {
        self.buf.len() == 0
    }

    /// Whether the queue is at capacity.
    pub fn is_full(&self) -> (r: bool)
        ensures
            r == (self@.len() >= self.spec_capacity()),
    {
        self.buf.len() >= self.capacity
    }

    /// Offer one notification. When there is room it is queued at the back;
    /// on a full queue the policy decides: `Block` hands it back untouched,
    /// `DropOldest` evicts the front, `DropNew` discards the offer. The
    /// outcome names the notification affected, so a blocked sender can
    /// retry and nothing disappears silently.
    pub fn send(&mut self, x: Notification) -> (r: SendOutcome)
        requires
            old(self).wf(),
        ensures
            final(self).wf(),
            final(self).spec_capacity() == old(self).spec_capacity(),
            final(self).spec_policy() == old(self).spec_policy(),
            final(self)@ == enqueue_step(
                old(self).spec_policy(),
                old(self).spec_capacity(),
                old(self)@,
                x,
            ),
            old(self)@.len() < old(self).spec_capacity() ==> r == SendOutcome::Enqueued,
            old(self)@.len() >= old(self).spec_capacity() ==> r == (match old(
                self,
            ).spec_policy() {
                BackpressurePolicy::Block => SendOutcome::Rejected(x),
                BackpressurePolicy::DropOldest => SendOutcome::DroppedOldest(old(self)@[0]),
                BackpressurePolicy::DropNew => SendOutcome::DroppedNew(x),
            }),
            rejected_step(old(self).spec_policy(), old(self).spec_capacity(), old(self)@, x) == (
            if r is Rejected {
                seq![x]
            } else {
                Seq::<Notification>::empty()
            }),
    {
        if self.buf.len() < self.capacity {
            self.buf.push(x);
            SendOutcome::Enqueued
        } else {
            match self.policy {
                BackpressurePolicy::Block => SendOutcome::Rejected(x),
                BackpressurePolicy::DropOldest => {
                    let evicted = self.buf.remove(0);
                    self.buf.push(x);
                    proof {
                        assert(self@ =~= enqueue_step(
                            self.spec_policy(),
                            self.spec_capacity(),
                            old(self)@,
                            x,
                        ));
                    }
                    SendOutcome::DroppedOldest(evicted)
                },
                BackpressurePolicy::DropNew => SendOutcome::DroppedNew(x),
            }
        }
    }

    /// Take the oldest queued notification, if any.
    pub fn try_recv(&mut self) -> (r: Option<Notification>)
        requires
            old(self).wf(),
        ensures
            final(self).wf(),
            final(self).spec_capacity() == old(self).spec_capacity(),
            final(self).spec_policy() == old(self).spec_policy(),
            old(self)@.len() == 0 ==> r is None && final(self)@ == old(self)@,
            old(self)@.len() > 0 ==> r == Some(old(self)@[0]) && final(self)@ == old(
                self,
            )@.drop_first(),
    {
        if self.buf.len() == 0 {
            None
        } else {
            let x = self.buf.remove(0);
            proof {
                assert(self@ =~= old(self)@.drop_first());
            }
            Some(x)
        }
    }

    /// Empty the queue, returning everything in arrival order. What a
    /// consumer that keeps receiving until the queue is empty would see.
    pub fn drain(&mut self) -> (r: Vec<Notification>)
        requires
            old(self).wf(),
        ensures
            final(self).wf(),
            final(self).spec_capacity() == old(self).spec_capacity(),
            final(self).spec_policy() == old(self).spec_policy(),
            r@ == old(self)@,
            final(self)@ == Seq::<Notification>::empty(),
    {
        let mut out: Vec<Notification> = Vec::new();
        loop
            invariant
                self.wf(),
                self.spec_capacity() == old(self).spec_capacity(),
                self.spec_policy() == old(self).spec_policy(),
                out@ + self@ == old(self)@,
            ensures
                self.wf(),
                self.spec_capacity() == old(self).spec_capacity(),
                self.spec_policy() == old(self).spec_policy(),
                out@ == old(self)@,
                self@.len() == 0,
            decreases self@.len(),
        {
            match self.try_recv() {
                Some(x) => {
                    out.push(x);
                    proof {
                        assert(out@ + self@ =~= old(self)@);
                    }
                },
                None => {
                    proof {
                        assert(out@ =~= old(self)@);
                    }
                    break ;
                },
            }
        }
        out
    }
}

} // verus!
