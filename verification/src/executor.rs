//! The parallel executor: settles every item of a store, level by level.
//!
//! Levels run in strictly ascending order: no item of a level starts before
//! every item of the level below has settled. Within a level, an item whose
//! dependencies all succeeded is marked running and handed to the
//! caller-supplied strategy; an item with a failed or skipped dependency is
//! skipped without ever executing. Each settled item yields one notification
//! offered to the channel; the executor never waits for delivery, so under
//! the blocking policy a notification that finds the queue full is returned
//! in the run report for the caller to retry.

use crate::channel::{
    Category, Notification, NotificationChannel, SendOutcome, enqueue_all, rejected_all,
    lemma_enqueue_all_snoc,
};
use crate::planner::{
    level_of, level_values, lemma_level_bound, lemma_level_le_max, lemma_level_rule, max_level,
    max_level_upto,
};
use crate::store::{GraphStore, Status, StoreModel, store_wf};
use vstd::prelude::*;

verus! {

/// What a caller-supplied strategy reports for one executed payload.
pub enum Outcome {
    Success,
    Failure(String),
}

/// The per-item execution capability a caller hands to the executor. The
/// scheduler never inspects payload semantics; it only records the outcome.
/// An implementation must convert its own faults into `Failure` rather than
/// panic.
pub trait ExecutionStrategy<P> {
    fn execute(&self, payload: &P) -> Outcome;
}

/// The terminal status an outcome settles an item to.
pub fn status_of_outcome(o: &Outcome) -> (st: Status)
    ensures
        st == (match o {
            Outcome::Success => Status::Succeeded,
            Outcome::Failure(_) => Status::Failed,
        }),
{
    match o {
        Outcome::Success => Status::Succeeded,
        Outcome::Failure(_) => Status::Failed,
    }
}

/// Counts per terminal status after a run.
#[derive(Clone, Copy, Debug, PartialEq, Eq, Structural)]
pub struct Summary {
    pub succeeded: usize,
    pub failed: usize,
    pub skipped: usize,
}

/// What one run hands back: the counts, and the notifications the channel
/// would not take (only the blocking policy hands any back).
pub struct RunReport {
    pub summary: Summary,
    pub undelivered: Vec<Notification>,
}

/// A status an item can end a run with.
pub open spec fn is_terminal(st: Status) -> bool {
    st == Status::Succeeded || st == Status::Failed || st == Status::Skipped
}

/// A dependency with this status blocks its dependents.
pub open spec fn blocked_status(st: Status) -> bool {
    st == Status::Failed || st == Status::Skipped
}

/// Some dependency of item `i` ended failed or skipped.
pub open spec fn dep_blocked<P>(m: StoreModel<P>, i: int) -> bool {
    exists|k: int|
        0 <= k < m.edges[i].len() && blocked_status(
            m.items[(#[trigger] m.edges[i][k]) as int].status,
        )
}

/// Every dependency of item `i` ended succeeded.
pub open spec fn deps_all_succeeded<P>(m: StoreModel<P>, i: int) -> bool {
    forall|k: int|
        0 <= k < m.edges[i].len() ==> m.items[(#[trigger] m.edges[i][k]) as int].status
            == Status::Succeeded
}

/// Item `i` settled lawfully: it ended in a terminal status, it is skipped
/// exactly when some dependency failed or was skipped, and it only executed
/// (succeeded or failed) when every dependency succeeded.
pub open spec fn item_settled<P>(m: StoreModel<P>, i: int) -> bool {
    &&& is_terminal(m.items[i].status)
    &&& (m.items[i].status == Status::Skipped <==> dep_blocked(m, i))
    &&& (m.items[i].status != Status::Skipped ==> deps_all_succeeded(m, i))
}

/// Every item of the store settled lawfully.
pub open spec fn statuses_consistent<P>(m: StoreModel<P>) -> bool {
    forall|i: int| 0 <= i < m.items.len() ==> #[trigger] item_settled(m, i)
}

/// Item `i` depends on `j` through one or more edges, considering the first
/// `k` edges of `i`.
pub open spec fn dep_via<P>(m: StoreModel<P>, i: int, j: int, k: int) -> bool
    decreases i, k,
{
    if k <= 0 {
        false
    } else {
        let d = m.edges[i][k - 1] as int;
        if d == j {
            true
        } else if dep_via(m, i, j, k - 1) {
            true
        } else if 0 <= d < i {
            depends_on(m, d, j)
        } else {
            false
        }
    }
}

/// Item `i` transitively depends on item `j`.
pub open spec fn depends_on<P>(m: StoreModel<P>, i: int, j: int) -> bool
    decreases i, m.edges[i].len() + 1,
{
    if 0 <= i < m.items.len() {
        dep_via(m, i, j, m.edges[i].len() as int)
    } else {
        false
    }
}

/// A transitive dependency goes through some direct edge.
proof fn lemma_dep_via_witness<P>(m: StoreModel<P>, i: int, j: int, k: int)
    requires
        store_wf(m),
        0 <= i < m.items.len(),
        0 <= k <= m.edges[i].len(),
        dep_via(m, i, j, k),
    ensures
        exists|t: int|
            0 <= t < k && (((#[trigger] m.edges[i][t]) as int == j) || depends_on(
                m,
                m.edges[i][t] as int,
                j,
            )),
    decreases k,
{
    let d = m.edges[i][k - 1] as int;
    if d == j {
        assert(m.edges[i][k - 1] as int == j);
    } else if dep_via(m, i, j, k - 1) {
        lemma_dep_via_witness(m, i, j, k - 1);
    } else {
        assert(0 <= d < i && depends_on(m, d, j));
        assert((m.edges[i][k - 1] as int == j) || depends_on(m, m.edges[i][k - 1] as int, j));
    }
}

/// Law: if an item ends `Failed`, every transitive dependent of it ends
/// `Skipped` — never `Succeeded`, and never left pending or running.
pub proof fn lemma_failure_propagates<P>(m: StoreModel<P>, a: int, i: int)
    requires
        store_wf(m),
        statuses_consistent(m),
        0 <= a < m.items.len(),
        0 <= i < m.items.len(),
        m.items[a].status == Status::Failed,
        depends_on(m, i, a),
    ensures
        m.items[i].status == Status::Skipped,
    decreases i,
{
    lemma_dep_via_witness(m, i, a, m.edges[i].len() as int);
    let t = choose|t: int|
        0 <= t < m.edges[i].len() && (((#[trigger] m.edges[i][t]) as int == a) || depends_on(
            m,
            m.edges[i][t] as int,
            a,
        ));
    let d = m.edges[i][t] as int;
    assert(0 <= d < i);
    if d == a {
        assert(blocked_status(m.items[d].status));
    } else {
        assert(depends_on(m, d, a));
        lemma_failure_propagates(m, a, d);
        assert(blocked_status(m.items[d].status));
    }
    assert(dep_blocked(m, i));
    assert(item_settled(m, i));
}

/// The notification describing how item `i` settled.
pub open spec fn note_of<P>(m: StoreModel<P>, i: int) -> Notification {
    Notification::Status {
        item_id: m.items[i].id,
        status: m.items[i].status,
        category: Category::Operations,
    }
}

/// Notifications for the items among the first `n` whose level (per the
/// plan `m0`) is `lev`, in insertion order, with statuses read from `m`.
pub open spec fn notes_level_prefix<P>(
    m0: StoreModel<P>,
    m: StoreModel<P>,
    lev: nat,
    n: int,
) -> Seq<Notification>
    decreases n,
{
    if n <= 0 {
        Seq::empty()
    } else {
        let pre = notes_level_prefix(m0, m, lev, n - 1);
        if level_of(m0, n - 1) == lev {
            pre.push(note_of(m, n - 1))
        } else {
            pre
        }
    }
}

/// All notifications of levels 1 through `lev`, in settlement order:
/// level-major, insertion order within a level.
pub open spec fn notes_through_level<P>(
    m0: StoreModel<P>,
    m: StoreModel<P>,
    lev: nat,
) -> Seq<Notification>
    decreases lev,
{
    if lev == 0 {
        Seq::empty()
    } else {
        notes_through_level(m0, m, (lev - 1) as nat) + notes_level_prefix(
            m0,
            m,
            lev,
            m0.items.len() as int,
        )
    }
}

/// Every notification a run over plan `m0` emits, given the final statuses
/// `m`: one per item, in settlement order.
pub open spec fn run_notes<P>(m0: StoreModel<P>, m: StoreModel<P>) -> Seq<Notification> {
    notes_through_level(m0, m, max_level(m0))
}

/// The per-level notes read only the ids and statuses of that level's items.
proof fn lemma_notes_prefix_congruent<P>(
    m0: StoreModel<P>,
    m1: StoreModel<P>,
    m2: StoreModel<P>,
    lev: nat,
    n: int,
)
    requires
        forall|j: int|
            0 <= j < n && level_of(m0, j) == lev ==> (#[trigger] m1.items[j]).id == m2.items[j].id
                && m1.items[j].status == m2.items[j].status,
    ensures
        notes_level_prefix(m0, m1, lev, n) == notes_level_prefix(m0, m2, lev, n),
    decreases n,
{
    if n > 0 {
        lemma_notes_prefix_congruent(m0, m1, m2, lev, n - 1);
    }
}

/// The notes through a level read only the ids and statuses of items at or
/// below that level.
proof fn lemma_notes_through_congruent<P>(
    m0: StoreModel<P>,
    m1: StoreModel<P>,
    m2: StoreModel<P>,
    lev: nat,
)
    requires
        forall|j: int|
            0 <= j < m0.items.len() && level_of(m0, j) <= lev ==> (#[trigger] m1.items[j]).id
                == m2.items[j].id && m1.items[j].status == m2.items[j].status,
    ensures
        notes_through_level(m0, m1, lev) == notes_through_level(m0, m2, lev),
    decreases lev,
{
    if lev > 0 {
        lemma_notes_through_congruent(m0, m1, m2, (lev - 1) as nat);
        lemma_notes_prefix_congruent(m0, m1, m2, lev, m0.items.len() as int);
    }
}

/// Items among the first `n` holding this status.
pub open spec fn count_status_upto<P>(m: StoreModel<P>, st: Status, n: int) -> nat
    decreases n,
{
    if n <= 0 {
        0
    } else {
        count_status_upto(m, st, n - 1) + (if m.items[n - 1].status == st {
            1nat
        } else {
            0nat
        })
    }
}

/// Items of the store holding this status.
pub open spec fn count_status<P>(m: StoreModel<P>, st: Status) -> nat {
    count_status_upto(m, st, m.items.len() as int)
}

/// When every item is terminal the three terminal counts cover the store.
proof fn lemma_count_sum<P>(m: StoreModel<P>, n: int)
    requires
        0 <= n <= m.items.len(),
        forall|i: int| 0 <= i < n ==> is_terminal((#[trigger] m.items[i]).status),
    ensures
        count_status_upto(m, Status::Succeeded, n) + count_status_upto(m, Status::Failed, n)
            + count_status_upto(m, Status::Skipped, n) == n,
    decreases n,
{
    if n > 0 {
        lemma_count_sum(m, n - 1);
    }
}

/// Counts never exceed the positions counted.
proof fn lemma_count_le<P>(m: StoreModel<P>, st: Status, n: int)
    requires
        n >= 0,
    ensures
        count_status_upto(m, st, n) <= n,
    decreases n,
{
    if n > 0 {
        lemma_count_le(m, st, n - 1);
    }
}

/// Counts per terminal status of the store as it stands.
pub fn summarize<P>(store: &GraphStore<P>) -> (s: Summary)
    ensures
        s.succeeded == count_status(store@, Status::Succeeded),
        s.failed == count_status(store@, Status::Failed),
        s.skipped == count_status(store@, Status::Skipped),
{
    let ghost m = store@;
    let n = store.len();
    let mut sc: usize = 0;
    let mut fc: usize = 0;
    let mut kc: usize = 0;
    let mut i: usize = 0;
    while i < n
        invariant
            m == store@,
            n == m.items.len(),
            0 <= i <= n,
            sc == count_status_upto(m, Status::Succeeded, i as int),
            fc == count_status_upto(m, Status::Failed, i as int),
            kc == count_status_upto(m, Status::Skipped, i as int),
            sc <= i && fc <= i && kc <= i,
        decreases n - i,
    {
        match store.status_at(i) {
            Status::Succeeded => {
                sc = sc + 1;
            },
            Status::Failed => {
                fc = fc + 1;
            },
            Status::Skipped => {
                kc = kc + 1;
            },
            Status::Pending => {
            },
            Status::Running => {
            },
        }
        i += 1;
    }
    Summary { succeeded: sc, failed: fc, skipped: kc }
}

/// The shape of the store — ids, payloads, dependency lists and edges — is
/// untouched; only statuses and levels may differ.
pub open spec fn same_shape<P>(m0: StoreModel<P>, m: StoreModel<P>) -> bool {
    &&& m.items.len() == m0.items.len()
    &&& m.edges == m0.edges
    &&& forall|i: int|
        0 <= i < m0.items.len() ==> {
            &&& (#[trigger] m.items[i]).id == m0.items[i].id
            &&& m.items[i].payload == m0.items[i].payload
            &&& m.items[i].dependencies == m0.items[i].dependencies
        }
}

/// A one-item settlement leaves every other settled item settled: the
/// changed position is no dependency of theirs and not them.
proof fn lemma_item_settled_preserved<P>(m1: StoreModel<P>, m2: StoreModel<P>, i: int, j: int)
    requires
        store_wf(m1),
        m1.edges == m2.edges,
        m1.items.len() == m2.items.len(),
        0 <= j < m1.items.len(),
        0 <= i < m1.items.len(),
        j != i,
        forall|k: int| 0 <= k < m1.edges[j].len() ==> ((#[trigger] m1.edges[j][k]) as int) != i,
        forall|t: int|
            0 <= t < m1.items.len() && t != i ==> m2.items[t] == #[trigger] m1.items[t],
        item_settled(m1, j),
    ensures
        item_settled(m2, j),
{
    assert(m2.items[j] == m1.items[j]);
    assert forall|k: int| 0 <= k < m2.edges[j].len() implies m2.items[(#[trigger] m2.edges[j][k])
        as int].status == m1.items[m1.edges[j][k] as int].status by {
        assert(0 <= (m1.edges[j][k] as int) < j);
        assert((m1.edges[j][k] as int) != i);
        assert(m2.items[m1.edges[j][k] as int] == m1.items[m1.edges[j][k] as int]);
    }
    if dep_blocked(m1, j) {
        let k = choose|k: int|
            0 <= k < m1.edges[j].len() && blocked_status(
                m1.items[(#[trigger] m1.edges[j][k]) as int].status,
            );
        assert(blocked_status(m2.items[(m2.edges[j][k]) as int].status));
        assert(dep_blocked(m2, j));
    }
    if dep_blocked(m2, j) {
        let k = choose|k: int|
            0 <= k < m2.edges[j].len() && blocked_status(
                m2.items[(#[trigger] m2.edges[j][k]) as int].status,
            );
        assert(blocked_status(m1.items[(m1.edges[j][k]) as int].status));
        assert(dep_blocked(m1, j));
    }
}

/// Run the store to completion against a strategy, reporting through the
/// channel.
///
/// Levels are consumed in ascending order; level `k + 1` never begins
/// before every item of level `k` has settled. An item executes only when
/// every dependency succeeded; otherwise it is skipped without executing.
/// Exactly one notification per item is offered to the channel, in
/// settlement order; the queue takes them per its policy and whatever a
/// full blocking queue hands back is returned undelivered. The summary
/// counts each terminal status exactly.
#[verifier::rlimit(60)]
pub fn process<P, S: ExecutionStrategy<P>>(
    store: &mut GraphStore<P>,
    strategy: &S,
    channel: &mut NotificationChannel,
) -> (r: RunReport)
    requires
        old(store).wf(),
        old(channel).wf(),
        forall|i: int|
            0 <= i < old(store)@.items.len() ==> (#[trigger] old(store)@.items[i]).status
                == Status::Pending,
    ensures
        final(store).wf(),
        same_shape(old(store)@, final(store)@),
        statuses_consistent(final(store)@),
        forall|i: int|
            0 <= i < old(store)@.items.len() ==> (#[trigger] final(store)@.items[i]).level
                == Some(level_of(old(store)@, i) as usize),
        r.summary.succeeded == count_status(final(store)@, Status::Succeeded),
        r.summary.failed == count_status(final(store)@, Status::Failed),
        r.summary.skipped == count_status(final(store)@, Status::Skipped),
        r.summary.succeeded + r.summary.failed + r.summary.skipped == old(store)@.items.len(),
        final(channel).wf(),
        final(channel).spec_capacity() == old(channel).spec_capacity(),
        final(channel).spec_policy() == old(channel).spec_policy(),
        final(channel)@ == enqueue_all(
            old(channel).spec_policy(),
            old(channel).spec_capacity(),
            old(channel)@,
            run_notes(old(store)@, final(store)@),
        ),
        r.undelivered@ == rejected_all(
            old(channel).spec_policy(),
            old(channel).spec_capacity(),
            old(channel)@,
            run_notes(old(store)@, final(store)@),
        ),
{
    let ghost m0 = old(store)@;
    let ghost q0 = old(channel)@;
    let ghost pol = old(channel).spec_policy();
    let ghost cap = old(channel).spec_capacity();
    let n = store.len();
    let lv = level_values(store);
    let mut maxl: usize = 0;
    let mut i0: usize = 0;
    while i0 < n
        invariant
            store.wf(),
            m0 == store@,
            n == m0.items.len(),
            lv@.len() == n,
            forall|j: int| 0 <= j < n ==> (#[trigger] lv@[j]) as nat == level_of(m0, j),
            0 <= i0 <= n,
            maxl as nat == max_level_upto(m0, i0 as int),
            maxl <= n,
        decreases n - i0,
    {
        proof {
            lemma_level_bound(m0, i0 as int);
        }
        if lv[i0] > maxl {
            maxl = lv[i0];
        }
        i0 += 1;
    }
    let mut und: Vec<Notification> = Vec::new();
    proof {
        assert(maxl as nat == max_level(m0));
        assert forall|j: int| 0 <= j < n implies #[trigger] level_of(m0, j) >= 1 by {
            lemma_level_bound(m0, j);
        }
        assert(notes_through_level(m0, store@, 0nat) == Seq::<Notification>::empty());
        assert(enqueue_all(pol, cap, q0, Seq::<Notification>::empty()) == q0);
        assert(rejected_all(pol, cap, q0, Seq::<Notification>::empty()) == Seq::<
            Notification,
        >::empty());
        assert(und@ =~= Seq::<Notification>::empty());
    }
    let mut lev_idx: usize = 0;
    while lev_idx < maxl
        invariant
            store.wf(),
            channel.wf(),
            channel.spec_policy() == pol,
            channel.spec_capacity() == cap,
            n == m0.items.len(),
            m0 == old(store)@,
            q0 == old(channel)@,
            pol == old(channel).spec_policy(),
            cap == old(channel).spec_capacity(),
            store_wf(m0),
            forall|j: int|
                0 <= j < n ==> (#[trigger] m0.items[j]).status == Status::Pending,
            lv@.len() == n,
            forall|j: int| 0 <= j < n ==> (#[trigger] lv@[j]) as nat == level_of(m0, j),
            maxl as nat == max_level(m0),
            maxl <= n,
            0 <= lev_idx <= maxl,
            same_shape(m0, store@),
            forall|j: int|
                #![trigger level_of(m0, j)]
                0 <= j < n && level_of(m0, j) <= lev_idx as nat ==> item_settled(store@, j)
                    && store@.items[j].level == Some(level_of(m0, j) as usize),
            forall|j: int|
                #![trigger level_of(m0, j)]
                0 <= j < n && level_of(m0, j) > lev_idx as nat ==> store@.items[j]
                    == m0.items[j],
            channel@ == enqueue_all(
                pol,
                cap,
                q0,
                notes_through_level(m0, store@, lev_idx as nat),
            ),
            und@ == rejected_all(
                pol,
                cap,
                q0,
                notes_through_level(m0, store@, lev_idx as nat),
            ),
        decreases maxl - lev_idx,
    {
        let lev = lev_idx + 1;
        let mut i: usize = 0;
        while i < n
            invariant
                store.wf(),
                channel.wf(),
                channel.spec_policy() == pol,
                channel.spec_capacity() == cap,
                n == m0.items.len(),
                m0 == old(store)@,
                q0 == old(channel)@,
                pol == old(channel).spec_policy(),
                cap == old(channel).spec_capacity(),
                store_wf(m0),
                forall|j: int|
                    0 <= j < n ==> (#[trigger] m0.items[j]).status == Status::Pending,
                lv@.len() == n,
                forall|j: int| 0 <= j < n ==> (#[trigger] lv@[j]) as nat == level_of(m0, j),
                maxl as nat == max_level(m0),
                maxl <= n,
                0 <= lev_idx < maxl,
                lev == lev_idx + 1,
                0 <= i <= n,
                same_shape(m0, store@),
                forall|j: int|
                    #![trigger level_of(m0, j)]
                    0 <= j < n && (level_of(m0, j) <= lev_idx as nat || (level_of(m0, j)
                        == lev as nat && j < i)) ==> item_settled(store@, j)
                        && store@.items[j].level == Some(level_of(m0, j) as usize),
                forall|j: int|
                    #![trigger level_of(m0, j)]
                    0 <= j < n && (level_of(m0, j) > lev as nat || (level_of(m0, j) == lev as nat
                        && j >= i)) ==> store@.items[j] == m0.items[j],
                channel@ == enqueue_all(
                    pol,
                    cap,
                    q0,
                    notes_through_level(m0, store@, lev_idx as nat) + notes_level_prefix(
                        m0,
                        store@,
                        lev as nat,
                        i as int,
                    ),
                ),
                und@ == rejected_all(
                    pol,
                    cap,
                    q0,
                    notes_through_level(m0, store@, lev_idx as nat) + notes_level_prefix(
                        m0,
                        store@,
                        lev as nat,
                        i as int,
                    ),
                ),
            decreases n - i,
        {
            if lv[i] == lev {
                proof {
                    lemma_level_rule(m0, i as int);
                }
                let dn = store.dep_count(i);
                let mut all_ok = true;
                let mut k: usize = 0;
                while k < dn
                    invariant
                        store.wf(),
                        n == m0.items.len(),
                        store_wf(m0),
                        same_shape(m0, store@),
                        lv@.len() == n,
                        forall|j: int|
                            0 <= j < n ==> (#[trigger] lv@[j]) as nat == level_of(m0, j),
                        0 <= i < n,
                        level_of(m0, i as int) == lev as nat,
                        forall|t: int|
                            0 <= t < m0.edges[i as int].len() ==> level_of(
                                m0,
                                (#[trigger] m0.edges[i as int][t]) as int,
                            ) < lev as nat,
                        forall|j: int|
                            #![trigger level_of(m0, j)]
                            0 <= j < n && level_of(m0, j) < lev as nat ==> item_settled(
                                store@,
                                j,
                            ),
                        dn == m0.edges[i as int].len(),
                        0 <= k <= dn,
                        all_ok <==> (forall|t: int|
                            0 <= t < k ==> store@.items[(#[trigger] m0.edges[i as int][t])
                                as int].status == Status::Succeeded),
                    decreases dn - k,
                {
                    let d = store.dep_index(i, k);
                    let ds = store.status_at(d);
                    proof {
                        assert(level_of(m0, d as int) < lev as nat);
                        assert(item_settled(store@, d as int));
                        assert(is_terminal(store@.items[d as int].status));
                    }
                    match ds {
                        Status::Succeeded => {
                            proof {
                                if all_ok {
                                    assert forall|t: int| 0 <= t < k + 1 implies store@.items[(
                                    #[trigger] m0.edges[i as int][t]) as int].status
                                        == Status::Succeeded by {}
                                }
                            }
                        },
                        Status::Failed => {
                            all_ok = false;
                        },
                        Status::Skipped => {
                            all_ok = false;
                        },
                        Status::Pending => {
                            proof {
                                assert(false);
                            }
                        },
                        Status::Running => {
                            proof {
                                assert(false);
                            }
                        },
                    }
                    k += 1;
                }
                let ghost before = store@;
                let st: Status;
                if all_ok {
                    store.set_state(i, Status::Running, lev);
                    let oc = strategy.execute(&store.item_at(i).payload);
                    st = status_of_outcome(&oc);
                    store.set_state(i, st, lev);
                } else {
                    st = Status::Skipped;
                    store.set_state(i, st, lev);
                }
                let note = Notification::Status {
                    item_id: store.item_at(i).id,
                    status: st,
                    category: Category::Operations,
                };
                proof {
                    let cur = store@;
                    // the settled item is lawful
                    assert forall|t: int| 0 <= t < cur.edges[i as int].len() implies cur.items[(
                    #[trigger] cur.edges[i as int][t]) as int].status == before.items[cur.edges[
                    i as int][t] as int].status by {
                        assert(m0.edges[i as int][t] as int != i as int);
                    }
                    if all_ok {
                        assert(deps_all_succeeded(cur, i as int));
                        assert(!dep_blocked(cur, i as int));
                        assert(item_settled(cur, i as int));
                    } else {
                        let t = choose|t: int|
                            0 <= t < dn && before.items[(#[trigger] m0.edges[i as int][t])
                                as int].status != Status::Succeeded;
                        assert(level_of(m0, m0.edges[i as int][t] as int) < lev as nat);
                        assert(item_settled(before, m0.edges[i as int][t] as int));
                        assert(is_terminal(before.items[m0.edges[i as int][t] as int].status));
                        assert(m0.edges[i as int][t] as int != i as int);
                        assert(blocked_status(cur.items[cur.edges[i as int][t] as int].status));
                        assert(dep_blocked(cur, i as int));
                        assert(item_settled(cur, i as int));
                    }
                    // earlier settled items stay lawful
                    assert forall|j: int|
                        0 <= j < n && (level_of(m0, j) < lev as nat || (level_of(m0, j)
                            == lev as nat && j < i)) implies item_settled(cur, j)
                        && cur.items[j].level == Some(level_of(m0, j) as usize) by {
                        lemma_level_rule(m0, j);
                        assert forall|t: int|
                            0 <= t < m0.edges[j].len() implies ((#[trigger] m0.edges[j][t]) as int)
                            != i as int by {
                            assert(level_of(m0, m0.edges[j][t] as int) < level_of(m0, j));
                            assert(level_of(m0, i as int) == lev as nat);
                        }
                        lemma_item_settled_preserved(before, cur, i as int, j);
                    }
                    // the channel fold extends by exactly this note
                    assert(note == note_of(cur, i as int));
                    assert forall|j: int|
                        0 <= j < m0.items.len() && level_of(m0, j) <= lev_idx as nat implies (
                    #[trigger] before.items[j]).id == cur.items[j].id && before.items[j].status
                        == cur.items[j].status by {
                        assert(j != i as int);
                    }
                    assert forall|j: int|
                        0 <= j < i as int && level_of(m0, j) == lev as nat implies (
                    #[trigger] before.items[j]).id == cur.items[j].id && before.items[j].status
                        == cur.items[j].status by {
                        assert(j != i as int);
                    }
                    lemma_notes_through_congruent(m0, before, cur, lev_idx as nat);
                    lemma_notes_prefix_congruent(m0, before, cur, lev as nat, i as int);
                    assert(notes_level_prefix(m0, cur, lev as nat, i as int + 1)
                        == notes_level_prefix(m0, cur, lev as nat, i as int).push(note));
                    lemma_enqueue_all_snoc(
                        pol,
                        cap,
                        q0,
                        notes_through_level(m0, cur, lev_idx as nat) + notes_level_prefix(
                            m0,
                            cur,
                            lev as nat,
                            i as int,
                        ),
                        note,
                    );
                    assert((notes_through_level(m0, cur, lev_idx as nat) + notes_level_prefix(
                        m0,
                        cur,
                        lev as nat,
                        i as int,
                    )).push(note) =~= notes_through_level(m0, cur, lev_idx as nat)
                        + notes_level_prefix(m0, cur, lev as nat, i as int + 1));
                }
                match channel.send(note) {
                    SendOutcome::Rejected(x) => {
                        und.push(x);
                    },
                    _ => {},
                }
                proof {
                    assert(und@ =~= rejected_all(
                        pol,
                        cap,
                        q0,
                        notes_through_level(m0, store@, lev_idx as nat) + notes_level_prefix(
                            m0,
                            store@,
                            lev as nat,
                            i as int + 1,
                        ),
                    ));
                }
            } else {
                proof {
                    assert(level_of(m0, i as int) != lev as nat);
                    assert(notes_level_prefix(m0, store@, lev as nat, i as int + 1)
                        == notes_level_prefix(m0, store@, lev as nat, i as int));
                }
            }
            i += 1;
        }
        proof {
            assert(notes_through_level(m0, store@, lev as nat) == notes_through_level(
                m0,
                store@,
                lev_idx as nat,
            ) + notes_level_prefix(m0, store@, lev as nat, n as int));
        }
        lev_idx += 1;
    }
    proof {
        assert forall|j: int| 0 <= j < n implies #[trigger] level_of(m0, j) <= maxl as nat by {
            lemma_level_le_max(m0, n as int, j);
        }
        assert forall|j: int| 0 <= j < store@.items.len() implies #[trigger] item_settled(
            store@,
            j,
        ) by {
            assert(level_of(m0, j) <= maxl as nat);
        }
        assert(statuses_consistent(store@));
        assert forall|j: int| 0 <= j < n implies is_terminal(
            (#[trigger] store@.items[j]).status,
        ) by {
            assert(item_settled(store@, j));
        }
        lemma_count_sum(store@, n as int);
        lemma_count_le(store@, Status::Succeeded, n as int);
        lemma_count_le(store@, Status::Failed, n as int);
        lemma_count_le(store@, Status::Skipped, n as int);
    }
    let summary = summarize(store);
    RunReport { summary, undelivered: und }
}

} // verus!
