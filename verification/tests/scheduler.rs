use dag_scheduler::OrderType;
use dag_scheduler::channel::{
    BackpressurePolicy, Category, Notification, NotificationChannel, SendOutcome,
};
use dag_scheduler::executor::{ExecutionStrategy, Outcome, process, status_of_outcome, summarize};
use dag_scheduler::planner::compute_levels;
use dag_scheduler::store::{AddCall, AddError, GraphStore, Status};

struct AlwaysSucceed;

impl ExecutionStrategy<u64> for AlwaysSucceed {
    fn execute(&self, _payload: &u64) -> Outcome {
        Outcome::Success
    }
}

struct FailValue {
    bad: u64,
}

impl ExecutionStrategy<u64> for FailValue {
    fn execute(&self, payload: &u64) -> Outcome {
        if *payload == self.bad {
            Outcome::Failure(String::from("bad payload"))
        } else {
            Outcome::Success
        }
    }
}

struct BuyOnly;

impl ExecutionStrategy<OrderType> for BuyOnly {
    fn execute(&self, payload: &OrderType) -> Outcome {
        match payload {
            OrderType::Buy => Outcome::Success,
            OrderType::Sell => Outcome::Failure(String::from("sell refused")),
        }
    }
}

fn diamond_store() -> GraphStore<u64> {
    let mut s: GraphStore<u64> = GraphStore::new();
    assert!(s.add(1, 10, vec![]).is_ok());
    assert!(s.add(2, 20, vec![]).is_ok());
    assert!(s.add(3, 30, vec![1]).is_ok());
    assert!(s.add(4, 40, vec![2, 3]).is_ok());
    s
}

#[test]
fn diamond_levels() {
    let s = diamond_store();
    let levels = compute_levels(&s);
    assert_eq!(levels, vec![vec![1, 2], vec![3], vec![4]]);
}

#[test]
fn diamond_item_four_is_level_three() {
    let mut s = diamond_store();
    let mut ch = NotificationChannel::new(32, BackpressurePolicy::Block);
    let _ = process(&mut s, &AlwaysSucceed, &mut ch);
    assert_eq!(s.get(4).unwrap().level, Some(3));
    assert_eq!(s.get(1).unwrap().level, Some(1));
    assert_eq!(s.get(2).unwrap().level, Some(1));
    assert_eq!(s.get(3).unwrap().level, Some(2));
}

#[test]
fn levels_partition_every_item_once() {
    let mut s: GraphStore<u64> = GraphStore::new();
    for id in 1u64..=6 {
        let deps: Vec<u64> = (1..id).collect();
        assert!(s.add(id, id, deps).is_ok());
    }
    let levels = compute_levels(&s);
    let mut seen: Vec<u64> = levels.iter().flatten().copied().collect();
    seen.sort();
    assert_eq!(seen, vec![1, 2, 3, 4, 5, 6]);
    // a full chain puts each item in its own level
    assert_eq!(levels.len(), 6);
}

#[test]
fn level_rule_matches_dependencies() {
    let mut s: GraphStore<u64> = GraphStore::new();
    assert!(s.add(7, 0, vec![]).is_ok());
    assert!(s.add(8, 0, vec![7]).is_ok());
    assert!(s.add(9, 0, vec![7, 8]).is_ok());
    let levels = compute_levels(&s);
    assert_eq!(levels, vec![vec![7], vec![8], vec![9]]);
}

#[test]
fn empty_store_has_no_levels() {
    let s: GraphStore<u64> = GraphStore::new();
    assert_eq!(compute_levels(&s), Vec::<Vec<u64>>::new());
}

#[test]
fn duplicate_id_rejected_store_unchanged() {
    let mut s = diamond_store();
    let before: Vec<(u64, Vec<u64>)> = s
        .snapshot()
        .iter()
        .map(|it| (it.id, it.dependencies.clone()))
        .collect();
    assert_eq!(s.add(3, 99, vec![1]), Err(AddError::DuplicateId));
    assert_eq!(s.len(), 4);
    let after: Vec<(u64, Vec<u64>)> = s
        .snapshot()
        .iter()
        .map(|it| (it.id, it.dependencies.clone()))
        .collect();
    assert_eq!(before, after);
}

#[test]
fn unknown_dependency_rejected_item_not_added() {
    let mut s: GraphStore<u64> = GraphStore::new();
    assert!(s.add(1, 0, vec![]).is_ok());
    assert_eq!(s.add(2, 0, vec![1, 99]), Err(AddError::UnknownDependency));
    assert_eq!(s.len(), 1);
    assert!(!s.contains(2));
    assert!(s.get(2).is_none());
}

#[test]
fn duplicate_wins_over_unknown_dependency() {
    let mut s: GraphStore<u64> = GraphStore::new();
    assert!(s.add(1, 0, vec![]).is_ok());
    assert_eq!(s.add(1, 0, vec![99]), Err(AddError::DuplicateId));
}

#[test]
fn get_and_contains() {
    let s = diamond_store();
    assert!(s.contains(1));
    assert!(!s.contains(5));
    let it = s.get(4).unwrap();
    assert_eq!(it.id, 4);
    assert_eq!(it.payload, 40);
    assert_eq!(it.dependencies, vec![2, 3]);
    assert_eq!(it.status, Status::Pending);
    assert_eq!(it.level, None);
}

#[test]
fn round_trip_rebuild_same_partition() {
    let calls = || {
        vec![
            AddCall { id: 1, payload: 0u64, dependencies: vec![] },
            AddCall { id: 2, payload: 0, dependencies: vec![] },
            AddCall { id: 3, payload: 0, dependencies: vec![1] },
            AddCall { id: 3, payload: 0, dependencies: vec![] }, // refused: duplicate
            AddCall { id: 4, payload: 0, dependencies: vec![2, 3] },
            AddCall { id: 5, payload: 0, dependencies: vec![9] }, // refused: unknown
        ]
    };
    let s1 = GraphStore::rebuild(calls());
    let s2 = GraphStore::rebuild(calls());
    assert_eq!(s1.len(), 4);
    assert_eq!(compute_levels(&s1), compute_levels(&s2));
    assert_eq!(compute_levels(&s1), vec![vec![1, 2], vec![3], vec![4]]);
}

#[test]
fn executor_all_succeed() {
    let mut s = diamond_store();
    let mut ch = NotificationChannel::with_default_capacity();
    let report = process(&mut s, &AlwaysSucceed, &mut ch);
    assert_eq!(report.summary.succeeded, 4);
    assert_eq!(report.summary.failed, 0);
    assert_eq!(report.summary.skipped, 0);
    assert!(report.undelivered.is_empty());
    for id in 1u64..=4 {
        assert_eq!(s.get(id).unwrap().status, Status::Succeeded);
    }
    let notes = ch.drain();
    assert_eq!(notes.len(), 4);
    // settlement order: level-major, insertion order within a level
    let ids: Vec<u64> = notes.iter().map(|n| n.item_id()).collect();
    assert_eq!(ids, vec![1, 2, 3, 4]);
    assert!(notes.iter().all(|n| n.status() == Status::Succeeded));
    assert!(notes.iter().all(|n| n.category() == Category::Operations));
}

#[test]
fn failure_skips_transitive_dependents() {
    // 1 fails; 3 depends on 1, 4 depends on 3 (and 2): both skipped.
    // 2 is independent and still succeeds.
    let mut s = diamond_store();
    let mut ch = NotificationChannel::with_default_capacity();
    let report = process(&mut s, &FailValue { bad: 10 }, &mut ch);
    assert_eq!(s.get(1).unwrap().status, Status::Failed);
    assert_eq!(s.get(2).unwrap().status, Status::Succeeded);
    assert_eq!(s.get(3).unwrap().status, Status::Skipped);
    assert_eq!(s.get(4).unwrap().status, Status::Skipped);
    assert_eq!(report.summary.succeeded, 1);
    assert_eq!(report.summary.failed, 1);
    assert_eq!(report.summary.skipped, 2);
    let notes = ch.drain();
    assert_eq!(notes[0], Notification::Status {
        item_id: 1,
        status: Status::Failed,
        category: Category::Operations,
    });
    assert_eq!(notes[3].item_id(), 4);
    assert_eq!(notes[3].status(), Status::Skipped);
}

#[test]
fn failed_leaf_skips_nothing_else() {
    let mut s: GraphStore<u64> = GraphStore::new();
    assert!(s.add(1, 1, vec![]).is_ok());
    assert!(s.add(2, 2, vec![]).is_ok());
    assert!(s.add(3, 3, vec![1, 2]).is_ok());
    let mut ch = NotificationChannel::with_default_capacity();
    let report = process(&mut s, &FailValue { bad: 3 }, &mut ch);
    assert_eq!(s.get(1).unwrap().status, Status::Succeeded);
    assert_eq!(s.get(2).unwrap().status, Status::Succeeded);
    assert_eq!(s.get(3).unwrap().status, Status::Failed);
    assert_eq!(report.summary.failed, 1);
    assert_eq!(report.summary.succeeded, 2);
    assert_eq!(report.summary.skipped, 0);
}

#[test]
fn executor_with_order_payloads() {
    let mut s: GraphStore<OrderType> = GraphStore::new();
    assert!(s.add(1, OrderType::Buy, vec![]).is_ok());
    assert!(s.add(2, OrderType::Sell, vec![]).is_ok());
    assert!(s.add(3, OrderType::Buy, vec![2]).is_ok());
    let mut ch = NotificationChannel::with_default_capacity();
    let report = process(&mut s, &BuyOnly, &mut ch);
    assert_eq!(s.get(1).unwrap().status, Status::Succeeded);
    assert_eq!(s.get(2).unwrap().status, Status::Failed);
    assert_eq!(s.get(3).unwrap().status, Status::Skipped);
    assert_eq!(report.summary.succeeded, 1);
    assert_eq!(report.summary.failed, 1);
    assert_eq!(report.summary.skipped, 1);
}

#[test]
fn summarize_counts_current_statuses() {
    let mut s = diamond_store();
    let sum = summarize(&s);
    assert_eq!((sum.succeeded, sum.failed, sum.skipped), (0, 0, 0));
    let mut ch = NotificationChannel::with_default_capacity();
    let report = process(&mut s, &AlwaysSucceed, &mut ch);
    let again = summarize(&s);
    assert_eq!(report.summary, again);
}

#[test]
fn outcome_maps_to_terminal_status() {
    assert_eq!(status_of_outcome(&Outcome::Success), Status::Succeeded);
    assert_eq!(
        status_of_outcome(&Outcome::Failure(String::from("boom"))),
        Status::Failed
    );
}

fn note(id: u64) -> Notification {
    Notification::Status { item_id: id, status: Status::Succeeded, category: Category::Operations }
}

#[test]
fn blocking_channel_returns_rather_than_drops() {
    let mut ch = NotificationChannel::new(2, BackpressurePolicy::Block);
    assert_eq!(ch.send(note(1)), SendOutcome::Enqueued);
    assert_eq!(ch.send(note(2)), SendOutcome::Enqueued);
    assert!(ch.is_full());
    // full queue: the sender gets the notification back, nothing is lost
    assert_eq!(ch.send(note(3)), SendOutcome::Rejected(note(3)));
    assert_eq!(ch.len(), 2);
    // the consumer drains, the sender retries, everything arrives
    assert_eq!(ch.try_recv(), Some(note(1)));
    assert_eq!(ch.send(note(3)), SendOutcome::Enqueued);
    assert_eq!(ch.drain(), vec![note(2), note(3)]);
    assert!(ch.is_empty());
}

#[test]
fn drop_oldest_channel_evicts_front() {
    let mut ch = NotificationChannel::new(2, BackpressurePolicy::DropOldest);
    assert_eq!(ch.send(note(1)), SendOutcome::Enqueued);
    assert_eq!(ch.send(note(2)), SendOutcome::Enqueued);
    assert_eq!(ch.send(note(3)), SendOutcome::DroppedOldest(note(1)));
    assert_eq!(ch.drain(), vec![note(2), note(3)]);
}

#[test]
fn drop_new_channel_discards_offer() {
    let mut ch = NotificationChannel::new(2, BackpressurePolicy::DropNew);
    assert_eq!(ch.send(note(1)), SendOutcome::Enqueued);
    assert_eq!(ch.send(note(2)), SendOutcome::Enqueued);
    assert_eq!(ch.send(note(3)), SendOutcome::DroppedNew(note(3)));
    assert_eq!(ch.drain(), vec![note(1), note(2)]);
}

#[test]
fn executor_reports_undelivered_on_full_blocking_channel() {
    let mut s: GraphStore<u64> = GraphStore::new();
    assert!(s.add(1, 1, vec![]).is_ok());
    assert!(s.add(2, 2, vec![1]).is_ok());
    assert!(s.add(3, 3, vec![2]).is_ok());
    let mut ch = NotificationChannel::new(1, BackpressurePolicy::Block);
    let report = process(&mut s, &AlwaysSucceed, &mut ch);
    // one notification fits; the rest come back to the caller intact
    let queued = ch.drain();
    assert_eq!(queued.len(), 1);
    assert_eq!(queued[0].item_id(), 1);
    assert_eq!(report.undelivered.len(), 2);
    let mut all: Vec<u64> = queued
        .iter()
        .chain(report.undelivered.iter())
        .map(|n| n.item_id())
        .collect();
    all.sort();
    assert_eq!(all, vec![1, 2, 3]);
}

#[test]
fn default_channel_capacity_is_reference_value() {
    let mut ch = NotificationChannel::with_default_capacity();
    for i in 0..32u64 {
        assert_eq!(ch.send(note(i)), SendOutcome::Enqueued);
    }
    assert_eq!(ch.send(note(99)), SendOutcome::Rejected(note(99)));
    assert_eq!(ch.len(), 32);
}
