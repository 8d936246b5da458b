use dispatcher::messages::{Create, Delete, ErrorKind, GetAll, Operation, OperationResult, Update};
use dispatcher::models::{NamePayload, UserPayload};
use dispatcher::pool::{SubmitOutcome, WorkerPool};

fn create_op(name: &str, age: i16) -> Operation {
    Operation::Create(Create::from_payload(UserPayload { name: String::from(name), age }))
}

fn expect_ticket(outcome: SubmitOutcome) -> u64 {
    match outcome {
        SubmitOutcome::Enqueued(t) => t,
        SubmitOutcome::Busy => panic!("expected the submission to be accepted"),
    }
}

/// Drive every worker until the mailbox is drained and all workers are idle.
fn drain(pool: &mut WorkerPool) {
    loop {
        let mut progressed = false;
        for i in 0..pool.workers.len() {
            if pool.worker_run_once(i) {
                progressed = true;
            }
        }
        if !progressed {
            break;
        }
    }
}

fn reply_for(pool: &WorkerPool, ticket: u64) -> &OperationResult {
    let mut found = None;
    for r in pool.replies.iter() {
        if r.ticket == ticket {
            assert!(found.is_none(), "a ticket must be answered at most once");
            found = Some(&r.result);
        }
    }
    found.expect("every processed ticket has exactly one reply")
}

#[test]
fn submit_hands_out_consecutive_fresh_tickets() {
    let mut pool = WorkerPool::start(2, None);
    let t0 = expect_ticket(pool.submit(create_op("ana", 30)));
    let t1 = expect_ticket(pool.submit(create_op("bo", 41)));
    assert_eq!(t0, 0);
    assert_eq!(t1, 1);
}

#[test]
fn concurrent_creates_yield_distinct_identifiers() {
    let mut pool = WorkerPool::start(3, None);
    let n: usize = 1000;
    let mut tickets = Vec::new();
    for k in 0..n {
        tickets.push(expect_ticket(pool.submit(create_op(&format!("user{}", k), 21))));
        // Workers drain concurrently with the submitting callers.
        if k % 2 == 0 {
            pool.worker_run_once(k % 3);
        }
    }
    drain(&mut pool);
    let list_ticket = expect_ticket(pool.submit(Operation::GetAll(GetAll)));
    drain(&mut pool);
    match reply_for(&pool, list_ticket) {
        OperationResult::RecordList(all) => {
            assert_eq!(all.len(), n);
            let mut ids: Vec<u128> = all.iter().map(|u| u.uuid).collect();
            ids.sort();
            ids.dedup();
            assert_eq!(ids.len(), n, "every record carries a distinct identifier");
        }
        _ => panic!("expected the full snapshot"),
    }
}

#[test]
fn rename_is_visible_once_acknowledged() {
    let mut pool = WorkerPool::start(2, None);
    let create_ticket = expect_ticket(pool.submit(create_op("ana", 30)));
    drain(&mut pool);
    let id = match reply_for(&pool, create_ticket) {
        OperationResult::Record(u) => u.uuid,
        _ => panic!("expected the persisted record back"),
    };
    let rename_ticket = expect_ticket(pool.submit(Operation::Update(Update::from_payload(
        id,
        NamePayload { name: String::from("anna") },
    ))));
    drain(&mut pool);
    match reply_for(&pool, rename_ticket) {
        OperationResult::Record(u) => assert_eq!(u.name, "anna"),
        _ => panic!("expected the renamed record back"),
    }
    let list_ticket = expect_ticket(pool.submit(Operation::GetAll(GetAll)));
    drain(&mut pool);
    match reply_for(&pool, list_ticket) {
        OperationResult::RecordList(all) => {
            let hit: Vec<_> = all.iter().filter(|u| u.uuid == id).collect();
            assert_eq!(hit.len(), 1);
            assert_eq!(hit[0].name, "anna");
        }
        _ => panic!("expected the full snapshot"),
    }
}

#[test]
fn delete_of_missing_record_is_count_zero() {
    let mut pool = WorkerPool::start(1, None);
    let t = expect_ticket(pool.submit(Operation::Delete(Delete { uuid: 424242 })));
    drain(&mut pool);
    match reply_for(&pool, t) {
        OperationResult::DeletedCount(n) => assert_eq!(*n, 0),
        _ => panic!("a delete of a missing record is a successful count of zero"),
    }
}

#[test]
fn rename_of_missing_record_is_not_found() {
    let mut pool = WorkerPool::start(1, None);
    let t = expect_ticket(pool.submit(Operation::Update(Update {
        uuid: 424242,
        name: String::from("zoe"),
    })));
    drain(&mut pool);
    match reply_for(&pool, t) {
        OperationResult::Failure(e) => {
            assert_eq!(*e, dispatcher::messages::ErrorKind::NotFound)
        }
        _ => panic!("a rename of a missing record is NotFound"),
    }
    // A failure never takes the worker down: the next item is served.
    let t2 = expect_ticket(pool.submit(create_op("ana", 30)));
    drain(&mut pool);
    assert!(matches!(reply_for(&pool, t2), OperationResult::Record(_)));
}

#[test]
fn full_bounded_mailbox_answers_busy_without_losing_items() {
    let capacity: usize = 2;
    let mut pool = WorkerPool::start(1, Some(capacity));
    let mut enqueued = 0;
    let mut busy = 0;
    let submissions = capacity + 1;
    for k in 0..submissions {
        match pool.submit(create_op(&format!("user{}", k), 21)) {
            SubmitOutcome::Enqueued(_) => enqueued += 1,
            SubmitOutcome::Busy => busy += 1,
        }
    }
    // Every submission is observed: accepted or refused, never lost.
    assert_eq!(enqueued + busy, submissions);
    assert_eq!(enqueued, capacity);
    assert_eq!(busy, 1);
    drain(&mut pool);
    assert_eq!(pool.replies.len(), capacity);
}

#[test]
fn burst_submission_accounts_for_every_item() {
    let mut pool = WorkerPool::start(1, Some(2));
    let ops = vec![create_op("ana", 30), create_op("bo", 41), create_op("cy", 52)];
    let outcomes = pool.submit_all(ops);
    assert_eq!(outcomes.len(), 3);
    let enqueued = outcomes.iter().filter(|o| matches!(o, SubmitOutcome::Enqueued(_))).count();
    let busy = outcomes.iter().filter(|o| matches!(o, SubmitOutcome::Busy)).count();
    assert_eq!(enqueued + busy, 3);
    assert_eq!(enqueued, 2);
    assert_eq!(busy, 1);
}

#[test]
fn burst_within_capacity_is_fully_accepted() {
    let mut pool = WorkerPool::start(1, None);
    let outcomes = pool.submit_all(vec![create_op("ana", 30), create_op("bo", 41)]);
    assert_eq!(outcomes.len(), 2);
    assert!(outcomes.iter().all(|o| matches!(o, SubmitOutcome::Enqueued(_))));
}

#[test]
fn burst_after_shutdown_is_all_busy() {
    let mut pool = WorkerPool::start(1, None);
    pool.shutdown();
    let outcomes = pool.submit_all(vec![create_op("ana", 30), create_op("bo", 41)]);
    assert_eq!(outcomes.len(), 2);
    assert!(outcomes.iter().all(|o| matches!(o, SubmitOutcome::Busy)));
}

#[test]
fn faulted_execution_is_answered_resource_error_and_worker_survives() {
    let mut pool = WorkerPool::start(1, None);
    let t = expect_ticket(pool.submit(create_op("ana", 30)));
    // The worker claims the item, then its resource breaks mid-execution.
    pool.worker_begin(0);
    pool.worker_fault(0);
    match reply_for(&pool, t) {
        OperationResult::Failure(e) => assert_eq!(*e, ErrorKind::ResourceError),
        _ => panic!("a faulted execution is answered ResourceError"),
    }
    // The store is untouched and the same worker serves the next item.
    let t2 = expect_ticket(pool.submit(Operation::GetAll(GetAll)));
    drain(&mut pool);
    match reply_for(&pool, t2) {
        OperationResult::RecordList(all) => assert!(all.is_empty()),
        _ => panic!("expected the full snapshot"),
    }
}

#[test]
fn shutdown_reports_every_unprocessed_ticket() {
    let mut pool = WorkerPool::start(1, None);
    let t0 = expect_ticket(pool.submit(create_op("ana", 30)));
    let t1 = expect_ticket(pool.submit(create_op("bo", 41)));
    let t2 = expect_ticket(pool.submit(create_op("cy", 52)));
    // One item is processed before the pool stops.
    assert!(pool.worker_run_once(0));
    let discarded = pool.shutdown();
    // The processed ticket was answered; the waiting ones are all reported.
    assert!(matches!(reply_for(&pool, t0), OperationResult::Record(_)));
    assert_eq!(discarded, vec![t1, t2]);
    // Nothing more is accepted and no worker moves again.
    assert!(matches!(pool.submit(create_op("dee", 63)), SubmitOutcome::Busy));
    assert!(!pool.worker_run_once(0));
    assert_eq!(pool.replies.len(), 1);
}

#[test]
fn idle_worker_with_empty_mailbox_does_nothing() {
    let mut pool = WorkerPool::start(2, None);
    assert!(!pool.worker_run_once(0));
    assert!(pool.replies.is_empty());
}
