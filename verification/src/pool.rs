use vstd::prelude::*;
use crate::ids::fresh_uuid;
use crate::mailbox::{Mailbox, WorkItem, WorkItemView};
use crate::messages::{ErrorKind, Operation, OperationResult, OperationView, ResultView};
use crate::store::{spec_execute, Store};

verus! {

/// An exclusive, non-shareable handle to one blocking resource (in the
/// backing service, one database connection). A worker owns exactly one for
/// its whole lifetime; the type has no `Clone`, so exclusiveness is
/// ownership, not locking.
pub struct ResourceHandle {
    pub id: u64,
}

/// A worker's state machine: idle between items, executing exactly one work
/// item, or stopped for good after shutdown.
pub enum WorkerState {
    Idle,
    Executing(WorkItem),
    Stopped,
}

/// The mathematical view of a worker's state.
pub enum WorkerStateView {
    Idle,
    Executing(WorkItemView),
    Stopped,
}

impl View for WorkerState {
    type V = WorkerStateView;

    open spec fn view(&self) -> WorkerStateView {
        match self {
            WorkerState::Idle => WorkerStateView::Idle,
            WorkerState::Executing(w) => WorkerStateView::Executing(w@),
            WorkerState::Stopped => WorkerStateView::Stopped,
        }
    }
}

/// A worker: one exclusively owned resource handle and one state. Execution
/// is strictly serial per worker, so at most one operation ever runs against
/// its handle.
pub struct DbActor {
    pub resource: ResourceHandle,
    pub state: WorkerState,
}

/// Whether a worker is mid-execution.
pub open spec fn actor_executing(a: DbActor) -> bool {
    a.state@ is Executing
}

/// The item a worker is executing.
pub open spec fn actor_item(a: DbActor) -> WorkItemView {
    a.state@->Executing_0
}

impl DbActor {
    /// Whether this worker is between items.
    pub fn is_idle(&self) -> (b: bool)
        ensures
            b == (self.state@ is Idle),
    {
        match self.state {
            WorkerState::Idle => true,
            _ => false,
        }
    }

    /// Execute one message against the store this worker's handle reaches:
    /// the single exhaustive dispatch from operation to result.
    pub fn handle(&self, store: &mut Store, msg: &Operation, fresh_uuid: u128) -> (r:
        OperationResult)
        requires
            old(store).wf(),
        ensures
            final(store)@ == spec_execute(old(store)@, msg@, fresh_uuid).0,
            r@ == spec_execute(old(store)@, msg@, fresh_uuid).1,
            final(store).wf(),
    {
        store.execute(msg, fresh_uuid)
    }
}

/// One delivered result, correlated to its work item by ticket: the record
/// of the single-use reply channel having been written exactly once.
pub struct Reply {
    pub ticket: u64,
    pub result: OperationResult,
}

/// What `submit` answers immediately: the ticket of the enqueued work item,
/// or `Busy` when the pool is stopped or the mailbox is at capacity.
#[derive(Clone, Copy, PartialEq, Eq, Structural, Debug)]
pub enum SubmitOutcome {
    Enqueued(u64),
    Busy,
}

/// Ticket `t` waits somewhere in the queue `m`.
pub open spec fn pending_has(m: Seq<WorkItemView>, t: u64) -> bool {
    exists|k: int| 0 <= k < m.len() && m[k].ticket == t
}

/// Some worker in `w` is executing the item with ticket `t`.
pub open spec fn workers_have(w: Seq<DbActor>, t: u64) -> bool {
    exists|k: int| 0 <= k < w.len() && actor_executing(w[k]) && actor_item(w[k]).ticket == t
}

/// Ticket `t` has its reply among `r`.
pub open spec fn replies_have(r: Seq<Reply>, t: u64) -> bool {
    exists|k: int| 0 <= k < r.len() && r[k].ticket == t
}

/// Ticket `t` is accounted for somewhere: waiting, executing, answered, or
/// reported discarded.
pub open spec fn tracked_in(
    m: Seq<WorkItemView>,
    w: Seq<DbActor>,
    r: Seq<Reply>,
    d: Set<u64>,
    t: u64,
) -> bool {
    pending_has(m, t) || workers_have(w, t) || replies_have(r, t) || d.contains(t)
}

/// The queue holds each ticket at most once.
pub open spec fn pending_distinct(m: Seq<WorkItemView>) -> bool {
    forall|i: int, j: int| 0 <= i < j < m.len() ==> m[i].ticket != m[j].ticket
}

/// Each ticket is answered at most once.
pub open spec fn replies_distinct(r: Seq<Reply>) -> bool {
    forall|i: int, j: int| 0 <= i < j < r.len() ==> r[i].ticket != r[j].ticket
}

/// No two workers execute the same item.
pub open spec fn executing_distinct(w: Seq<DbActor>) -> bool {
    forall|i: int, j: int|
        0 <= i < w.len() && 0 <= j < w.len() && i != j && actor_executing(w[i]) && actor_executing(
            w[j],
        ) ==> actor_item(w[i]).ticket != actor_item(w[j]).ticket
}

/// No two workers share a resource handle.
pub open spec fn handles_exclusive(w: Seq<DbActor>) -> bool {
    forall|i: int, j: int| 0 <= i < j < w.len() ==> w[i].resource.id != w[j].resource.id
}

/// The dispatcher: a fixed set of workers, the shared bounded mailbox they
/// drain in arrival order, the store their handles reach, and the record of
/// every reply delivered and every ticket discarded at shutdown. Tickets
/// stand for the callers' single-use reply channels; `submitted` and
/// `discarded` are the ghost ledger over which the accounting laws are
/// stated.
pub struct WorkerPool {
    pub mailbox: Mailbox,
    pub workers: Vec<DbActor>,
    pub store: Store,
    pub next_ticket: u64,
    pub replies: Vec<Reply>,
    pub stopped: bool,
    pub submitted: Ghost<Set<u64>>,
    pub discarded: Ghost<Set<u64>>,
}

impl WorkerPool {
    /// How many workers the pool owns.
    pub open spec fn worker_count(self) -> int {
        self.workers@.len() as int
    }

    /// Ticket `t` is still waiting in the mailbox.
    pub open spec fn ticket_pending(self, t: u64) -> bool {
        pending_has(self.mailbox@, t)
    }

    /// Ticket `t` is being executed by some worker.
    pub open spec fn ticket_executing(self, t: u64) -> bool {
        workers_have(self.workers@, t)
    }

    /// Ticket `t` has received its reply.
    pub open spec fn ticket_replied(self, t: u64) -> bool {
        replies_have(self.replies@, t)
    }

    /// Ticket `t` was reported discarded at shutdown.
    pub open spec fn ticket_discarded(self, t: u64) -> bool {
        self.discarded@.contains(t)
    }

    /// No ticket is waiting and executing, or answered twice, and so on:
    /// each submitted ticket sits in exactly one place.
    pub open spec fn classes_disjoint(self) -> bool {
        &&& forall|t: u64| !(pending_has(self.mailbox@, t) && workers_have(self.workers@, t))
        &&& forall|t: u64| !(pending_has(self.mailbox@, t) && replies_have(self.replies@, t))
        &&& forall|t: u64| !(pending_has(self.mailbox@, t) && self.discarded@.contains(t))
        &&& forall|t: u64| !(workers_have(self.workers@, t) && replies_have(self.replies@, t))
        &&& forall|t: u64| !(workers_have(self.workers@, t) && self.discarded@.contains(t))
        &&& forall|t: u64| !(replies_have(self.replies@, t) && self.discarded@.contains(t))
    }

    /// The ledger is exact: the submitted tickets are precisely the ones
    /// accounted for, and all of them were drawn below the ticket counter.
    pub open spec fn accounting(self) -> bool {
        &&& forall|t: u64| self.submitted@.contains(t) ==> t < self.next_ticket
        &&& forall|t: u64|
            self.submitted@.contains(t) <==> tracked_in(
                self.mailbox@,
                self.workers@,
                self.replies@,
                self.discarded@,
                t,
            )
    }

    /// The pool's validity, preserved by every transition.
    pub open spec fn wf(self) -> bool {
        &&& self.mailbox.wf()
        &&& self.store.wf()
        &&& self.worker_count() >= 1
        &&& handles_exclusive(self.workers@)
        &&& pending_distinct(self.mailbox@)
        &&& replies_distinct(self.replies@)
        &&& executing_distinct(self.workers@)
        &&& self.classes_disjoint()
        &&& self.accounting()
        &&& (self.stopped ==> self.mailbox@.len() == 0)
    }

    /// Construct the pool: `worker_count` idle workers with pairwise
    /// distinct resource handles, an empty mailbox (unbounded, or with the
    /// positive bound `capacity`), an empty store, and a clean ledger. There
    /// is no partial pool: the external acquisition of the real handles
    /// either succeeds for every worker or the process does not start.
    pub fn start(worker_count: usize, capacity: Option<usize>) -> (p: WorkerPool)
        requires
            worker_count >= 1,
            (match capacity {
                Option::Some(c) => c >= 1,
                Option::None => true,
            }),
        ensures
            p.wf(),
            p.worker_count() == worker_count,
            forall|i: int| 0 <= i < p.worker_count() ==> p.workers@[i].state@ is Idle,
            p.mailbox@ == Seq::<WorkItemView>::empty(),
            p.mailbox.capacity == capacity,
            p.store@ == Seq::<crate::models::UserView>::empty(),
            p.replies@ == Seq::<Reply>::empty(),
            !p.stopped,
            p.next_ticket == 0,
            p.submitted@ == Set::<u64>::empty(),
            p.discarded@ == Set::<u64>::empty(),
    {
        let mut workers: Vec<DbActor> = Vec::new();
        let mut i: usize = 0;
        while i < worker_count
            invariant
                i <= worker_count,
                workers@.len() == i,
                forall|k: int| 0 <= k < i ==> workers@[k].resource.id == k,
                forall|k: int| 0 <= k < i ==> workers@[k].state@ is Idle,
            decreases worker_count - i,
        {
            workers.push(
                DbActor { resource: ResourceHandle { id: i as u64 }, state: WorkerState::Idle },
            );
            i = i + 1;
        }
        let p = WorkerPool {
            mailbox: Mailbox::new(capacity),
            workers,
            store: Store::new(),
            next_ticket: 0,
            replies: Vec::new(),
            stopped: false,
            submitted: Ghost(Set::empty()),
            discarded: Ghost(Set::empty()),
        };
        proof {
            assert forall|t: u64|
                !tracked_in(p.mailbox@, p.workers@, p.replies@, p.discarded@, t) by {
                assert(!pending_has(p.mailbox@, t));
                assert(forall|k: int| 0 <= k < p.workers@.len() ==> !actor_executing(p.workers@[k]));
                assert(!workers_have(p.workers@, t));
                assert(!replies_have(p.replies@, t));
            }
        }
        p
    }

    /// Hand one operation to the pool. The caller gets a fresh ticket back
    /// at once when the item joins the mailbox — the operation itself never
    /// runs in the caller's context — and `Busy` exactly when the pool is
    /// stopped or the mailbox is at its bound, in which case nothing was
    /// enqueued and the pool is as it was.
    pub fn submit(&mut self, op: Operation) -> (r: SubmitOutcome)
        requires
            old(self).wf(),
            old(self).next_ticket < u64::MAX,
        ensures
            final(self).wf(),
            match r {
                SubmitOutcome::Enqueued(t) => {
                    &&& t == old(self).next_ticket
                    &&& !old(self).stopped
                    &&& !old(self).mailbox.is_full()
                    &&& final(self).mailbox@ == old(self).mailbox@.push(
                        (WorkItemView { ticket: t, op: op@ }),
                    )
                    &&& final(self).mailbox.capacity == old(self).mailbox.capacity
                    &&& final(self).next_ticket == t + 1
                    &&& final(self).submitted@ == old(self).submitted@.insert(t)
                    &&& final(self).workers == old(self).workers
                    &&& final(self).store == old(self).store
                    &&& final(self).replies == old(self).replies
                    &&& final(self).stopped == old(self).stopped
                    &&& final(self).discarded == old(self).discarded
                },
                SubmitOutcome::Busy => {
                    &&& (old(self).stopped || old(self).mailbox.is_full())
                    &&& *final(self) == *old(self)
                },
            },
    {
        if self.stopped {
            return SubmitOutcome::Busy;
        }
        let t = self.next_ticket;
        let ok = self.mailbox.enqueue(WorkItem { ticket: t, op });
        if ok {
            self.next_ticket = t + 1;
            proof {
                self.submitted@ = self.submitted@.insert(t);
                assert(self.mailbox@.drop_last() =~= old(self).mailbox@);
                lemma_submit_preserves_wf(*old(self), *self, t);
            }
            SubmitOutcome::Enqueued(t)
        } else {
            SubmitOutcome::Busy
        }
    }

    /// Hand a burst of operations to the pool in order, observing one
    /// outcome for each: no submission is lost silently, the accepted ones
    /// are exactly the growth of the mailbox, acceptance is owed for
    /// exactly the room the bound leaves (every submission, when
    /// unbounded), and a burst larger than that room is answered with at
    /// least one `Busy`. A stopped pool accepts nothing.
    pub fn submit_all(&mut self, ops: Vec<Operation>) -> (outcomes: Vec<SubmitOutcome>)
        requires
            old(self).wf(),
            old(self).next_ticket + ops@.len() <= u64::MAX,
        ensures
            final(self).wf(),
            outcomes@.len() == ops@.len(),
            final(self).mailbox.capacity == old(self).mailbox.capacity,
            count_enqueued(outcomes@) == final(self).mailbox@.len() - old(self).mailbox@.len(),
            old(self).stopped ==> count_enqueued(outcomes@) == 0,
            !old(self).stopped ==> count_enqueued(outcomes@) == (match old(
                self,
            ).mailbox.capacity {
                Option::Some(c) => if old(self).mailbox@.len() + ops@.len() <= c {
                    ops@.len() as int
                } else {
                    c - old(self).mailbox@.len()
                },
                Option::None => ops@.len() as int,
            }),
            (match old(self).mailbox.capacity {
                Option::Some(c) => old(self).mailbox@.len() + ops@.len() > c
                    ==> exists|k: int| 0 <= k < outcomes@.len() && outcomes@[k] is Busy,
                Option::None => true,
            }),
    {
        let ghost total = ops@.len();
        let mut remaining = ops;
        let mut outcomes: Vec<SubmitOutcome> = Vec::new();
        while remaining.len() > 0
            invariant
                self.wf(),
                outcomes@.len() + remaining@.len() == total,
                self.next_ticket <= old(self).next_ticket + outcomes@.len(),
                old(self).next_ticket + total <= u64::MAX,
                count_enqueued(outcomes@) == self.mailbox@.len() - old(self).mailbox@.len(),
                self.mailbox.capacity == old(self).mailbox.capacity,
                self.stopped == old(self).stopped,
                old(self).stopped ==> count_enqueued(outcomes@) == 0,
                !old(self).stopped ==> count_enqueued(outcomes@) == (match old(
                    self,
                ).mailbox.capacity {
                    Option::Some(c) => if old(self).mailbox@.len() + outcomes@.len() <= c {
                        outcomes@.len() as int
                    } else {
                        c - old(self).mailbox@.len()
                    },
                    Option::None => outcomes@.len() as int,
                }),
            decreases remaining@.len(),
        {
            let ghost seen = outcomes@;
            let op = remaining.remove(0);
            let r = self.submit(op);
            outcomes.push(r);
            proof {
                lemma_count_enqueued_push(seen, r);
                assert(outcomes@.drop_last() =~= seen);
            }
        }
        proof {
            if let Option::Some(c) = self.mailbox.capacity {
                if old(self).mailbox@.len() + total > c {
                    assert(self.mailbox@.len() <= c);
                    assert(count_enqueued(outcomes@) < outcomes@.len() as int);
                    lemma_low_count_means_busy(outcomes@);
                }
            }
        }
        outcomes
    }

    /// A waiting worker claims the item at the front of the mailbox and
    /// turns to executing it. Nothing else moves: the claim only carries the
    /// item from the queue to the worker.
    pub fn worker_begin(&mut self, i: usize)
        requires
            old(self).wf(),
            i < old(self).worker_count(),
            old(self).workers@[i as int].state@ is Idle,
            old(self).mailbox@.len() > 0,
        ensures
            final(self).wf(),
            final(self).mailbox@ == old(self).mailbox@.drop_first(),
            final(self).mailbox.capacity == old(self).mailbox.capacity,
            final(self).workers@.len() == old(self).workers@.len(),
            final(self).workers@[i as int].state@ == WorkerStateView::Executing(
                old(self).mailbox@[0],
            ),
            final(self).workers@[i as int].resource == old(self).workers@[i as int].resource,
            forall|j: int|
                0 <= j < old(self).worker_count() && j != i ==> final(self).workers@[j] == old(
                    self,
                ).workers@[j],
            final(self).store == old(self).store,
            final(self).replies == old(self).replies,
            final(self).next_ticket == old(self).next_ticket,
            final(self).stopped == old(self).stopped,
            final(self).submitted == old(self).submitted,
            final(self).discarded == old(self).discarded,
    {
        match self.mailbox.dequeue() {
            Option::Some(it) => {
                let mut claimed = WorkerState::Executing(it);
                core::mem::swap(&mut self.workers[i].state, &mut claimed);
                proof {
                    lemma_begin_preserves_wf(*old(self), *self, i as int);
                }
            },
            Option::None => {
                proof {
                    assert(false);
                }
            },
        }
    }

    /// The worker finishes its claimed item: the operation runs against the
    /// store its handle reaches, the reply channel is written exactly once,
    /// and the worker returns to idle — or stops, when shutdown has been
    /// requested meanwhile. `fresh_uuid` is the identifier a create assigns.
    pub fn worker_finish(&mut self, i: usize, fresh_uuid: u128)
        requires
            old(self).wf(),
            i < old(self).worker_count(),
            old(self).workers@[i as int].state@ is Executing,
        ensures
            final(self).wf(),
            ({
                let item = actor_item(old(self).workers@[i as int]);
                let step = spec_execute(old(self).store@, item.op, fresh_uuid);
                &&& final(self).store@ == step.0
                &&& final(self).replies@.drop_last() == old(self).replies@
                &&& final(self).replies@.len() == old(self).replies@.len() + 1
                &&& final(self).replies@.last().ticket == item.ticket
                &&& final(self).replies@.last().result@ == step.1
            }),
            final(self).workers@.len() == old(self).workers@.len(),
            final(self).workers@[i as int].state@ == (if old(self).stopped {
                WorkerStateView::Stopped
            } else {
                WorkerStateView::Idle
            }),
            final(self).workers@[i as int].resource == old(self).workers@[i as int].resource,
            forall|j: int|
                0 <= j < old(self).worker_count() && j != i ==> final(self).workers@[j] == old(
                    self,
                ).workers@[j],
            final(self).mailbox == old(self).mailbox,
            final(self).next_ticket == old(self).next_ticket,
            final(self).stopped == old(self).stopped,
            final(self).submitted == old(self).submitted,
            final(self).discarded == old(self).discarded,
    {
        let mut taken = if self.stopped {
            WorkerState::Stopped
        } else {
            WorkerState::Idle
        };
        core::mem::swap(&mut self.workers[i].state, &mut taken);
        match taken {
            WorkerState::Executing(item) => {
                let result = self.store.execute(&item.op, fresh_uuid);
                self.replies.push(Reply { ticket: item.ticket, result });
                proof {
                    assert(self.replies@.drop_last() =~= old(self).replies@);
                    lemma_finish_preserves_wf(*old(self), *self, i as int);
                }
            },
            _ => {
                proof {
                    assert(false);
                }
            },
        }
    }

    /// The worker's claimed item faults mid-execution: the underlying
    /// resource broke, the surrounding runtime caught it, and the fault is
    /// converted to data, never raised across the worker boundary — the
    /// reply channel is written exactly once with `Failure(ResourceError)`,
    /// the store is untouched, and the worker returns to idle, still able
    /// to serve subsequent items (or stops, when shutdown was requested
    /// meanwhile).
    pub fn worker_fault(&mut self, i: usize)
        requires
            old(self).wf(),
            i < old(self).worker_count(),
            old(self).workers@[i as int].state@ is Executing,
        ensures
            final(self).wf(),
            final(self).store == old(self).store,
            final(self).replies@.drop_last() == old(self).replies@,
            final(self).replies@.len() == old(self).replies@.len() + 1,
            final(self).replies@.last().ticket == actor_item(old(self).workers@[i as int]).ticket,
            final(self).replies@.last().result@ == ResultView::Failure(ErrorKind::ResourceError),
            final(self).workers@.len() == old(self).workers@.len(),
            final(self).workers@[i as int].state@ == (if old(self).stopped {
                WorkerStateView::Stopped
            } else {
                WorkerStateView::Idle
            }),
            final(self).workers@[i as int].resource == old(self).workers@[i as int].resource,
            forall|j: int|
                0 <= j < old(self).worker_count() && j != i ==> final(self).workers@[j] == old(
                    self,
                ).workers@[j],
            final(self).mailbox == old(self).mailbox,
            final(self).next_ticket == old(self).next_ticket,
            final(self).stopped == old(self).stopped,
            final(self).submitted == old(self).submitted,
            final(self).discarded == old(self).discarded,
    {
        let mut taken = if self.stopped {
            WorkerState::Stopped
        } else {
            WorkerState::Idle
        };
        core::mem::swap(&mut self.workers[i].state, &mut taken);
        match taken {
            WorkerState::Executing(item) => {
                let result = OperationResult::Failure(ErrorKind::ResourceError);
                self.replies.push(Reply { ticket: item.ticket, result });
                proof {
                    assert(self.replies@.drop_last() =~= old(self).replies@);
                    lemma_finish_preserves_wf(*old(self), *self, i as int);
                }
            },
            _ => {
                proof {
                    assert(false);
                }
            },
        }
    }

    /// One scheduling step of worker `i`, as the surrounding runtime drives
    /// it: if the worker is idle and an item is waiting, claim the front
    /// item, draw a fresh identifier for a possible create, and finish it;
    /// otherwise do nothing. Returns whether an item was processed.
    pub fn worker_run_once(&mut self, i: usize) -> (did: bool)
        requires
            old(self).wf(),
            i < old(self).worker_count(),
        ensures
            final(self).wf(),
            did == (old(self).workers@[i as int].state@ is Idle && old(self).mailbox@.len() > 0),
            !did ==> *final(self) == *old(self),
            did ==> ({
                let item = old(self).mailbox@[0];
                &&& final(self).mailbox@ == old(self).mailbox@.drop_first()
                &&& final(self).mailbox.capacity == old(self).mailbox.capacity
                &&& final(self).replies@.len() == old(self).replies@.len() + 1
                &&& final(self).replies@.drop_last() == old(self).replies@
                &&& final(self).replies@.last().ticket == item.ticket
                &&& exists|fresh: u128|
                    final(self).store@ == spec_execute(old(self).store@, item.op, fresh).0
                        && final(self).replies@.last().result@ == spec_execute(
                        old(self).store@,
                        item.op,
                        fresh,
                    ).1
                &&& final(self).workers@.len() == old(self).workers@.len()
                &&& final(self).workers@[i as int].state@ is Idle
                &&& forall|j: int|
                    0 <= j < old(self).worker_count() && j != i ==> final(self).workers@[j] == old(
                        self,
                    ).workers@[j]
                &&& final(self).next_ticket == old(self).next_ticket
                &&& final(self).stopped == old(self).stopped
                &&& final(self).submitted == old(self).submitted
                &&& final(self).discarded == old(self).discarded
            }),
    {
        let idle = self.workers[i].is_idle();
        let waiting = self.mailbox.len() > 0;
        if idle && waiting {
            self.worker_begin(i);
            let fresh = fresh_uuid();
            self.worker_finish(i, fresh);
            proof {
                let item = old(self).mailbox@[0];
                assert(self.store@ == spec_execute(old(self).store@, item.op, fresh).0
                    && self.replies@.last().result@ == spec_execute(
                    old(self).store@,
                    item.op,
                    fresh,
                ).1);
            }
            true
        } else {
            false
        }
    }

    /// The caller's side of the reply channel: the position of the reply
    /// delivered for `ticket`, if one has been delivered yet. With the
    /// pool's validity it is unique.
    pub fn find_reply(&self, ticket: u64) -> (r: Option<usize>)
        ensures
            match r {
                Option::Some(i) => i < self.replies@.len() && self.replies@[i as int].ticket
                    == ticket,
                Option::None => !replies_have(self.replies@, ticket),
            },
    {
        let n = self.replies.len();
        let mut i: usize = 0;
        while i < n
            invariant
                n == self.replies@.len(),
                i <= n,
                forall|k: int| 0 <= k < i ==> self.replies@[k].ticket != ticket,
            decreases n - i,
        {
            if self.replies[i].ticket == ticket {
                return Option::Some(i);
            }
            i = i + 1;
        }
        Option::None
    }

    /// Stop the pool: no further submission is accepted, every item still
    /// waiting in the mailbox is discarded and its ticket reported back in
    /// arrival order, and idle workers stop for good. A worker caught
    /// mid-execution finishes its item first and `worker_finish` then parks
    /// it at `Stopped` — so every enqueued item is either answered or named
    /// in the returned list, and no caller waits forever.
    pub fn shutdown(&mut self) -> (discarded_now: Vec<u64>)
        requires
            old(self).wf(),
        ensures
            final(self).wf(),
            final(self).stopped,
            final(self).mailbox@ == Seq::<WorkItemView>::empty(),
            final(self).mailbox.capacity == old(self).mailbox.capacity,
            discarded_now@ == old(self).mailbox@.map_values(|w: WorkItemView| w.ticket),
            final(self).discarded@ == old(self).discarded@.union(
                Set::new(|t: u64| pending_has(old(self).mailbox@, t)),
            ),
            final(self).workers@.len() == old(self).workers@.len(),
            forall|j: int|
                0 <= j < old(self).worker_count() ==> final(self).workers@[j].resource == old(
                    self,
                ).workers@[j].resource,
            forall|j: int|
                0 <= j < old(self).worker_count() ==> final(self).workers@[j].state@ == (if old(
                    self,
                ).workers@[j].state@ is Idle {
                    WorkerStateView::Stopped
                } else {
                    old(self).workers@[j].state@
                }),
            final(self).store == old(self).store,
            final(self).replies == old(self).replies,
            final(self).next_ticket == old(self).next_ticket,
            final(self).submitted == old(self).submitted,
    {
        self.stopped = true;
        let ghost pre = *old(self);
        let mut discarded_now: Vec<u64> = Vec::new();
        proof {
            assert(self.discarded@ =~= pre.discarded@.union(
                Set::new(
                    |t: u64|
                        exists|k: int| 0 <= k < discarded_now@.len() && pre.mailbox@[k].ticket == t,
                ),
            ));
        }
        while self.mailbox.len() > 0
            invariant
                discarded_now@.len() <= pre.mailbox@.len(),
                self.mailbox@ == pre.mailbox@.subrange(
                    discarded_now@.len() as int,
                    pre.mailbox@.len() as int,
                ),
                self.mailbox.capacity == pre.mailbox.capacity,
                forall|k: int|
                    0 <= k < discarded_now@.len() ==> discarded_now@[k] == pre.mailbox@[k].ticket,
                self.discarded@ == pre.discarded@.union(
                    Set::new(
                        |t: u64|
                            exists|k: int|
                                0 <= k < discarded_now@.len() && pre.mailbox@[k].ticket == t,
                    ),
                ),
                self.workers == pre.workers,
                self.store == pre.store,
                self.replies == pre.replies,
                self.next_ticket == pre.next_ticket,
                self.stopped,
                self.submitted == pre.submitted,
            decreases self.mailbox@.len(),
        {
            let ghost before_queue = self.mailbox@;
            let ghost taken = discarded_now@.len();
            match self.mailbox.dequeue() {
                Option::Some(it) => {
                    discarded_now.push(it.ticket);
                    proof {
                        self.discarded@ = self.discarded@.insert(it.ticket);
                        assert(self.mailbox@ =~= pre.mailbox@.subrange(
                            discarded_now@.len() as int,
                            pre.mailbox@.len() as int,
                        ));
                        assert(pre.mailbox@[taken as int].ticket == it.ticket);
                        assert(self.discarded@ =~= pre.discarded@.union(
                            Set::new(
                                |t: u64|
                                    exists|k: int|
                                        0 <= k < discarded_now@.len() && pre.mailbox@[k].ticket
                                            == t,
                            ),
                        ));
                    }
                },
                Option::None => {
                    proof {
                        assert(false);
                    }
                },
            }
        }
        proof {
            assert(discarded_now@.len() == pre.mailbox@.len());
            assert(discarded_now@ =~= pre.mailbox@.map_values(|w: WorkItemView| w.ticket));
            assert(self.discarded@ =~= pre.discarded@.union(
                Set::new(|t: u64| pending_has(pre.mailbox@, t)),
            ));
        }
        let n = self.workers.len();
        let mut i: usize = 0;
        while i < n
            invariant
                n == self.workers@.len(),
                n == pre.workers@.len(),
                i <= n,
                forall|j: int|
                    0 <= j < i ==> self.workers@[j].state@ == (if pre.workers@[j].state@ is Idle {
                        WorkerStateView::Stopped
                    } else {
                        pre.workers@[j].state@
                    }),
                forall|j: int| i <= j < n ==> self.workers@[j] == pre.workers@[j],
                forall|j: int| 0 <= j < n ==> self.workers@[j].resource == pre.workers@[j].resource,
                self.mailbox@ == Seq::<WorkItemView>::empty(),
                self.mailbox.capacity == pre.mailbox.capacity,
                self.store == pre.store,
                self.replies == pre.replies,
                self.next_ticket == pre.next_ticket,
                self.stopped,
                self.submitted == pre.submitted,
                self.discarded@ == pre.discarded@.union(
                    Set::new(|t: u64| pending_has(pre.mailbox@, t)),
                ),
            decreases n - i,
        {
            if self.workers[i].is_idle() {
                let mut parked = WorkerState::Stopped;
                core::mem::swap(&mut self.workers[i].state, &mut parked);
            }
            i = i + 1;
        }
        proof {
            lemma_shutdown_preserves_wf(pre, *self);
        }
        discarded_now
    }
}

/// How many of these submission outcomes were accepted.
pub open spec fn count_enqueued(s: Seq<SubmitOutcome>) -> int
    decreases s.len(),
{
    if s.len() == 0 {
        0
    } else {
        (if s[0] is Enqueued {
            1int
        } else {
            0int
        }) + count_enqueued(s.drop_first())
    }
}

/// Appending one outcome raises the accepted count by one exactly when the
/// outcome was accepted.
proof fn lemma_count_enqueued_push(s: Seq<SubmitOutcome>, x: SubmitOutcome)
    ensures
        count_enqueued(s.push(x)) == count_enqueued(s) + (if x is Enqueued {
            1int
        } else {
            0int
        }),
    decreases s.len(),
{
    if s.len() == 0 {
        assert(s.push(x).drop_first() =~= s);
    } else {
        assert(s.push(x).drop_first() =~= s.drop_first().push(x));
        lemma_count_enqueued_push(s.drop_first(), x);
    }
}

/// Fewer accepted outcomes than outcomes means some submission was refused.
proof fn lemma_low_count_means_busy(s: Seq<SubmitOutcome>)
    requires
        count_enqueued(s) < s.len(),
    ensures
        exists|k: int| 0 <= k < s.len() && s[k] is Busy,
    decreases s.len(),
{
    if s[0] is Busy {
        assert(s[0] is Busy);
    } else {
        lemma_low_count_means_busy(s.drop_first());
        let k = choose|k: int| 0 <= k < s.drop_first().len() && s.drop_first()[k] is Busy;
        assert(s[k + 1] is Busy);
    }
}

/// At most one operation is ever in execution against a given resource
/// handle: workers hold pairwise distinct handles and each executes at most
/// one item at a time, so two simultaneous executions against one handle
/// can only belong to one worker.
pub proof fn lemma_exclusive_resource_use(p: WorkerPool, i: int, j: int)
    requires
        p.wf(),
        0 <= i < p.worker_count(),
        0 <= j < p.worker_count(),
        actor_executing(p.workers@[i]),
        actor_executing(p.workers@[j]),
        p.workers@[i].resource.id == p.workers@[j].resource.id,
    ensures
        i == j,
{
    if i < j {
        assert(p.workers@[i].resource.id != p.workers@[j].resource.id);
    } else if j < i {
        assert(p.workers@[j].resource.id != p.workers@[i].resource.id);
    }
}

/// Every reply channel is written at most once: two delivered replies that
/// carry one ticket are one and the same.
pub proof fn lemma_reply_written_once(p: WorkerPool, a: int, b: int)
    requires
        p.wf(),
        0 <= a < p.replies@.len(),
        0 <= b < p.replies@.len(),
        p.replies@[a].ticket == p.replies@[b].ticket,
    ensures
        a == b,
{
    if a < b {
        assert(p.replies@[a].ticket != p.replies@[b].ticket);
    } else if b < a {
        assert(p.replies@[b].ticket != p.replies@[a].ticket);
    }
}

/// A drained pool accounts for every submission: once the mailbox is empty
/// and no worker is mid-execution, every ticket `submit` ever issued has
/// either been answered or was reported discarded at shutdown — one of the
/// two, never both, so no caller waits forever on a forgotten ticket.
pub proof fn lemma_drained_pool_accounts_for_all(p: WorkerPool, t: u64)
    requires
        p.wf(),
        p.mailbox@.len() == 0,
        forall|k: int| 0 <= k < p.worker_count() ==> !actor_executing(p.workers@[k]),
        p.submitted@.contains(t),
    ensures
        p.ticket_replied(t) || p.ticket_discarded(t),
        !(p.ticket_replied(t) && p.ticket_discarded(t)),
{
    assert(tracked_in(p.mailbox@, p.workers@, p.replies@, p.discarded@, t));
    assert(!pending_has(p.mailbox@, t));
    assert(!workers_have(p.workers@, t)) by {
        if workers_have(p.workers@, t) {
            let k = choose|k: int|
                0 <= k < p.workers@.len() && actor_executing(p.workers@[k]) && actor_item(
                    p.workers@[k],
                ).ticket == t;
            assert(!actor_executing(p.workers@[k]));
        }
    }
}

/// Every record the pool's store ever holds carries a distinct identifier,
/// however many concurrent creates produced them: the store's uniqueness
/// constraint is part of the pool's validity, which every transition
/// preserves.
pub proof fn lemma_identifiers_distinct(p: WorkerPool, i: int, j: int)
    requires
        p.wf(),
        0 <= i < j < p.store@.len(),
    ensures
        p.store@[i].uuid != p.store@[j].uuid,
{
}

/// Enqueuing a fresh ticket keeps the pool valid: the new ticket was never
/// seen before, so distinctness and disjointness carry over.
proof fn lemma_submit_preserves_wf(pre: WorkerPool, post: WorkerPool, t: u64)
    requires
        pre.wf(),
        !pre.stopped,
        t == pre.next_ticket,
        t < u64::MAX,
        post.mailbox@.len() == pre.mailbox@.len() + 1,
        post.mailbox@.drop_last() == pre.mailbox@,
        post.mailbox@.last().ticket == t,
        post.mailbox.wf(),
        post.workers == pre.workers,
        post.store == pre.store,
        post.replies == pre.replies,
        post.stopped == pre.stopped,
        post.next_ticket == t + 1,
        post.submitted@ == pre.submitted@.insert(t),
        post.discarded == pre.discarded,
    ensures
        post.wf(),
{
    let m = pre.mailbox@.len() as int;
    assert(forall|k: int| 0 <= k < m ==> post.mailbox@[k] == pre.mailbox@[k]);
    // Any ticket already accounted for is below the fresh one.
    assert forall|u: u64|
        tracked_in(pre.mailbox@, pre.workers@, pre.replies@, pre.discarded@, u) implies u
        < t by {
        assert(pre.submitted@.contains(u));
    }
    // Pending membership changes only by the fresh ticket.
    assert forall|u: u64| u != t implies pending_has(post.mailbox@, u) == pending_has(
        pre.mailbox@,
        u,
    ) by {
        if pending_has(pre.mailbox@, u) {
            let k = choose|k: int| 0 <= k < m && pre.mailbox@[k].ticket == u;
            assert(post.mailbox@[k].ticket == u);
        }
        if pending_has(post.mailbox@, u) {
            let k = choose|k: int| 0 <= k < post.mailbox@.len() && post.mailbox@[k].ticket == u;
            assert(k < m);
        }
    }
    assert(pending_has(post.mailbox@, t));
    assert(pending_distinct(post.mailbox@)) by {
        assert forall|i: int, j: int| 0 <= i < j < post.mailbox@.len() implies post.mailbox@[i].ticket
            != post.mailbox@[j].ticket by {
            if j < m {
                assert(pre.mailbox@[i].ticket != pre.mailbox@[j].ticket);
            } else {
                assert(pending_has(pre.mailbox@, pre.mailbox@[i].ticket));
                assert(tracked_in(
                    pre.mailbox@,
                    pre.workers@,
                    pre.replies@,
                    pre.discarded@,
                    pre.mailbox@[i].ticket,
                ));
            }
        }
    }
    assert(post.classes_disjoint()) by {
        assert forall|u: u64|
            !(pending_has(post.mailbox@, u) && workers_have(post.workers@, u)) by {
            if u == t {
                if workers_have(pre.workers@, u) {
                    assert(tracked_in(pre.mailbox@, pre.workers@, pre.replies@, pre.discarded@, u));
                }
            }
        }
        assert forall|u: u64|
            !(pending_has(post.mailbox@, u) && replies_have(post.replies@, u)) by {
            if u == t {
                if replies_have(pre.replies@, u) {
                    assert(tracked_in(pre.mailbox@, pre.workers@, pre.replies@, pre.discarded@, u));
                }
            }
        }
        assert forall|u: u64| !(pending_has(post.mailbox@, u) && post.discarded@.contains(u)) by {
            if u == t {
                if pre.discarded@.contains(u) {
                    assert(tracked_in(pre.mailbox@, pre.workers@, pre.replies@, pre.discarded@, u));
                }
            }
        }
    }
    assert(post.accounting()) by {
        assert forall|u: u64| post.submitted@.contains(u) implies u < post.next_ticket by {
            if u != t {
                assert(pre.submitted@.contains(u));
            }
        }
        assert forall|u: u64|
            post.submitted@.contains(u) <==> tracked_in(
                post.mailbox@,
                post.workers@,
                post.replies@,
                post.discarded@,
                u,
            ) by {
            if u != t {
                assert(pre.submitted@.contains(u) <==> tracked_in(
                    pre.mailbox@,
                    pre.workers@,
                    pre.replies@,
                    pre.discarded@,
                    u,
                ));
            }
        }
    }
}

/// Claiming the front item keeps the pool valid: the ticket moves from the
/// queue to exactly one worker, and nothing else changes.
proof fn lemma_begin_preserves_wf(pre: WorkerPool, post: WorkerPool, i: int)
    requires
        pre.wf(),
        0 <= i < pre.worker_count(),
        pre.workers@[i].state@ is Idle,
        pre.mailbox@.len() > 0,
        post.mailbox@ == pre.mailbox@.drop_first(),
        post.mailbox.wf(),
        post.workers@.len() == pre.workers@.len(),
        post.workers@[i].state@ == WorkerStateView::Executing(pre.mailbox@[0]),
        post.workers@[i].resource == pre.workers@[i].resource,
        forall|j: int| 0 <= j < pre.worker_count() && j != i ==> post.workers@[j] == pre.workers@[j],
        post.store == pre.store,
        post.replies == pre.replies,
        post.next_ticket == pre.next_ticket,
        post.stopped == pre.stopped,
        post.submitted == pre.submitted,
        post.discarded == pre.discarded,
    ensures
        post.wf(),
{
    let front = pre.mailbox@[0];
    let m = post.mailbox@.len() as int;
    assert(forall|k: int| 0 <= k < m ==> post.mailbox@[k] == pre.mailbox@[k + 1]);
    assert(pending_has(pre.mailbox@, front.ticket));
    // Pending membership after the claim implies it held before, one slot on.
    assert forall|u: u64| pending_has(post.mailbox@, u) implies pending_has(pre.mailbox@, u) by {
        let k = choose|k: int| 0 <= k < m && post.mailbox@[k].ticket == u;
        assert(pre.mailbox@[k + 1].ticket == u);
    }
    // The claimed ticket is not still pending: the queue held it once.
    assert(!pending_has(post.mailbox@, front.ticket)) by {
        if pending_has(post.mailbox@, front.ticket) {
            let k = choose|k: int| 0 <= k < m && post.mailbox@[k].ticket == front.ticket;
            assert(pre.mailbox@[k + 1].ticket == pre.mailbox@[0].ticket);
            assert(pending_distinct(pre.mailbox@));
        }
    }
    // Executing membership gains exactly the claimed ticket.
    assert forall|u: u64| u != front.ticket implies workers_have(post.workers@, u) == workers_have(
        pre.workers@,
        u,
    ) by {
        if workers_have(pre.workers@, u) {
            let k = choose|k: int|
                0 <= k < pre.workers@.len() && actor_executing(pre.workers@[k]) && actor_item(
                    pre.workers@[k],
                ).ticket == u;
            assert(k != i);
            assert(post.workers@[k] == pre.workers@[k]);
        }
        if workers_have(post.workers@, u) {
            let k = choose|k: int|
                0 <= k < post.workers@.len() && actor_executing(post.workers@[k]) && actor_item(
                    post.workers@[k],
                ).ticket == u;
            assert(k != i);
            assert(pre.workers@[k] == post.workers@[k]);
        }
    }
    assert(actor_executing(post.workers@[i]) && actor_item(post.workers@[i]).ticket
        == front.ticket);
    assert(workers_have(post.workers@, front.ticket));
    assert(!workers_have(pre.workers@, front.ticket));
    assert(handles_exclusive(post.workers@)) by {
        assert forall|a: int, b: int| 0 <= a < b < post.workers@.len() implies post.workers@[a].resource.id
            != post.workers@[b].resource.id by {
            assert(post.workers@[a].resource == pre.workers@[a].resource);
            assert(post.workers@[b].resource == pre.workers@[b].resource);
        }
    }
    assert(pending_distinct(post.mailbox@)) by {
        assert forall|a: int, b: int| 0 <= a < b < m implies post.mailbox@[a].ticket
            != post.mailbox@[b].ticket by {
            assert(pre.mailbox@[a + 1].ticket != pre.mailbox@[b + 1].ticket);
        }
    }
    assert(executing_distinct(post.workers@)) by {
        assert forall|a: int, b: int|
            0 <= a < post.workers@.len() && 0 <= b < post.workers@.len() && a != b
                && actor_executing(post.workers@[a]) && actor_executing(
                post.workers@[b],
            ) implies actor_item(post.workers@[a]).ticket != actor_item(
            post.workers@[b],
        ).ticket by {
            if a != i && b != i {
                assert(post.workers@[a] == pre.workers@[a]);
                assert(post.workers@[b] == pre.workers@[b]);
            } else {
                let o = if a == i {
                    b
                } else {
                    a
                };
                assert(post.workers@[o] == pre.workers@[o]);
                if actor_executing(pre.workers@[o]) {
                    assert(workers_have(pre.workers@, actor_item(pre.workers@[o]).ticket));
                    assert(!(pending_has(pre.mailbox@, front.ticket) && workers_have(
                        pre.workers@,
                        front.ticket,
                    )));
                }
            }
        }
    }
    assert(post.classes_disjoint()) by {
        assert forall|u: u64|
            !(pending_has(post.mailbox@, u) && workers_have(post.workers@, u)) by {
            if pending_has(post.mailbox@, u) {
                assert(pending_has(pre.mailbox@, u));
                assert(u != front.ticket);
            }
        }
        assert forall|u: u64|
            !(pending_has(post.mailbox@, u) && replies_have(post.replies@, u)) by {
            if pending_has(post.mailbox@, u) {
                assert(pending_has(pre.mailbox@, u));
            }
        }
        assert forall|u: u64| !(pending_has(post.mailbox@, u) && post.discarded@.contains(u)) by {
            if pending_has(post.mailbox@, u) {
                assert(pending_has(pre.mailbox@, u));
            }
        }
        assert forall|u: u64|
            !(workers_have(post.workers@, u) && replies_have(post.replies@, u)) by {
            if u == front.ticket {
                if replies_have(pre.replies@, u) {
                    assert(!(pending_has(pre.mailbox@, u) && replies_have(pre.replies@, u)));
                }
            }
        }
        assert forall|u: u64| !(workers_have(post.workers@, u) && post.discarded@.contains(u)) by {
            if u == front.ticket {
                if pre.discarded@.contains(u) {
                    assert(!(pending_has(pre.mailbox@, u) && pre.discarded@.contains(u)));
                }
            }
        }
    }
    assert(post.accounting()) by {
        assert forall|u: u64|
            post.submitted@.contains(u) <==> tracked_in(
                post.mailbox@,
                post.workers@,
                post.replies@,
                post.discarded@,
                u,
            ) by {
            assert(pre.submitted@.contains(u) <==> tracked_in(
                pre.mailbox@,
                pre.workers@,
                pre.replies@,
                pre.discarded@,
                u,
            ));
            if u == front.ticket {
                assert(workers_have(post.workers@, u));
                assert(tracked_in(pre.mailbox@, pre.workers@, pre.replies@, pre.discarded@, u));
            } else {
                if pending_has(pre.mailbox@, u) {
                    let k = choose|k: int| 0 <= k < pre.mailbox@.len() && pre.mailbox@[k].ticket == u;
                    assert(k >= 1);
                    assert(post.mailbox@[k - 1].ticket == u);
                }
            }
        }
    }
    assert(post.stopped ==> post.mailbox@.len() == 0) by {
        if pre.stopped {
            assert(pre.mailbox@.len() == 0);
        }
    }
}

/// Finishing the claimed item keeps the pool valid: the ticket moves from
/// exactly one worker to exactly one new reply, and the store stays sound.
proof fn lemma_finish_preserves_wf(pre: WorkerPool, post: WorkerPool, i: int)
    requires
        pre.wf(),
        0 <= i < pre.worker_count(),
        pre.workers@[i].state@ is Executing,
        post.mailbox == pre.mailbox,
        post.workers@.len() == pre.workers@.len(),
        !actor_executing(post.workers@[i]),
        post.workers@[i].resource == pre.workers@[i].resource,
        forall|j: int| 0 <= j < pre.worker_count() && j != i ==> post.workers@[j] == pre.workers@[j],
        post.store.wf(),
        post.replies@.len() == pre.replies@.len() + 1,
        post.replies@.drop_last() == pre.replies@,
        post.replies@.last().ticket == actor_item(pre.workers@[i]).ticket,
        post.next_ticket == pre.next_ticket,
        post.stopped == pre.stopped,
        post.submitted == pre.submitted,
        post.discarded == pre.discarded,
    ensures
        post.wf(),
{
    let t0 = actor_item(pre.workers@[i]).ticket;
    let n = pre.replies@.len() as int;
    assert(forall|k: int| 0 <= k < n ==> post.replies@[k] == pre.replies@[k]);
    assert(workers_have(pre.workers@, t0));
    // Executing membership loses exactly the finished ticket.
    assert forall|u: u64| workers_have(post.workers@, u) implies workers_have(pre.workers@, u) && u
        != t0 by {
        let k = choose|k: int|
            0 <= k < post.workers@.len() && actor_executing(post.workers@[k]) && actor_item(
                post.workers@[k],
            ).ticket == u;
        assert(k != i);
        assert(pre.workers@[k] == post.workers@[k]);
        if u == t0 {
            assert(executing_distinct(pre.workers@));
            assert(actor_item(pre.workers@[k]).ticket != actor_item(pre.workers@[i]).ticket);
        }
    }
    assert forall|u: u64| u != t0 && workers_have(pre.workers@, u) implies workers_have(
        post.workers@,
        u,
    ) by {
        let k = choose|k: int|
            0 <= k < pre.workers@.len() && actor_executing(pre.workers@[k]) && actor_item(
                pre.workers@[k],
            ).ticket == u;
        assert(k != i);
        assert(post.workers@[k] == pre.workers@[k]);
    }
    // Replied membership gains exactly the finished ticket.
    assert forall|u: u64| u != t0 implies replies_have(post.replies@, u) == replies_have(
        pre.replies@,
        u,
    ) by {
        if replies_have(pre.replies@, u) {
            let k = choose|k: int| 0 <= k < n && pre.replies@[k].ticket == u;
            assert(post.replies@[k].ticket == u);
        }
        if replies_have(post.replies@, u) {
            let k = choose|k: int| 0 <= k < post.replies@.len() && post.replies@[k].ticket == u;
            assert(k < n);
        }
    }
    assert(replies_have(post.replies@, t0));
    assert(handles_exclusive(post.workers@)) by {
        assert forall|a: int, b: int| 0 <= a < b < post.workers@.len() implies post.workers@[a].resource.id
            != post.workers@[b].resource.id by {
            assert(post.workers@[a].resource == pre.workers@[a].resource);
            assert(post.workers@[b].resource == pre.workers@[b].resource);
        }
    }
    assert(replies_distinct(post.replies@)) by {
        assert forall|a: int, b: int| 0 <= a < b < post.replies@.len() implies post.replies@[a].ticket
            != post.replies@[b].ticket by {
            if b < n {
                assert(pre.replies@[a].ticket != pre.replies@[b].ticket);
            } else {
                assert(replies_have(pre.replies@, pre.replies@[a].ticket));
                assert(!(workers_have(pre.workers@, t0) && replies_have(pre.replies@, t0)));
            }
        }
    }
    assert(executing_distinct(post.workers@)) by {
        assert forall|a: int, b: int|
            0 <= a < post.workers@.len() && 0 <= b < post.workers@.len() && a != b
                && actor_executing(post.workers@[a]) && actor_executing(
                post.workers@[b],
            ) implies actor_item(post.workers@[a]).ticket != actor_item(
            post.workers@[b],
        ).ticket by {
            assert(a != i && b != i);
            assert(post.workers@[a] == pre.workers@[a]);
            assert(post.workers@[b] == pre.workers@[b]);
        }
    }
    assert(post.classes_disjoint()) by {
        assert forall|u: u64|
            !(pending_has(post.mailbox@, u) && workers_have(post.workers@, u)) by {
            if workers_have(post.workers@, u) {
                assert(workers_have(pre.workers@, u));
            }
        }
        assert forall|u: u64|
            !(pending_has(post.mailbox@, u) && replies_have(post.replies@, u)) by {
            if u == t0 {
                if pending_has(pre.mailbox@, u) {
                    assert(!(pending_has(pre.mailbox@, u) && workers_have(pre.workers@, u)));
                }
            }
        }
        assert forall|u: u64|
            !(workers_have(post.workers@, u) && replies_have(post.replies@, u)) by {
            if workers_have(post.workers@, u) {
                assert(workers_have(pre.workers@, u) && u != t0);
            }
        }
        assert forall|u: u64| !(workers_have(post.workers@, u) && post.discarded@.contains(u)) by {
            if workers_have(post.workers@, u) {
                assert(workers_have(pre.workers@, u));
            }
        }
        assert forall|u: u64| !(replies_have(post.replies@, u) && post.discarded@.contains(u)) by {
            if u == t0 {
                if pre.discarded@.contains(u) {
                    assert(!(workers_have(pre.workers@, u) && pre.discarded@.contains(u)));
                }
            }
        }
    }
    assert(post.accounting()) by {
        assert forall|u: u64|
            post.submitted@.contains(u) <==> tracked_in(
                post.mailbox@,
                post.workers@,
                post.replies@,
                post.discarded@,
                u,
            ) by {
            assert(pre.submitted@.contains(u) <==> tracked_in(
                pre.mailbox@,
                pre.workers@,
                pre.replies@,
                pre.discarded@,
                u,
            ));
            if u == t0 {
                assert(replies_have(post.replies@, u));
                assert(tracked_in(pre.mailbox@, pre.workers@, pre.replies@, pre.discarded@, u));
            }
        }
    }
}

/// Shutdown keeps the pool valid: the pending tickets move wholesale to the
/// discarded ledger, idle workers stop without touching any ticket, and
/// workers mid-execution are left exactly as they were.
proof fn lemma_shutdown_preserves_wf(pre: WorkerPool, post: WorkerPool)
    requires
        pre.wf(),
        post.stopped,
        post.mailbox@ == Seq::<WorkItemView>::empty(),
        post.mailbox.capacity == pre.mailbox.capacity,
        post.mailbox.wf(),
        post.workers@.len() == pre.workers@.len(),
        forall|j: int|
            0 <= j < pre.worker_count() ==> post.workers@[j].state@ == (if pre.workers@[j].state@
                is Idle {
                WorkerStateView::Stopped
            } else {
                pre.workers@[j].state@
            }),
        forall|j: int| 0 <= j < pre.worker_count() ==> post.workers@[j].resource == pre.workers@[j].resource,
        post.store == pre.store,
        post.replies == pre.replies,
        post.next_ticket == pre.next_ticket,
        post.submitted == pre.submitted,
        post.discarded@ == pre.discarded@.union(Set::new(|t: u64| pending_has(pre.mailbox@, t))),
    ensures
        post.wf(),
{
    // Executing membership is untouched: only idle workers changed state.
    assert forall|u: u64| workers_have(post.workers@, u) == workers_have(pre.workers@, u) by {
        if workers_have(pre.workers@, u) {
            let k = choose|k: int|
                0 <= k < pre.workers@.len() && actor_executing(pre.workers@[k]) && actor_item(
                    pre.workers@[k],
                ).ticket == u;
            assert(post.workers@[k].state@ == pre.workers@[k].state@);
            assert(actor_executing(post.workers@[k]) && actor_item(post.workers@[k]).ticket == u);
        }
        if workers_have(post.workers@, u) {
            let k = choose|k: int|
                0 <= k < post.workers@.len() && actor_executing(post.workers@[k]) && actor_item(
                    post.workers@[k],
                ).ticket == u;
            assert(post.workers@[k].state@ == pre.workers@[k].state@);
            assert(actor_executing(pre.workers@[k]) && actor_item(pre.workers@[k]).ticket == u);
        }
    }
    assert(handles_exclusive(post.workers@)) by {
        assert forall|a: int, b: int| 0 <= a < b < post.workers@.len() implies post.workers@[a].resource.id
            != post.workers@[b].resource.id by {
            assert(post.workers@[a].resource == pre.workers@[a].resource);
            assert(post.workers@[b].resource == pre.workers@[b].resource);
        }
    }
    assert(executing_distinct(post.workers@)) by {
        assert forall|a: int, b: int|
            0 <= a < post.workers@.len() && 0 <= b < post.workers@.len() && a != b
                && actor_executing(post.workers@[a]) && actor_executing(
                post.workers@[b],
            ) implies actor_item(post.workers@[a]).ticket != actor_item(
            post.workers@[b],
        ).ticket by {
            assert(post.workers@[a].state@ == pre.workers@[a].state@);
            assert(post.workers@[b].state@ == pre.workers@[b].state@);
        }
    }
    assert(post.classes_disjoint()) by {
        assert forall|u: u64|
            !(workers_have(post.workers@, u) && replies_have(post.replies@, u)) by {
            if workers_have(post.workers@, u) {
                assert(workers_have(pre.workers@, u));
            }
        }
        assert forall|u: u64| !(workers_have(post.workers@, u) && post.discarded@.contains(u)) by {
            if workers_have(post.workers@, u) {
                assert(workers_have(pre.workers@, u));
                assert(!pre.discarded@.contains(u));
                assert(!pending_has(pre.mailbox@, u));
            }
        }
        assert forall|u: u64| !(replies_have(post.replies@, u) && post.discarded@.contains(u)) by {
            if replies_have(post.replies@, u) {
                assert(!pre.discarded@.contains(u));
                assert(!pending_has(pre.mailbox@, u));
            }
        }
    }
    assert(post.accounting()) by {
        assert forall|u: u64|
            post.submitted@.contains(u) <==> tracked_in(
                post.mailbox@,
                post.workers@,
                post.replies@,
                post.discarded@,
                u,
            ) by {
            assert(pre.submitted@.contains(u) <==> tracked_in(
                pre.mailbox@,
                pre.workers@,
                pre.replies@,
                pre.discarded@,
                u,
            ));
            assert(post.discarded@.contains(u) == (pre.discarded@.contains(u) || pending_has(
                pre.mailbox@,
                u,
            )));
        }
    }
}

} // verus!
