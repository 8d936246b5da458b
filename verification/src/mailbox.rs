use vstd::prelude::*;
use crate::messages::{Operation, OperationView};

verus! {

/// One unit of work: an operation plus the ticket that stands for the
/// caller's single-use reply channel.
pub struct WorkItem {
    pub ticket: u64,
    pub op: Operation,
}

/// The mathematical view of a work item.
pub struct WorkItemView {
    pub ticket: u64,
    pub op: OperationView,
}

impl View for WorkItem {
    type V = WorkItemView;

    open spec fn view(&self) -> WorkItemView {
        WorkItemView { ticket: self.ticket, op: self.op@ }
    }
}

/// Whether a queue of length `len` under the bound `cap` has no room left.
/// `None` means unbounded.
pub open spec fn queue_full(len: int, cap: Option<usize>) -> bool {
    match cap {
        Option::Some(c) => len >= c,
        Option::None => false,
    }
}

/// What one arrival does to a queue: a full queue refuses it and is left as
/// it was; otherwise it joins at the back.
pub open spec fn spec_enqueue_one(
    items: Seq<WorkItemView>,
    cap: Option<usize>,
    it: WorkItemView,
) -> (Seq<WorkItemView>, bool) {
    if queue_full(items.len() as int, cap) {
        (items, false)
    } else {
        (items.push(it), true)
    }
}

/// What a burst of arrivals does, one at a time and in order: the queue they
/// leave behind, and how many of them were accepted. The ones not accepted
/// were refused on the spot, never lost.
pub open spec fn spec_enqueue_all(
    items: Seq<WorkItemView>,
    cap: Option<usize>,
    arrivals: Seq<WorkItemView>,
) -> (Seq<WorkItemView>, nat)
    decreases arrivals.len(),
{
    if arrivals.len() == 0 {
        (items, 0)
    } else {
        let step = spec_enqueue_one(items, cap, arrivals[0]);
        let rest = spec_enqueue_all(step.0, cap, arrivals.drop_first());
        if step.1 {
            (rest.0, rest.1 + 1)
        } else {
            (rest.0, rest.1)
        }
    }
}

/// The shared queue of pending work items. Workers drain it in arrival
/// order; the optional `capacity` is the configured backpressure bound.
pub struct Mailbox {
    pub items: Vec<WorkItem>,
    pub capacity: Option<usize>,
}

impl View for Mailbox {
    type V = Seq<WorkItemView>;

    open spec fn view(&self) -> Seq<WorkItemView> {
        self.items@.map_values(|w: WorkItem| w@)
    }
}

impl Mailbox {
    /// The mailbox's validity: a bound, if any, is positive and respected.
    pub open spec fn wf(&self) -> bool {
        match self.capacity {
            Option::Some(c) => c >= 1 && self@.len() <= c,
            Option::None => true,
        }
    }

    /// Whether the queue has no room left.
    pub open spec fn is_full(&self) -> bool {
        queue_full(self@.len() as int, self.capacity)
    }

    /// An empty mailbox, unbounded or with a positive bound.
    pub fn new(capacity: Option<usize>) -> (m: Mailbox)
        requires
            (match capacity {
                Option::Some(c) => c >= 1,
                Option::None => true,
            }),
        ensures
            m@ == Seq::<WorkItemView>::empty(),
            m.capacity == capacity,
            m.wf(),
    {
        Mailbox { items: Vec::new(), capacity }
    }

    /// How many items are pending.
    pub fn len(&self) -> (n: usize)
        ensures
            n == self@.len(),
    {
        self.items.len()
    }

    /// One arrival, as `spec_enqueue_one` has it: refused exactly when the
    /// queue is full, appended otherwise.
    pub fn enqueue(&mut self, item: WorkItem) -> (ok: bool)
        ensures
            final(self).capacity == old(self).capacity,
            final(self)@ == spec_enqueue_one(old(self)@, old(self).capacity, item@).0,
            ok == spec_enqueue_one(old(self)@, old(self).capacity, item@).1,
            ok <==> !old(self).is_full(),
            !ok ==> *final(self) == *old(self),
            old(self).wf() ==> final(self).wf(),
    {
        let full = match self.capacity {
            Option::Some(c) => self.items.len() >= c,
            Option::None => false,
        };
        if full {
            false
        } else {
            let ghost prev = self.items@;
            self.items.push(item);
            proof {
                assert(self@ =~= prev.map_values(|w: WorkItem| w@).push(item@));
            }
            true
        }
    }

    /// The next item in arrival order, if any.
    pub fn dequeue(&mut self) -> (r: Option<WorkItem>)
        ensures
            final(self).capacity == old(self).capacity,
            old(self)@.len() == 0 ==> r is None && final(self)@ == old(self)@,
            old(self)@.len() > 0 ==> r is Some && r.unwrap()@ == old(self)@[0] && final(self)@
                == old(self)@.drop_first(),
            old(self).wf() ==> final(self).wf(),
    {
        if self.items.len() == 0 {
            None
        } else {
            let ghost prev = self.items@;
            let it = self.items.remove(0);
            proof {
                assert(self@ =~= prev.map_values(|w: WorkItem| w@).drop_first());
            }
            Some(it)
        }
    }
}

/// Backpressure never loses an item silently: of a burst of arrivals into a
/// queue bounded by `c`, exactly the accepted ones join the queue, the queue
/// never outgrows its bound, and a burst larger than the room left sees at
/// least one refusal.
pub proof fn lemma_bounded_mailbox_accounting(
    items: Seq<WorkItemView>,
    c: usize,
    arrivals: Seq<WorkItemView>,
)
    requires
        items.len() <= c,
    ensures
        ({
            let r = spec_enqueue_all(items, Option::Some(c), arrivals);
            &&& r.1 <= arrivals.len()
            &&& r.0.len() == items.len() + r.1
            &&& r.0.len() <= c
            &&& (items.len() + arrivals.len() > c ==> r.1 < arrivals.len())
        }),
    decreases arrivals.len(),
{
    if arrivals.len() > 0 {
        let step = spec_enqueue_one(items, Option::Some(c), arrivals[0]);
        lemma_bounded_mailbox_accounting(step.0, c, arrivals.drop_first());
    }
}

} // verus!
