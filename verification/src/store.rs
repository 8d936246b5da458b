use vstd::prelude::*;
use crate::models::{NewUser, User, UserView};
use crate::messages::{ErrorKind, Operation, OperationResult, OperationView, ResultView};

verus! {

/// No two records carry the same identifier.
pub open spec fn uuids_unique(s: Seq<UserView>) -> bool {
    forall|i: int, j: int| 0 <= i < j < s.len() ==> s[i].uuid != s[j].uuid
}

/// Some record carries the identifier `id`.
pub open spec fn contains_uuid(s: Seq<UserView>, id: u128) -> bool {
    exists|i: int| 0 <= i < s.len() && s[i].uuid == id
}

/// The position of the record carrying `id`; meaningful when such a record
/// exists and identifiers are unique.
pub open spec fn index_of_uuid(s: Seq<UserView>, id: u128) -> int {
    choose|i: int| 0 <= i < s.len() && s[i].uuid == id
}

/// What inserting a row does: a colliding identifier is refused by the
/// store's uniqueness constraint and answered with `ResourceError`; a fresh
/// one is appended and the persisted row is answered.
pub open spec fn spec_insert(s: Seq<UserView>, row: UserView) -> (Seq<UserView>, ResultView) {
    if contains_uuid(s, row.uuid) {
        (s, ResultView::Failure(ErrorKind::ResourceError))
    } else {
        (s.push(row), ResultView::Record(row))
    }
}

/// What creating a record does: insert a row with the worker-assigned
/// identifier `fresh`, the caller's `name` and `age`, and the server default
/// for the subscription flag.
pub open spec fn spec_create(s: Seq<UserView>, fresh: u128, name: Seq<char>, age: i16) -> (
    Seq<UserView>,
    ResultView,
) {
    spec_insert(s, UserView { uuid: fresh, name: name, age: age, is_sub: false })
}

/// What renaming does: the record with identifier `id`, if any, gets the new
/// name and is answered in full; a missing identifier is answered with
/// `NotFound`.
pub open spec fn spec_update(s: Seq<UserView>, id: u128, name: Seq<char>) -> (
    Seq<UserView>,
    ResultView,
) {
    if contains_uuid(s, id) {
        let i = index_of_uuid(s, id);
        let u = UserView { uuid: s[i].uuid, name: name, age: s[i].age, is_sub: s[i].is_sub };
        (s.update(i, u), ResultView::Record(u))
    } else {
        (s, ResultView::Failure(ErrorKind::NotFound))
    }
}

/// What deleting does: the record with identifier `id`, if any, is removed
/// and the count of removed rows is answered; a missing identifier is a
/// successful count of zero, not a failure.
pub open spec fn spec_delete(s: Seq<UserView>, id: u128) -> (Seq<UserView>, ResultView) {
    if contains_uuid(s, id) {
        (s.remove(index_of_uuid(s, id)), ResultView::DeletedCount(1))
    } else {
        (s, ResultView::DeletedCount(0))
    }
}

/// What listing does: the full snapshot at the instant of execution.
pub open spec fn spec_get_all(s: Seq<UserView>) -> ResultView {
    ResultView::RecordList(s)
}

/// What one operation does to the store and answers, as one exhaustive
/// dispatch. `fresh` is the identifier a create would assign.
pub open spec fn spec_execute(s: Seq<UserView>, op: OperationView, fresh: u128) -> (
    Seq<UserView>,
    ResultView,
) {
    match op {
        OperationView::Create { name, age } => spec_create(s, fresh, name, age),
        OperationView::Update { uuid, name } => spec_update(s, uuid, name),
        OperationView::Delete { uuid } => spec_delete(s, uuid),
        OperationView::GetAll => (s, spec_get_all(s)),
    }
}

/// The in-memory model of the relational store the workers execute against:
/// a table of records with a uniqueness constraint on the identifier.
pub struct Store {
    pub users: Vec<User>,
}

impl View for Store {
    type V = Seq<UserView>;

    open spec fn view(&self) -> Seq<UserView> {
        self.users@.map_values(|u: User| u@)
    }
}

impl Store {
    /// The store's validity: the identifier column is unique.
    pub open spec fn wf(&self) -> bool {
        uuids_unique(self@)
    }

    /// An empty table.
    pub fn new() -> (s: Store)
        ensures
            s@ == Seq::<UserView>::empty(),
            s.wf(),
    {
        Store { users: Vec::new() }
    }

    /// The position of the record carrying `id`, if any.
    fn find_index(&self, id: u128) -> (r: Option<usize>)
        ensures
            match r {
                Some(i) => i < self@.len() && self@[i as int].uuid == id,
                None => !contains_uuid(self@, id),
            },
    {
        let n = self.users.len();
        let mut i: usize = 0;
        while i < n
            invariant
                n == self.users.len(),
                i <= n,
                self@.len() == n,
                forall|k: int| 0 <= k < i ==> self@[k].uuid != id,
            decreases n - i,
        {
            if self.users[i].uuid == id {
                return Some(i);
            }
            i = i + 1;
        }
        None
    }

    /// Insert one row, subject to the uniqueness constraint.
    pub fn insert(&mut self, row: NewUser) -> (r: OperationResult)
        ensures
            final(self)@ == spec_insert(old(self)@, row@).0,
            r@ == spec_insert(old(self)@, row@).1,
    {
        match self.find_index(row.uuid) {
            Some(_) => OperationResult::Failure(ErrorKind::ResourceError),
            None => {
                let persisted = User {
                    uuid: row.uuid,
                    name: row.name,
                    age: row.age,
                    is_sub: row.is_sub,
                };
                let answer = persisted.duplicate();
                self.users.push(persisted);
                proof {
                    assert(self@ =~= old(self)@.push(row@));
                }
                OperationResult::Record(answer)
            },
        }
    }

    /// Rename the record carrying `id`.
    pub fn update_name(&mut self, id: u128, new_name: String) -> (r: OperationResult)
        requires
            old(self).wf(),
        ensures
            final(self)@ == spec_update(old(self)@, id, new_name@).0,
            r@ == spec_update(old(self)@, id, new_name@).1,
    {
        match self.find_index(id) {
            Some(i) => {
                proof {
                    lemma_found_index_is_index_of(old(self)@, id, i as int);
                }
                let prev = self.users.remove(i);
                let renamed = User {
                    uuid: prev.uuid,
                    name: new_name,
                    age: prev.age,
                    is_sub: prev.is_sub,
                };
                let answer = renamed.duplicate();
                self.users.insert(i, renamed);
                proof {
                    assert(self@ =~= spec_update(old(self)@, id, new_name@).0);
                }
                OperationResult::Record(answer)
            },
            None => OperationResult::Failure(ErrorKind::NotFound),
        }
    }

    /// Delete the record carrying `id`; report how many rows went.
    pub fn delete_by_uuid(&mut self, id: u128) -> (r: OperationResult)
        requires
            old(self).wf(),
        ensures
            final(self)@ == spec_delete(old(self)@, id).0,
            r@ == spec_delete(old(self)@, id).1,
    {
        match self.find_index(id) {
            Some(i) => {
                proof {
                    lemma_found_index_is_index_of(old(self)@, id, i as int);
                }
                self.users.remove(i);
                proof {
                    assert(self@ =~= old(self)@.remove(index_of_uuid(old(self)@, id)));
                }
                OperationResult::DeletedCount(1)
            },
            None => OperationResult::DeletedCount(0),
        }
    }

    /// The full snapshot.
    pub fn select_all(&self) -> (r: OperationResult)
        ensures
            r@ == spec_get_all(self@),
    {
        let n = self.users.len();
        let mut out: Vec<User> = Vec::new();
        let mut i: usize = 0;
        while i < n
            invariant
                n == self.users.len(),
                i <= n,
                out@.map_values(|u: User| u@) == self@.subrange(0, i as int),
            decreases n - i,
        {
            let ghost prev = out@;
            let copied = self.users[i].duplicate();
            out.push(copied);
            proof {
                assert(copied@ == self@[i as int]);
                assert(out@.map_values(|u: User| u@) =~= prev.map_values(|u: User| u@).push(
                    copied@,
                ));
                assert(out@.map_values(|u: User| u@) =~= self@.subrange(0, i as int + 1));
            }
            i = i + 1;
        }
        proof {
            assert(self@.subrange(0, n as int) =~= self@);
        }
        OperationResult::RecordList(out)
    }

    /// One operation dispatched exhaustively against this store. `fresh_uuid`
    /// is the identifier a create assigns.
    pub fn execute(&mut self, msg: &Operation, fresh_uuid: u128) -> (r: OperationResult)
        requires
            old(self).wf(),
        ensures
            final(self)@ == spec_execute(old(self)@, msg@, fresh_uuid).0,
            r@ == spec_execute(old(self)@, msg@, fresh_uuid).1,
            final(self).wf(),
    {
        proof {
            lemma_execute_preserves_unique(self@, msg@, fresh_uuid);
        }
        match msg {
            Operation::Create(c) => {
                let row = c.to_row(fresh_uuid);
                self.insert(row)
            },
            Operation::Update(u) => self.update_name(u.uuid, u.name.clone()),
            Operation::Delete(d) => self.delete_by_uuid(d.uuid),
            Operation::GetAll(_) => self.select_all(),
        }
    }
}

/// With a unique identifier column, any position where `id` is found is the
/// position `index_of_uuid` denotes.
pub proof fn lemma_found_index_is_index_of(s: Seq<UserView>, id: u128, i: int)
    requires
        uuids_unique(s),
        0 <= i < s.len(),
        s[i].uuid == id,
    ensures
        contains_uuid(s, id),
        index_of_uuid(s, id) == i,
{
    let j = index_of_uuid(s, id);
    assert(0 <= j < s.len() && s[j].uuid == id);
    if i < j {
        assert(s[i].uuid != s[j].uuid);
    } else if j < i {
        assert(s[j].uuid != s[i].uuid);
    }
}

/// Identifier uniqueness is an invariant of every operation: a colliding
/// create is refused, a rename keeps the identifier, a delete only removes.
pub proof fn lemma_execute_preserves_unique(s: Seq<UserView>, op: OperationView, fresh: u128)
    requires
        uuids_unique(s),
    ensures
        uuids_unique(spec_execute(s, op, fresh).0),
{
    let s2 = spec_execute(s, op, fresh).0;
    match op {
        OperationView::Create { name, age } => {
            if !contains_uuid(s, fresh) {
                assert forall|i: int, j: int| 0 <= i < j < s2.len() implies s2[i].uuid
                    != s2[j].uuid by {
                    if j < s.len() {
                        assert(s[i].uuid != s[j].uuid);
                    } else {
                        assert(s2[j].uuid == fresh);
                        assert(0 <= i < s.len() && s[i].uuid == s2[i].uuid);
                    }
                }
            }
        },
        OperationView::Update { uuid, name } => {
            if contains_uuid(s, uuid) {
                let k = index_of_uuid(s, uuid);
                assert forall|i: int, j: int| 0 <= i < j < s2.len() implies s2[i].uuid
                    != s2[j].uuid by {
                    assert(s2[i].uuid == s[i].uuid);
                    assert(s2[j].uuid == s[j].uuid);
                }
            }
        },
        OperationView::Delete { uuid } => {
            if contains_uuid(s, uuid) {
                let k = index_of_uuid(s, uuid);
                assert forall|i: int, j: int| 0 <= i < j < s2.len() implies s2[i].uuid
                    != s2[j].uuid by {
                    let i0 = if i < k { i } else { i + 1 };
                    let j0 = if j < k { j } else { j + 1 };
                    assert(s2[i] == s[i0]);
                    assert(s2[j] == s[j0]);
                    assert(s[i0].uuid != s[j0].uuid);
                }
            }
        },
        OperationView::GetAll => {},
    }
}

/// The store a run of operations leaves behind, executed in order; each
/// call pairs an operation with the identifier a create would assign.
pub open spec fn run_all(s: Seq<UserView>, calls: Seq<(OperationView, u128)>) -> Seq<UserView>
    decreases calls.len(),
{
    if calls.len() == 0 {
        s
    } else {
        run_all(spec_execute(s, calls[0].0, calls[0].1).0, calls.drop_first())
    }
}

/// However long the run and whatever identifiers the creates draw, the
/// records keep pairwise distinct identifiers: a run of creates yields as
/// many distinct identifiers as records, and a colliding draw is refused,
/// never stored as a duplicate.
pub proof fn lemma_run_all_unique(s: Seq<UserView>, calls: Seq<(OperationView, u128)>)
    requires
        uuids_unique(s),
    ensures
        uuids_unique(run_all(s, calls)),
    decreases calls.len(),
{
    if calls.len() > 0 {
        lemma_execute_preserves_unique(s, calls[0].0, calls[0].1);
        lemma_run_all_unique(spec_execute(s, calls[0].0, calls[0].1).0, calls.drop_first());
    }
}

/// Read-after-write visibility: once a rename is acknowledged with the
/// updated record, a listing taken from the store it left behind shows the
/// record under its new name, and under no other.
pub proof fn lemma_rename_then_list_visible(s: Seq<UserView>, id: u128, name: Seq<char>)
    requires
        uuids_unique(s),
        spec_update(s, id, name).1 is Record,
    ensures
        ({
            let listed = spec_get_all(spec_update(s, id, name).0)->RecordList_0;
            &&& contains_uuid(listed, id)
            &&& forall|k: int|
                0 <= k < listed.len() && listed[k].uuid == id ==> listed[k].name == name
        }),
{
    assert(contains_uuid(s, id));
    let i = index_of_uuid(s, id);
    assert(0 <= i < s.len() && s[i].uuid == id);
    let listed = spec_get_all(spec_update(s, id, name).0)->RecordList_0;
    assert(listed[i].uuid == id && listed[i].name == name);
    assert forall|k: int| 0 <= k < listed.len() && listed[k].uuid == id implies listed[k].name
        == name by {
        if k != i {
            assert(listed[k] == s[k]);
            lemma_found_index_is_index_of(s, id, k);
        }
    }
}

/// Deleting a nonexistent identifier is a successful no-op: the answer is a
/// count of zero, not a failure, and the store is untouched.
pub proof fn lemma_delete_missing_is_no_op(s: Seq<UserView>, id: u128)
    requires
        !contains_uuid(s, id),
    ensures
        spec_delete(s, id) == (s, ResultView::DeletedCount(0)),
{
}

/// Renaming a nonexistent identifier is answered `NotFound` and changes
/// nothing.
pub proof fn lemma_rename_missing_is_not_found(s: Seq<UserView>, id: u128, name: Seq<char>)
    requires
        !contains_uuid(s, id),
    ensures
        spec_update(s, id, name) == (s, ResultView::Failure(ErrorKind::NotFound)),
{
}

} // verus!
