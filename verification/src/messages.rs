use vstd::prelude::*;
use crate::models::{NamePayload, NewUser, User, UserPayload, UserView};

verus! {

/// Request to create a record; the identifier is assigned by the worker.
pub struct Create {
    pub name: String,
    pub age: i16,
}

impl Create {
    /// The operation a validated creation payload asks for.
    pub fn from_payload(p: UserPayload) -> (c: Create)
        ensures
            c.name@ == p.name@,
            c.age == p.age,
    {
        Create { name: p.name, age: p.age }
    }

    /// The row this request persists: the freshly drawn identifier, the
    /// caller's name and age, and the server default for the subscription
    /// flag.
    pub fn to_row(&self, fresh_uuid: u128) -> (row: NewUser)
        ensures
            row@ == (UserView { uuid: fresh_uuid, name: self.name@, age: self.age, is_sub: false }),
    {
        NewUser { uuid: fresh_uuid, name: self.name.clone(), age: self.age, is_sub: false }
    }
}

/// Request to rename the record whose identifier is `uuid`.
pub struct Update {
    pub uuid: u128,
    pub name: String,
}

impl Update {
    /// The operation a validated rename payload asks for, addressed to
    /// `uuid`.
    pub fn from_payload(uuid: u128, p: NamePayload) -> (u: Update)
        ensures
            u.uuid == uuid,
            u.name@ == p.name@,
    {
        Update { uuid, name: p.name }
    }
}

/// Request to delete the record whose identifier is `uuid`.
pub struct Delete {
    pub uuid: u128,
}

/// Request for a snapshot of all records.
pub struct GetAll;

/// The tagged union of the four operations a work item can carry.
pub enum Operation {
    Create(Create),
    Update(Update),
    Delete(Delete),
    GetAll(GetAll),
}

/// The mathematical view of an operation.
pub enum OperationView {
    Create { name: Seq<char>, age: i16 },
    Update { uuid: u128, name: Seq<char> },
    Delete { uuid: u128 },
    GetAll,
}

impl View for Operation {
    type V = OperationView;

    open spec fn view(&self) -> OperationView {
        match self {
            Operation::Create(c) => OperationView::Create { name: c.name@, age: c.age },
            Operation::Update(u) => OperationView::Update { uuid: u.uuid, name: u.name@ },
            Operation::Delete(d) => OperationView::Delete { uuid: d.uuid },
            Operation::GetAll(_) => OperationView::GetAll,
        }
    }
}

/// Why an operation failed. `NotFound` is a normal negative answer;
/// `ResourceError` stands for a fault of the underlying resource, which the
/// worker survives.
#[derive(Clone, Copy, PartialEq, Eq, Structural, Debug)]
pub enum ErrorKind {
    NotFound,
    ResourceError,
}

/// The tagged union of the answers an operation can produce. Its shape
/// matches the operation: `Record` answers create and rename, `RecordList`
/// answers the listing, `DeletedCount` answers deletion, and `Failure`
/// answers any of them negatively.
pub enum OperationResult {
    Record(User),
    RecordList(Vec<User>),
    DeletedCount(u64),
    Failure(ErrorKind),
}

/// The mathematical view of an operation's answer.
pub enum ResultView {
    Record(UserView),
    RecordList(Seq<UserView>),
    DeletedCount(u64),
    Failure(ErrorKind),
}

impl View for OperationResult {
    type V = ResultView;

    open spec fn view(&self) -> ResultView {
        match self {
            OperationResult::Record(u) => ResultView::Record(u@),
            OperationResult::RecordList(v) => ResultView::RecordList(
                v@.map_values(|u: User| u@),
            ),
            OperationResult::DeletedCount(n) => ResultView::DeletedCount(*n),
            OperationResult::Failure(e) => ResultView::Failure(*e),
        }
    }
}

} // verus!
