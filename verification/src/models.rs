use vstd::prelude::*;

verus! {

/// A persisted record. Identity is `uuid`, assigned by a worker at creation
/// time so that no caller can pick a colliding identifier on purpose.
pub struct User {
    pub uuid: u128,
    pub name: String,
    pub age: i16,
    pub is_sub: bool,
}

/// The mathematical view of a record: the name as a sequence of characters,
/// everything else as the plain value it is.
pub struct UserView {
    pub uuid: u128,
    pub name: Seq<char>,
    pub age: i16,
    pub is_sub: bool,
}

impl View for User {
    type V = UserView;

    open spec fn view(&self) -> UserView {
        UserView { uuid: self.uuid, name: self.name@, age: self.age, is_sub: self.is_sub }
    }
}

impl User {
    /// An explicit copy; that the copy equals the source is part of the
    /// contract, which a derived `Clone` would not give.
    pub fn duplicate(&self) -> (r: User)
        ensures
            r == *self,
    {
        User { uuid: self.uuid, name: self.name.clone(), age: self.age, is_sub: self.is_sub }
    }
}

/// A record as it is handed to the store for insertion. It carries the same
/// fields as [`User`]; its view is the row it persists as.
pub struct NewUser {
    pub uuid: u128,
    pub name: String,
    pub age: i16,
    pub is_sub: bool,
}

impl View for NewUser {
    type V = UserView;

    open spec fn view(&self) -> UserView {
        UserView { uuid: self.uuid, name: self.name@, age: self.age, is_sub: self.is_sub }
    }
}

/// The payload a caller supplies to create a record: everything but the
/// identifier, which the worker assigns.
pub struct UserPayload {
    pub name: String,
    pub age: i16,
}

/// The payload a caller supplies to rename a record.
pub struct NamePayload {
    pub name: String,
}

} // verus!
