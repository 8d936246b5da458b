//! A worker-pool dispatcher for user records.
//!
//! A fixed set of long-lived workers, each owning one exclusive
//! [`pool::ResourceHandle`], drains a shared bounded mailbox of typed work
//! items and answers each with exactly one typed result, correlated by a
//! ticket that stands for the caller's single-use reply channel.
//!
//! The store the workers execute against is modelled as an in-memory table
//! with the standard CRUD contracts; the surrounding transport (HTTP
//! routing, the relational backend, the actor runtime) lives outside this
//! crate and hands plain values in and out.

mod ids;
pub mod mailbox;
pub mod messages;
pub mod models;
pub mod pool;
pub mod store;
