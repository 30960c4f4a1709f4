//! Share catalog core: a transactional metadata layer that manages
//! cross-tenant data shares on top of a versioned key-value store.
//!
//! A share is a named capability object owned by a tenant. It offers a set
//! of other tenant accounts read-style privileges over one database and the
//! tables inside it. The catalog keeps several key spaces (name -> id,
//! id -> meta, id -> name, per-account membership records, and a reverse
//! index from shared objects to share ids) mutually consistent, using only
//! compare-and-swap transactions over per-key sequence numbers.
#![verifier::loop_isolation(false)]

pub mod api;
pub mod catalog;
pub mod interpreter;
pub mod kv;
pub mod laws;
pub mod meta;
pub mod queries;
pub mod state;
pub mod types;
