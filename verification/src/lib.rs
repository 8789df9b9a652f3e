//! Raises device-memory protection for the focused application, and gives every limit
//! back.
//!
//! `policy` holds the operations of the service. Each is a conversation with the system
//! (`program`): it asks for one thing after another (`request`), and every answer decides
//! how it goes on. What an operation asks, in which order, and what the policy remembers
//! afterwards (`state`) is what its contract states. `restore`, `recover`, `activate`,
//! `reconcile`, `register`, `untrack`, `each`, `events` and `maintenance` hold the
//! conversations.
//!
//! `laws` holds what the service promises, proved of these conversations for every way
//! in which the system (`world`) may answer.
//!
//! `cgroup`, `recovery`, `focus`, `path` and `text` read and write what the kernel, the
//! compositor and the service itself store. `units`, `discovery`, `session`,
//! `diagnostics` and `watch` decide what the service does around the policy.

pub mod activate;
pub mod cgroup;
pub mod diagnostics;
pub mod discovery;
pub mod each;
pub mod events;
pub mod focus;
pub mod laws;
pub mod maintenance;
pub mod path;
pub mod paths;
pub mod policy;
pub mod program;
pub mod reconcile;
pub mod recover;
pub mod recovery;
pub mod register;
pub mod request;
pub mod restore;
pub mod session;
pub mod state;
pub mod table;
pub mod text;
pub mod units;
pub mod untrack;
pub mod watch;
pub mod world;
