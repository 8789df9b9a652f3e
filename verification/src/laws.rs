//! What the policy promises.

pub mod accounting;
pub mod attempts;
pub mod boost;
pub mod consistency;
pub mod failure;
pub mod focus;
pub mod maintenance;
pub mod operations;
pub mod restoration;
pub mod retirement;
pub mod run;
pub mod shutdown;
pub mod tracking;
