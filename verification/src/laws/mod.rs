//! What the operations are for: statements on their inputs and results that do not
//! say how a result is found.

pub mod answers;
pub mod cache;
pub mod claims;
pub mod download;
pub mod engine;
pub mod fetch;
pub mod hosts;
pub mod lessons;
pub mod models;
pub mod names;
pub mod plugins;
pub mod probe;
pub mod requests;
pub mod saving;
pub mod schedule;
pub mod serve;
pub mod sizes;
pub mod tasks;
pub mod texts;
