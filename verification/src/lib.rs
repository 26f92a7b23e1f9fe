//! Multi-threaded HTTP streaming proxy: the verified core.

pub mod address;
pub mod assets;
pub mod cache;
pub mod cli;
pub mod codec;
pub mod disposition;
pub mod dns;
pub mod download;
pub mod engine;
pub mod error;
pub mod fetch;
pub mod fs_pick;
pub mod headers;
pub mod hostmap;
pub mod intervals;
pub mod laws;
pub mod models;
pub mod names;
pub mod num;
pub mod order;
pub mod plugins;
pub mod probe;
pub mod ranges;
pub mod requests;
pub mod schedule;
pub mod serve;
pub mod sizes;
pub mod text;
