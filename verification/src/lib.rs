//! Resolution of security identifiers (ISINs) into exchange-qualified
//! ticker symbols, the cache of resolved symbols, and the comparison of two
//! exported symbol lists.
//!
//! The library computes and decides; reading and writing files, asking the
//! lookup provider and running the worker pool are left to its caller.

pub mod cache;
pub mod envs;
pub mod finance;
pub mod settings;
pub mod stamp;
pub mod text;
pub mod utils;
