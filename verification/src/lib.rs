//! NightWhale: an idea exchange. Problems are searchable units of intent,
//! ideas are peer candidate solutions, and a local ledger records what the
//! user bought, improved or rejected.

pub mod commands;
pub mod local_repo;
pub mod model;
pub mod paths;
pub mod registry;
pub mod text;
