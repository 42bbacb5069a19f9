//! Achievement trigger engine: per-user admission of evaluation runs,
//! the rule library that decides which achievements a user has earned,
//! and the bookkeeping around unlocks, skill points and levels.

pub mod gate;
pub mod skills;
pub mod loops;
pub mod models;
pub mod rules;
pub mod catalog;
pub mod unlocks;
pub mod tools;
pub mod assets;
