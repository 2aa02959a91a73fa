//! Online algorithms for shared data: adaptive page replication across
//! processors, self-organising lists, page caches and page migration.

pub mod allocation;
pub mod random;
pub mod trial;
pub mod cost;
pub mod access;
pub mod migration;
pub mod cache;
