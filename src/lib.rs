//! Ordered, transactional bulk loading of GTFS-style feeds into SQLite.
//!
//! - `rank`: the load order of a feed's tables.
//! - `rows`: parent-first reordering of the facility table's rows.
//! - `files`: which files are tables, and which tables are skipped.
//! - `sql`: the insert statement of a table and the values bound per row.
//! - `store`: the commands a store accepts, and the calls into `rusqlite`
//!   and `csv`.
//! - `loader`: the store with its record of commands, and loading
//!   tables, feeds and sessions.
pub mod rank;
pub mod rows;
pub mod files;
pub mod sql;
pub mod store;
pub mod loader;
