//! A directory-based schema-migration engine.
//!
//! Migration scripts are split into statements by [`parser`], the log of
//! applied and rolled-back migrations is folded into net states by
//! [`history`], [`selector`] picks and orders the migrations that a run has to
//! execute, and [`migrator`] drives a run against a [`store::Store`].
//!
//! [`layout`] names the directories and scripts of migrations, [`initial`]
//! writes the scripts of the first migration, and [`config`] holds the
//! settings of the database connection.
//!
//! The engine reads no file itself: it is handed the directories as they
//! were found under the migrations root, each with the text of its scripts.

pub mod config;
pub mod error;
pub mod history;
pub mod initial;
pub mod layout;
pub mod migrator;
pub mod parser;
pub mod selector;
pub mod store;
