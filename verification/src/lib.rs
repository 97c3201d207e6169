//! Domain blocklists ("addlists"): normalising and validating domain names,
//! parsing fetched source bodies, whitelist filtering and `www.` expansion,
//! the worker pool's queue discipline and the layout of the output files.

pub mod aggregate;
pub mod config;
pub mod errors;
pub mod order;
pub mod store;
pub mod text;
pub mod thread;
