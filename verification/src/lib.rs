//! Key-Pair Vault: keeps one `.env` file per key under a vault directory and
//! links a kept file back into a working directory.
//!
//! The library decides; it touches no file itself. `paths` says where things
//! live, `keys` derives a key from the working directory, `listing` orders
//! keys, `commands` turns what was found on disk into the steps to take, and
//! `report` words the outcome. `tree` says what the steps do to a file tree,
//! `disk` is such a tree in memory, `vault` runs the commands on it, and
//! `laws` holds what is proved of the commands on every tree.

pub mod commands;
pub mod disk;
pub mod error;
pub mod keys;
pub mod laws;
pub mod listing;
pub mod paths;
pub mod report;
pub mod tree;
pub mod vault;
