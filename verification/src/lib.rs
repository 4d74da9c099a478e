//! A small version control system in the manner of Git: content-addressed
//! objects, a staging area, commits, branches and fast-forward merges.
pub mod text;
pub mod hashing;
pub mod json;
pub mod objects;
pub mod assoc;
pub mod index;
pub mod tree;
pub mod store;
pub mod restore;
pub mod history;
pub mod refs;
pub mod ignore;
pub mod worktree;
pub mod diff;
pub mod snapshot;
pub mod cycles;
