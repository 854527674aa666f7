//! Status synthesis for a shell prompt: what change the working copy is on,
//! whether it is clean, named, still open to change and in step with a
//! remote,
//! rendered as one styled line.
//!
//! The library works on plain values. `refs` and `graph` hold what it reads
//! of a repository; `heads` tells which commits are immutable, `ancestors`
//! searches the ancestry for bookmarks, `sync` compares a bookmark with its
//! remotes, `jj` puts the status together, and `plugin` renders it with the
//! colors of `color`. Reading a repository from disk and talking to a shell
//! are left to the program that uses the library.

pub mod ancestors;
pub mod change_id;
pub mod color;
pub mod error;
pub mod graph;
pub mod heads;
pub mod jj;
pub mod plugin;
pub mod refs;
mod search_proof;
pub mod sync;
pub mod text;
