//! The decisions of a daemon that has files scanned by `clamd` before other
//! processes may open them.
//!
//! The kernel asks, through fanotify, whether a file may be opened; the answer
//! depends on who asks, on where the file lies and on what `clamd` says of it.
//! What is decided on the way is decided here. What has to be done in between
//! (reading, writing, waiting) is left to the caller, who reports how it went.

pub mod config;
pub mod errno;
pub mod job;
pub mod mount;
pub mod path;
pub mod pool;
pub mod scan;
pub mod text;
