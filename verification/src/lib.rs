//! The bookkeeping core of a single-threaded, readiness-driven TCP echo server.
//!
//! The crate holds no socket and makes no system call. It owns the state that an
//! event loop needs between two readiness notifications, and decides what the
//! loop does next: which token a new connection gets, whether a notification
//! belongs to the listener, to a live connection or to nobody, and how the bytes
//! of one read are written back in full.

pub mod echo;
pub mod pool;
pub mod reactor;
pub mod token;
pub mod tokenmanager;
