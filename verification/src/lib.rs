//! Core of a single-threaded, readiness-driven TCP greeting server.
//!
//! The library holds everything the server decides: how accepted
//! connections are tracked and identified, how one readiness event is
//! turned into write/read/close actions, and how the per-event read
//! buffer accumulates and grows.  The surrounding binary owns the
//! sockets and the OS readiness facility; it feeds every I/O outcome to
//! these functions as a plain value and carries out the actions they
//! return.

pub mod buffer;
pub mod events;
pub mod lifecycle;
pub mod manager;
