//! Core of a minimal init system: the logic that orders service startup by
//! dependencies, supervises service lifecycles (restart policies, a restart
//! cap, explicit stops), latches asynchronously delivered signals for a
//! polling loop, and plans an orderly shutdown.
//!
//! Process spawning, signal registration, mounting and the power-off syscall
//! are performed by a thin unverified front end; this crate makes every
//! ordering, restart and shutdown decision and is verified with Verus.

pub mod config;
pub mod dependency;
pub mod lex;
pub mod mount;
pub mod service;
pub mod shutdown;
pub mod signals;
pub mod supervisor;
