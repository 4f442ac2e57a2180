//! A capacity-bounded pool of persistent worker servers, reused across many
//! short-lived execution requests instead of being relaunched each time.
//!
//! Callers describe a worker with a [`fingerprint::ProcessSpec`]; the pool
//! either hands back a live server already started for an identical
//! specification, or decides that a new one must be spawned, evicting the
//! least-recently-used idle server when the capacity limit is reached.
//!
//! The pool itself is a sequential decision core: every step that touches the
//! registry is a verified function on plain values. Spawning, killing and
//! health-probing real processes are left to the surrounding runtime, which
//! drives the pool under its own lock and feeds the outcomes back in.

pub mod fingerprint;
pub mod laws;
pub mod pool;
