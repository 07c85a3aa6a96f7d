//! A persistent-memory buddy allocator with crash-consistent metadata updates.
//!
//! The allocator manages a fixed-size region whose durable words are modelled
//! here as a vector of 64-bit words: free blocks thread through the region by
//! offset-valued `next` pointers, and the free-list heads live in an index
//! placed just past the arena.  Every metadata change is first staged as a set
//! of absolute word writes in a bounded auxiliary log, then committed by a
//! two-phase drain protocol whose commit point is the `aux_valid` flag, so
//! that recovery after a crash observes either the pre-operation or the
//! post-operation state, never an intermediate one.
//!
//! Durability primitives (cache-line flush and store fence) are identity in
//! this model: a crash is modelled as stopping the drain protocol at a step
//! boundary, which [`buddy::BuddyAlg::drain_aux_steps`] makes explicit.

pub mod buddy;
pub mod drain;
pub mod marker;
pub mod pool;
pub mod ring;
pub mod walk;

pub use buddy::BuddyAlg;
pub use pool::Pool;
pub use ring::Ring;
