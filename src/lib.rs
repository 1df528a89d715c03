//! Bookkeeping for a distributed semaphore service: a ledger of leases held by peers against
//! named semaphores, and the admission rules that decide which leases are active.

pub mod config;
pub mod leases;
pub mod state;
pub mod laws;
pub mod service;
