//! The listener worker pool's settings.
//!
//! The pool itself — accepting connections and handing each stream to the
//! topology's reply handler — is socket work and lives outside this crate;
//! what is decided here is its configuration: how many workers run and how
//! long each sleeps when no connection is pending.

use vstd::prelude::*;

verus! {

/// Settings of the accept loop's worker pool.
pub struct ThreadPoolServer {
    pub sleep_ms: u64,
    pub thread_count: u8,
}

impl ThreadPoolServer {
    pub fn new(sleep_ms: u64, thread_count: u8) -> (r: ThreadPoolServer)
        ensures
            r.sleep_ms == sleep_ms,
            r.thread_count == thread_count,
    {
        ThreadPoolServer { sleep_ms, thread_count }
    }

    pub fn get_sleep_ms(&self) -> (r: u64)
        ensures
            r == self.sleep_ms,
    {
        self.sleep_ms
    }

    pub fn get_thread_count(&self) -> (r: u8)
        ensures
            r == self.thread_count,
    {
        self.thread_count
    }
}

} // verus!
