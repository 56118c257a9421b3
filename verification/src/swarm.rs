//! The swarm lifecycle and its configuration.
//!
//! A swarm owns one node's gossip endpoint: its id, bind address, optional
//! seed, and the worker settings. The state machine here decides what the
//! runtime around it may do: `start` demands a stopped swarm and marks it
//! running; `stop` marks it stopped and is a no-op on a stopped swarm, so
//! repeated stops change nothing. Sockets and threads live outside this
//! crate and follow these transitions.

use vstd::prelude::*;

use crate::errors::SwarmError;
use crate::node::{addr_wf, NetAddr};

verus! {

/// What a swarm runs with: the bind address and the worker settings.
pub struct SwarmConfig {
    pub addr: NetAddr,
    pub listener_workers: u8,
    pub listener_sleep_ms: u64,
    pub gossip_interval_ms: u64,
}

/// Builds a `SwarmConfig`. The bind address is required; workers default
/// to 2, the listener sleep to 50 ms, the gossip interval to 2000 ms.
pub struct SwarmConfigBuilder {
    pub addr: Option<NetAddr>,
    pub listener_workers: u8,
    pub listener_sleep_ms: u64,
    pub gossip_interval_ms: u64,
}

impl SwarmConfigBuilder {
    pub fn new() -> (r: SwarmConfigBuilder)
        ensures
            r.addr is None,
            r.listener_workers == 2,
            r.listener_sleep_ms == 50,
            r.gossip_interval_ms == 2000,
    {
        SwarmConfigBuilder {
            addr: None,
            listener_workers: 2,
            listener_sleep_ms: 50,
            gossip_interval_ms: 2000,
        }
    }

    pub fn addr(self, addr: NetAddr) -> (r: SwarmConfigBuilder)
        ensures
            r == (SwarmConfigBuilder { addr: Some(addr), ..self }),
    {
        SwarmConfigBuilder { addr: Some(addr), ..self }
    }

    pub fn listener_workers(self, n: u8) -> (r: SwarmConfigBuilder)
        ensures
            r == (SwarmConfigBuilder { listener_workers: n, ..self }),
    {
        SwarmConfigBuilder { listener_workers: n, ..self }
    }

    pub fn listener_sleep(self, ms: u64) -> (r: SwarmConfigBuilder)
        ensures
            r == (SwarmConfigBuilder { listener_sleep_ms: ms, ..self }),
    {
        SwarmConfigBuilder { listener_sleep_ms: ms, ..self }
    }

    pub fn gossip_interval(self, ms: u64) -> (r: SwarmConfigBuilder)
        ensures
            r == (SwarmConfigBuilder { gossip_interval_ms: ms, ..self }),
    {
        SwarmConfigBuilder { gossip_interval_ms: ms, ..self }
    }

    /// Refused with `Bind` exactly when no bind address was given.
    pub fn build(self) -> (r: Result<SwarmConfig, SwarmError>)
        ensures
            match r {
                Ok(c) => self.addr == Some(c.addr) && c.listener_workers == self.listener_workers
                    && c.listener_sleep_ms == self.listener_sleep_ms && c.gossip_interval_ms
                    == self.gossip_interval_ms,
                Err(e) => e == SwarmError::Bind && self.addr is None,
            },
    {
        match self.addr {
            Some(addr) => Ok(
                SwarmConfig {
                    addr,
                    listener_workers: self.listener_workers,
                    listener_sleep_ms: self.listener_sleep_ms,
                    gossip_interval_ms: self.gossip_interval_ms,
                },
            ),
            None => Err(SwarmError::Bind),
        }
    }
}

/// One node's gossip endpoint and its lifecycle flag.
pub struct Swarm {
    pub id: u32,
    pub address: NetAddr,
    pub seed_address: Option<NetAddr>,
    pub running: bool,
    pub thread_count: u8,
    pub thread_sleep_ms: u64,
    pub gossip_interval_ms: u64,
}

/// A stop transition: the flag cleared, everything else kept.
pub open spec fn spec_stop(s: Swarm) -> Swarm {
    Swarm { running: false, ..s }
}

impl Swarm {
    /// A stopped swarm with default worker settings.
    pub fn new(id: u32, address: NetAddr, seed_address: Option<NetAddr>) -> (r: Swarm)
        requires
            addr_wf(address@),
        ensures
            r.id == id,
            r.address == address,
            r.seed_address == seed_address,
            !r.running,
            r.thread_count == 2,
            r.thread_sleep_ms == 50,
            r.gossip_interval_ms == 2000,
    {
        Swarm {
            id,
            address,
            seed_address,
            running: false,
            thread_count: 2,
            thread_sleep_ms: 50,
            gossip_interval_ms: 2000,
        }
    }

    /// Mark the swarm running with the given worker settings. Starting a
    /// running swarm is a programming error, so a stopped one is demanded.
    pub fn start(&mut self, thread_count: u8, thread_sleep_ms: u64, gossip_interval_ms: u64)
        requires
            !old(self).running,
        ensures
            final(self).running,
            final(self).id == old(self).id,
            final(self).address == old(self).address,
            final(self).seed_address == old(self).seed_address,
            final(self).thread_count == thread_count,
            final(self).thread_sleep_ms == thread_sleep_ms,
            final(self).gossip_interval_ms == gossip_interval_ms,
    {
        self.thread_count = thread_count;
        self.thread_sleep_ms = thread_sleep_ms;
        self.gossip_interval_ms = gossip_interval_ms;
        self.running = true;
    }

    /// Mark the swarm stopped. On a stopped swarm this changes nothing,
    /// so repeated stops are no-ops.
    pub fn stop(&mut self)
        ensures
            *final(self) == spec_stop(*old(self)),
            !final(self).running,
    {
        self.running = false;
    }

    pub fn is_running(&self) -> (r: bool)
        ensures
            r == self.running,
    {
        self.running
    }
}

/// Stopping twice is stopping once: the transition is idempotent.
pub proof fn lemma_stop_idempotent(s: Swarm)
    ensures
        spec_stop(spec_stop(s)) == spec_stop(s),
{
}

} // verus!
