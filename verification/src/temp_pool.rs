//! Parameters of pools for tests.
use crate::engine::PoolConfig;
use vstd::prelude::*;

verus! {

/// Collects the parameters of a pool for tests.
#[derive(Debug, Clone, Copy)]
pub struct TempPoolBuilder {
    capacity: u32,
    payload_size: u32,
    max_hosts: u16,
    host_id: u16,
}

/// The parameters collected so far.
pub struct TempPoolParameters {
    pub capacity: u32,
    pub payload_size: u32,
    pub max_hosts: u16,
    pub host_id: u16,
}

impl View for TempPoolBuilder {
    type V = TempPoolParameters;

    closed spec fn view(&self) -> TempPoolParameters {
        TempPoolParameters {
            capacity: self.capacity,
            payload_size: self.payload_size,
            max_hosts: self.max_hosts,
            host_id: self.host_id,
        }
    }
}

impl Default for TempPoolBuilder {
    /// 1024 slots of 128 bytes, 4 hosts, host 0.
    fn default() -> (builder: Self)
        ensures
            builder@ == (TempPoolParameters {
                capacity: 1024,
                payload_size: 128,
                max_hosts: 4,
                host_id: 0,
            }),
    {
        TempPoolBuilder { capacity: 1024, payload_size: 128, max_hosts: 4, host_id: 0 }
    }
}

impl TempPoolBuilder {
    /// Sets the number of slots.
    pub fn capacity(self, capacity: u32) -> (builder: Self)
        ensures
            builder@ == (TempPoolParameters { capacity, ..self@ }),
    {
        TempPoolBuilder { capacity, ..self }
    }

    /// Sets the payload bytes per record.
    pub fn payload_size(self, payload_size: u32) -> (builder: Self)
        ensures
            builder@ == (TempPoolParameters { payload_size, ..self@ }),
    {
        TempPoolBuilder { payload_size, ..self }
    }

    /// Sets the number of hosts.
    pub fn max_hosts(self, max_hosts: u16) -> (builder: Self)
        ensures
            builder@ == (TempPoolParameters { max_hosts, ..self@ }),
    {
        TempPoolBuilder { max_hosts, ..self }
    }

    /// Sets this host.
    pub fn host_id(self, host_id: u16) -> (builder: Self)
        ensures
            builder@ == (TempPoolParameters { host_id, ..self@ }),
    {
        TempPoolBuilder { host_id, ..self }
    }

    /// The configuration that creates the pool at `path`.
    pub fn config(self, path: String) -> (config: PoolConfig)
        ensures
            config == (PoolConfig {
                path,
                capacity: self@.capacity,
                payload_size: self@.payload_size,
                max_hosts: self@.max_hosts,
                host_id: self@.host_id,
                create: true,
            }),
    {
        PoolConfig {
            path,
            capacity: self.capacity,
            payload_size: self.payload_size,
            max_hosts: self.max_hosts,
            host_id: self.host_id,
            create: true,
        }
    }
}

} // verus!
