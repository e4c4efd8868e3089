//! Crash-consistent shared-memory log for CXL memory pools.
//!
//! Hosts that share memory append records to a log, read them, trim old ones and recover
//! the log after a crash, without locks. Every record is flushed to the medium before
//! anything points to it, so readers never see unfinished records, and any surviving host
//! can put the log in order.
//!
//! - [`engine`]: the log operations; [`recovery`], [`compaction`], [`metrics`]: their parts.
//! - [`backend`]: access to shared memory; [`heap_backend`]: memory of this process.
//! - [`layout`]: where things lie in a pool; [`pool`]: what they mean.
//! - [`protocol`]: the operations access by access; [`system`]: many hosts at once, and
//!   crashes; [`progress`]: that appends side by side lose nothing; [`protocol_laws`]: what
//!   holds of each operation on its own, whatever the others do.
//! - [`laws`]: what holds of the log as a whole; [`reading_laws`]: what reads and appends
//!   answer; [`counting_laws`]: what trims, recovery runs and statistics count.
//! - [`allocator`], [`catalog`], [`region`]: named regions; [`alloc_laws`]: what holds of them;
//!   [`listing_laws`]: where they are placed, which are found and listed.
//! - [`config`]: the configuration; [`startup`]: opening a configured pool; [`report`]: what the
//!   daemon prints; [`message_laws`]: what messages tell.
//! - [`mmap_backend`], [`persistence`]: decisions behind mapping files and flushing caches.
//! - [`crash_sim`], [`assertions`], [`temp_pool`], [`barrier`]: aids for tests.
pub mod alloc_laws;
pub mod allocator;
pub mod assertions;
pub mod backend;
pub mod barrier;
pub mod catalog;
pub mod checksum;
pub mod compaction;
pub mod config;
pub mod counting_laws;
pub mod crash_sim;
pub mod defaults;
pub mod engine;
pub mod error;
pub mod heap_backend;
pub mod laws;
pub mod layout;
pub mod listing_laws;
pub mod memory;
pub mod message_laws;
pub mod metrics;
pub mod mmap_backend;
pub mod persistence;
pub mod pool;
pub mod progress;
pub mod protocol;
pub mod protocol_laws;
pub mod reading_laws;
pub mod record;
pub mod recovery;
pub mod region;
pub mod report;
pub mod startup;
pub mod system;
pub mod temp_pool;
pub mod text;
