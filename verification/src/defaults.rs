//! Default values of the configuration.
use vstd::prelude::*;

verus! {

/// Path of the configuration file if nothing else is given.
pub const DEFAULT_CONFIG_PATH: &'static str = "/etc/fence/conf.toml";

/// Number of record slots.
pub const DEFAULT_CAPACITY: u32 = 1_000_000;

/// Payload bytes per record.
pub const DEFAULT_PAYLOAD_SIZE: u32 = 128;

/// Maximum number of hosts.
pub const DEFAULT_MAX_HOSTS: u16 = 16;

/// This host.
pub const DEFAULT_HOST_ID: u16 = 0;

/// Overflow strategy.
pub const DEFAULT_OVERFLOW_STRATEGY: &'static str = "error";

/// Whether to recover on open.
pub const DEFAULT_AUTO_RECOVER: bool = true;

/// Time limit for recovery in milliseconds (not applied by recovery itself).
pub const DEFAULT_RECOVERY_TIMEOUT_MS: u64 = 5000;

/// Log level.
pub const DEFAULT_LOG_LEVEL: &'static str = "info";

} // verus!
