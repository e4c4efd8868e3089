//! Configuration: defaults, validation, and where the file is found.
//!
//! The configuration file is TOML. What was parsed of it is a [`RawConfig`], in which
//! everything but the pool's path may be missing; [`FenceConfig::from_raw`] fills in the
//! defaults and validates the result.
use crate::defaults::{
    DEFAULT_AUTO_RECOVER, DEFAULT_CAPACITY, DEFAULT_CONFIG_PATH, DEFAULT_HOST_ID,
    DEFAULT_MAX_HOSTS, DEFAULT_OVERFLOW_STRATEGY, DEFAULT_PAYLOAD_SIZE,
    DEFAULT_RECOVERY_TIMEOUT_MS,
};
use crate::engine::PoolConfig;
use crate::text;
use vstd::prelude::*;
use vstd::string::*;

verus! {

/// The configuration.
#[derive(Debug, Clone)]
pub struct FenceConfig {
    pub pool: PoolSection,
    pub host: HostSection,
    pub overflow: OverflowSection,
    pub recovery: RecoverySection,
}

/// The pool.
#[derive(Debug, Clone)]
pub struct PoolSection {
    /// Path of the backing file or device.
    pub path: String,
    /// Number of record slots.
    pub capacity: u32,
    /// Payload bytes per record.
    pub payload_size: u32,
    /// Maximum number of hosts.
    pub max_hosts: u16,
}

/// This host.
#[derive(Debug, Clone)]
pub struct HostSection {
    /// This host's number (counted from 0, below `max_hosts`).
    pub host_id: u16,
    /// Name for people to read.
    pub name: Option<String>,
}

/// What to do when the pool is full.
#[derive(Debug, Clone)]
pub struct OverflowSection {
    /// "error", "segmented" or "circular".
    pub strategy: String,
    /// Maximum number of segments (for "segmented").
    pub max_segments: Option<u32>,
    /// "block" or "drop" (for "circular").
    pub backpressure: Option<String>,
}

/// Recovery.
#[derive(Debug, Clone)]
pub struct RecoverySection {
    /// Recover when a pool is opened.
    pub auto_recover: bool,
    /// Time limit for recovery in milliseconds. Held for hosts that watch a clock; recovery
    /// itself does not apply it and always runs to its end.
    pub recovery_timeout_ms: u64,
}

/// The configuration as it was parsed.
#[derive(Debug, Clone)]
pub struct RawConfig {
    pub pool: RawPool,
    pub host: Option<RawHost>,
    pub overflow: Option<RawOverflow>,
    pub recovery: Option<RawRecovery>,
}

/// The `pool` section as it was parsed.
#[derive(Debug, Clone)]
pub struct RawPool {
    pub path: String,
    pub capacity: Option<u32>,
    pub payload_size: Option<u32>,
    pub max_hosts: Option<u16>,
}

/// The `host` section as it was parsed.
#[derive(Debug, Clone)]
pub struct RawHost {
    pub host_id: Option<u16>,
    pub name: Option<String>,
}

/// The `overflow` section as it was parsed.
#[derive(Debug, Clone)]
pub struct RawOverflow {
    pub strategy: Option<String>,
    pub max_segments: Option<u32>,
    pub backpressure: Option<String>,
}

/// The `recovery` section as it was parsed.
#[derive(Debug, Clone)]
pub struct RawRecovery {
    pub auto_recover: Option<bool>,
    pub recovery_timeout_ms: Option<u64>,
}

/// Configuration errors.
#[derive(Debug, Clone, PartialEq, Eq)]
pub enum ConfigError {
    /// The file could not be read.
    FileNotFound { path: String },
    /// The file is not the TOML that is expected.
    ParseError { detail: String },
    /// A field has an invalid value.
    ValidationError { field: String, detail: String },
}

impl ConfigError {
    /// The message that describes the error.
    pub open spec fn message(self) -> Seq<char> {
        match self {
            ConfigError::FileNotFound { path } => "config file not found: "@ + path@,
            ConfigError::ParseError { detail } => "config parse error: "@ + detail@,
            ConfigError::ValidationError { field, detail } => "invalid config: "@ + field@ + ": "@
                + detail@,
        }
    }

    /// Renders the error for display.
    pub fn to_string(&self) -> (s: String)
        ensures
            s@ == self.message(),
    {
        let mut s: String = String::new();
        match self {
            ConfigError::FileNotFound { path } => {
                s.append("config file not found: ");
                s.append(path.as_str());
            },
            ConfigError::ParseError { detail } => {
                s.append("config parse error: ");
                s.append(detail.as_str());
            },
            ConfigError::ValidationError { field, detail } => {
                s.append("invalid config: ");
                s.append(field.as_str());
                s.append(": ");
                s.append(detail.as_str());
            },
        }
        assert(s@ =~= self.message());
        s
    }
}

/// A field with an invalid value, and what is wrong with it.
#[verifier::ext_equal]
pub struct Complaint {
    pub field: Seq<char>,
    pub detail: Seq<char>,
}

impl Default for HostSection {
    fn default() -> (section: Self)
        ensures
            section.host_id == DEFAULT_HOST_ID,
            section.name is None,
    {
        HostSection { host_id: DEFAULT_HOST_ID, name: None }
    }
}

impl Default for OverflowSection {
    fn default() -> (section: Self)
        ensures
            section.strategy@ == DEFAULT_OVERFLOW_STRATEGY@,
            section.max_segments is None,
            section.backpressure is None,
    {
        OverflowSection {
            strategy: DEFAULT_OVERFLOW_STRATEGY.to_string(),
            max_segments: None,
            backpressure: None,
        }
    }
}

impl Default for RecoverySection {
    fn default() -> (section: Self)
        ensures
            section.auto_recover == DEFAULT_AUTO_RECOVER,
            section.recovery_timeout_ms == DEFAULT_RECOVERY_TIMEOUT_MS,
    {
        RecoverySection {
            auto_recover: DEFAULT_AUTO_RECOVER,
            recovery_timeout_ms: DEFAULT_RECOVERY_TIMEOUT_MS,
        }
    }
}

/// A value, or its default where it is missing.
pub open spec fn or_else<T>(value: Option<T>, default: T) -> T {
    match value {
        Some(v) => v,
        None => default,
    }
}

/// `config` is `raw` with the defaults filled in.
pub open spec fn filled_in(raw: RawConfig, config: FenceConfig) -> bool {
    &&& config.pool.path@ == raw.pool.path@
    &&& config.pool.capacity == or_else(raw.pool.capacity, DEFAULT_CAPACITY)
    &&& config.pool.payload_size == or_else(raw.pool.payload_size, DEFAULT_PAYLOAD_SIZE)
    &&& config.pool.max_hosts == or_else(raw.pool.max_hosts, DEFAULT_MAX_HOSTS)
    &&& match raw.host {
        Some(host) => {
            &&& config.host.host_id == or_else(host.host_id, DEFAULT_HOST_ID)
            &&& config.host.name == host.name
        },
        None => config.host.host_id == DEFAULT_HOST_ID && config.host.name is None,
    }
    &&& match raw.overflow {
        Some(overflow) => {
            &&& config.overflow.strategy@ == (match overflow.strategy {
                Some(strategy) => strategy@,
                None => DEFAULT_OVERFLOW_STRATEGY@,
            })
            &&& config.overflow.max_segments == overflow.max_segments
            &&& config.overflow.backpressure == overflow.backpressure
        },
        None => {
            &&& config.overflow.strategy@ == DEFAULT_OVERFLOW_STRATEGY@
            &&& config.overflow.max_segments is None
            &&& config.overflow.backpressure is None
        },
    }
    &&& match raw.recovery {
        Some(recovery) => {
            &&& config.recovery.auto_recover == or_else(
                recovery.auto_recover,
                DEFAULT_AUTO_RECOVER,
            )
            &&& config.recovery.recovery_timeout_ms == or_else(
                recovery.recovery_timeout_ms,
                DEFAULT_RECOVERY_TIMEOUT_MS,
            )
        },
        None => {
            &&& config.recovery.auto_recover == DEFAULT_AUTO_RECOVER
            &&& config.recovery.recovery_timeout_ms == DEFAULT_RECOVERY_TIMEOUT_MS
        },
    }
}

impl FenceConfig {
    /// What is wrong with the first field that has an invalid value.
    pub open spec fn complaint(self) -> Option<Complaint> {
        if self.pool.capacity == 0 {
            Some(Complaint { field: "pool.capacity"@, detail: "must be > 0"@ })
        } else if self.pool.payload_size == 0 {
            Some(Complaint { field: "pool.payload_size"@, detail: "must be > 0"@ })
        } else if self.pool.payload_size > 65536 {
            Some(Complaint { field: "pool.payload_size"@, detail: "must be <= 65536"@ })
        } else if self.pool.payload_size % 8 != 0 {
            Some(
                Complaint {
                    field: "pool.payload_size"@,
                    detail: "must be a multiple of 8 (alignment)"@,
                },
            )
        } else if self.pool.max_hosts == 0 || self.pool.max_hosts > 256 {
            Some(Complaint { field: "pool.max_hosts"@, detail: "must be 1-256"@ })
        } else if self.host.host_id >= self.pool.max_hosts {
            Some(
                Complaint {
                    field: "host.host_id"@,
                    detail: "must be < max_hosts ("@ + text::decimal(self.pool.max_hosts as nat)
                        + ")"@,
                },
            )
        } else if self.overflow.strategy@ != "error"@ && self.overflow.strategy@ != "segmented"@
            && self.overflow.strategy@ != "circular"@ {
            Some(
                Complaint {
                    field: "overflow.strategy"@,
                    detail: "must be one of: error, segmented, circular"@,
                },
            )
        } else {
            None
        }
    }

    /// Fills in the defaults and validates the result.
    pub fn from_raw(raw: RawConfig) -> (result: Result<Self, ConfigError>)
        ensures
            forall|config: FenceConfig| #[trigger]
                filled_in(raw, config) ==> match result {
                    Ok(_) => config.complaint() is None,
                    Err(error) => error matches ConfigError::ValidationError { field, detail }
                        && config.complaint() == Some(
                        Complaint { field: field@, detail: detail@ },
                    ),
                },
            result matches Ok(config) ==> filled_in(raw, config) && config.complaint() is None,
    {
        let pool = PoolSection {
            path: raw.pool.path,
            capacity: match raw.pool.capacity {
                Some(v) => v,
                None => DEFAULT_CAPACITY,
            },
            payload_size: match raw.pool.payload_size {
                Some(v) => v,
                None => DEFAULT_PAYLOAD_SIZE,
            },
            max_hosts: match raw.pool.max_hosts {
                Some(v) => v,
                None => DEFAULT_MAX_HOSTS,
            },
        };
        let host = match raw.host {
            Some(host) => HostSection {
                host_id: match host.host_id {
                    Some(v) => v,
                    None => DEFAULT_HOST_ID,
                },
                name: host.name,
            },
            None => HostSection::default(),
        };
        let overflow = match raw.overflow {
            Some(overflow) => OverflowSection {
                strategy: match overflow.strategy {
                    Some(v) => v,
                    None => DEFAULT_OVERFLOW_STRATEGY.to_string(),
                },
                max_segments: overflow.max_segments,
                backpressure: overflow.backpressure,
            },
            None => OverflowSection::default(),
        };
        let recovery = match raw.recovery {
            Some(recovery) => RecoverySection {
                auto_recover: match recovery.auto_recover {
                    Some(v) => v,
                    None => DEFAULT_AUTO_RECOVER,
                },
                recovery_timeout_ms: match recovery.recovery_timeout_ms {
                    Some(v) => v,
                    None => DEFAULT_RECOVERY_TIMEOUT_MS,
                },
            },
            None => RecoverySection::default(),
        };
        let config = FenceConfig { pool, host, overflow, recovery };
        assert(filled_in(raw, config));
        match config.validate() {
            Ok(_) => Ok(config),
            Err(error) => Err(error),
        }
    }

    /// The path of the configuration file: `cli_path` if it is given, else `env_path` (the
    /// value of `FENCE_CONFIG`) if it is set, else `/etc/fence/conf.toml`.
    pub fn resolve_path(cli_path: Option<String>, env_path: Option<String>) -> (path: String)
        ensures
            path@ == (match cli_path {
                Some(p) => p@,
                None => match env_path {
                    Some(p) => p@,
                    None => DEFAULT_CONFIG_PATH@,
                },
            }),
    {
        match cli_path {
            Some(path) => path,
            None => match env_path {
                Some(path) => path,
                None => DEFAULT_CONFIG_PATH.to_string(),
            },
        }
    }

    /// Validates all fields.
    pub fn validate(&self) -> (result: Result<(), ConfigError>)
        ensures
            match result {
                Ok(_) => self.complaint() is None,
                Err(error) => error matches ConfigError::ValidationError { field, detail }
                    && self.complaint() == Some(Complaint { field: field@, detail: detail@ }),
            },
    {
        if self.pool.capacity == 0 {
            return Err(invalid("pool.capacity", "must be > 0"));
        }
        if self.pool.payload_size == 0 {
            return Err(invalid("pool.payload_size", "must be > 0"));
        }
        if self.pool.payload_size > 65536 {
            return Err(invalid("pool.payload_size", "must be <= 65536"));
        }
        if self.pool.payload_size % 8 != 0 {
            return Err(invalid("pool.payload_size", "must be a multiple of 8 (alignment)"));
        }
        if self.pool.max_hosts == 0 || self.pool.max_hosts > 256 {
            return Err(invalid("pool.max_hosts", "must be 1-256"));
        }
        if self.host.host_id >= self.pool.max_hosts {
            let mut detail: String = String::new();
            detail.append("must be < max_hosts (");
            text::push_decimal(&mut detail, self.pool.max_hosts as u64);
            detail.append(")");
            assert(detail@ =~= "must be < max_hosts ("@ + text::decimal(self.pool.max_hosts as nat)
                + ")"@);
            return Err(ConfigError::ValidationError { field: "host.host_id".to_string(), detail });
        }
        let known: bool = self.overflow.strategy == "error".to_string() || self.overflow.strategy
            == "segmented".to_string() || self.overflow.strategy == "circular".to_string();
        if !known {
            return Err(
                invalid("overflow.strategy", "must be one of: error, segmented, circular"),
            );
        }
        Ok(())
    }

    /// How to open (or, with `create`, to create) the configured pool.
    pub fn pool_config(&self, create: bool) -> (config: PoolConfig)
        ensures
            config.path@ == self.pool.path@,
            config.capacity == self.pool.capacity,
            config.payload_size == self.pool.payload_size,
            config.max_hosts == self.pool.max_hosts,
            config.host_id == self.host.host_id,
            config.create == create,
    {
        PoolConfig {
            path: self.pool.path.as_str().to_string(),
            capacity: self.pool.capacity,
            payload_size: self.pool.payload_size,
            max_hosts: self.pool.max_hosts,
            host_id: self.host.host_id,
            create,
        }
    }
}

/// The error for a field with an invalid value.
fn invalid(field: &str, detail: &str) -> (error: ConfigError)
    ensures
        error matches ConfigError::ValidationError { field: f, detail: d } && f@ == field@ && d@
            == detail@,
{
    ConfigError::ValidationError { field: field.to_string(), detail: detail.to_string() }
}

/// A valid configuration describes a pool that can be operated on in any memory that is
/// large enough.
pub proof fn law_valid_config_opens(config: FenceConfig, pool_config: PoolConfig, len: nat)
    requires
        config.complaint() is None,
        pool_config.capacity == config.pool.capacity,
        pool_config.payload_size == config.pool.payload_size,
        pool_config.max_hosts == config.pool.max_hosts,
        pool_config.host_id == config.host.host_id,
        pool_config.dimensions().total_size <= len,
        len <= usize::MAX,
    ensures
        pool_config.valid(len),
{
    let record_size = 64 + config.pool.payload_size as int;
    assert(record_size * config.pool.capacity <= 65600 * 0xFFFF_FFFF) by (nonlinear_arith)
        requires
            0 <= record_size <= 65600,
            0 <= config.pool.capacity <= 0xFFFF_FFFF,
    ;
}

/// The defaults make a valid configuration.
pub proof fn law_defaults_valid(raw: RawConfig, config: FenceConfig)
    requires
        raw.pool.capacity is None,
        raw.pool.payload_size is None,
        raw.pool.max_hosts is None,
        raw.host is None,
        raw.overflow is None,
        raw.recovery is None,
        filled_in(raw, config),
    ensures
        config.complaint() is None,
{
}

/// A configuration is valid exactly if all of its values are in range.
pub proof fn law_valid_exactly(config: FenceConfig)
    ensures
        config.complaint() is None <==> {
            &&& 1 <= config.pool.capacity
            &&& 1 <= config.pool.payload_size <= 65536
            &&& config.pool.payload_size % 8 == 0
            &&& 1 <= config.pool.max_hosts <= 256
            &&& config.host.host_id < config.pool.max_hosts
            &&& config.overflow.strategy@ == "error"@ || config.overflow.strategy@ == "segmented"@
                || config.overflow.strategy@ == "circular"@
        },
{
}

/// A complaint names the field that is to blame, the first of several.
pub proof fn law_complaint_names_field(config: FenceConfig)
    ensures
        config.complaint() matches Some(c) ==> {
            let capacity_ok = config.pool.capacity >= 1;
            let payload_ok = 1 <= config.pool.payload_size <= 65536 && config.pool.payload_size % 8
                == 0;
            let hosts_ok = 1 <= config.pool.max_hosts <= 256;
            let host_ok = config.host.host_id < config.pool.max_hosts;
            &&& c.field == "pool.capacity"@ <==> !capacity_ok
            &&& c.field == "pool.payload_size"@ <==> capacity_ok && !payload_ok
            &&& c.field == "pool.max_hosts"@ <==> capacity_ok && payload_ok && !hosts_ok
            &&& c.field == "host.host_id"@ <==> capacity_ok && payload_ok && hosts_ok && !host_ok
            &&& c.field == "overflow.strategy"@ <==> capacity_ok && payload_ok && hosts_ok
                && host_ok
        },
{
    reveal_strlit("pool.capacity");
    reveal_strlit("pool.payload_size");
    reveal_strlit("pool.max_hosts");
    reveal_strlit("host.host_id");
    reveal_strlit("overflow.strategy");
    assert("pool.payload_size"@[0] == 'p');
    assert("overflow.strategy"@[0] == 'o');
    assert("pool.capacity"@.len() == 13);
    assert("pool.payload_size"@.len() == 17);
    assert("pool.max_hosts"@.len() == 14);
    assert("host.host_id"@.len() == 12);
    assert("overflow.strategy"@.len() == 17);
}

/// Values that are given are kept: a configuration that is written out in full is read back
/// as it is.
pub proof fn law_given_values_kept(config: FenceConfig, read: FenceConfig)
    requires
        filled_in(
            RawConfig {
                pool: RawPool {
                    path: config.pool.path,
                    capacity: Some(config.pool.capacity),
                    payload_size: Some(config.pool.payload_size),
                    max_hosts: Some(config.pool.max_hosts),
                },
                host: Some(
                    RawHost { host_id: Some(config.host.host_id), name: config.host.name },
                ),
                overflow: Some(
                    RawOverflow {
                        strategy: Some(config.overflow.strategy),
                        max_segments: config.overflow.max_segments,
                        backpressure: config.overflow.backpressure,
                    },
                ),
                recovery: Some(
                    RawRecovery {
                        auto_recover: Some(config.recovery.auto_recover),
                        recovery_timeout_ms: Some(config.recovery.recovery_timeout_ms),
                    },
                ),
            },
            read,
        ),
    ensures
        read.pool.path@ == config.pool.path@,
        read.pool.capacity == config.pool.capacity,
        read.pool.payload_size == config.pool.payload_size,
        read.pool.max_hosts == config.pool.max_hosts,
        read.host == config.host,
        read.overflow.strategy@ == config.overflow.strategy@,
        read.overflow.max_segments == config.overflow.max_segments,
        read.overflow.backpressure == config.overflow.backpressure,
        read.recovery == config.recovery,
{
}

/// Each value that is missing has its default, whatever else is given.
pub proof fn law_missing_values_default(raw: RawConfig, config: FenceConfig)
    requires
        filled_in(raw, config),
    ensures
        config.pool.path@ == raw.pool.path@,
        raw.pool.capacity is None ==> config.pool.capacity == 1_000_000,
        raw.pool.payload_size is None ==> config.pool.payload_size == 128,
        raw.pool.max_hosts is None ==> config.pool.max_hosts == 16,
        raw.host is None || raw.host->0.host_id is None ==> config.host.host_id == 0,
        raw.host is None ==> config.host.name is None,
        raw.overflow is None || raw.overflow->0.strategy is None ==> config.overflow.strategy@
            == "error"@,
        raw.overflow is None ==> config.overflow.max_segments is None
            && config.overflow.backpressure is None,
        raw.recovery is None || raw.recovery->0.auto_recover is None
            ==> config.recovery.auto_recover,
        raw.recovery is None || raw.recovery->0.recovery_timeout_ms is None
            ==> config.recovery.recovery_timeout_ms == 5000,
{
}

/// What is read of a configuration is determined by what is given.
pub proof fn law_filled_in_once(raw: RawConfig, a: FenceConfig, b: FenceConfig)
    requires
        filled_in(raw, a),
        filled_in(raw, b),
    ensures
        a.pool.path@ == b.pool.path@,
        a.pool.capacity == b.pool.capacity,
        a.pool.payload_size == b.pool.payload_size,
        a.pool.max_hosts == b.pool.max_hosts,
        a.host == b.host,
        a.overflow.strategy@ == b.overflow.strategy@,
        a.overflow.max_segments == b.overflow.max_segments,
        a.overflow.backpressure == b.overflow.backpressure,
        a.recovery == b.recovery,
{
}

/// A complaint says what the field has to be.
pub proof fn law_complaint_says_why(config: FenceConfig)
    ensures
        config.complaint() matches Some(c) ==> {
            &&& config.pool.capacity == 0 ==> c.detail == "must be > 0"@
            &&& c.field == "pool.payload_size"@ ==> {
                &&& config.pool.payload_size == 0 ==> c.detail == "must be > 0"@
                &&& config.pool.payload_size > 65536 ==> c.detail == "must be <= 65536"@
                &&& 0 < config.pool.payload_size <= 65536 ==> c.detail
                    == "must be a multiple of 8 (alignment)"@
            }
            &&& c.field == "pool.max_hosts"@ ==> c.detail == "must be 1-256"@
            &&& c.field == "host.host_id"@ ==> c.detail == "must be < max_hosts ("@
                + text::decimal(config.pool.max_hosts as nat) + ")"@
            &&& c.field == "overflow.strategy"@ ==> c.detail
                == "must be one of: error, segmented, circular"@
        },
{
    law_complaint_names_field(config);
}

} // verus!
