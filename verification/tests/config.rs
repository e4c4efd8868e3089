use fence::config::{
    ConfigError, FenceConfig, HostSection, OverflowSection, RawConfig, RawHost, RawOverflow,
    RawPool, RawRecovery, RecoverySection,
};
use fence::defaults::{
    DEFAULT_AUTO_RECOVER, DEFAULT_CAPACITY, DEFAULT_CONFIG_PATH, DEFAULT_HOST_ID,
    DEFAULT_LOG_LEVEL, DEFAULT_MAX_HOSTS, DEFAULT_PAYLOAD_SIZE, DEFAULT_RECOVERY_TIMEOUT_MS,
};
use fence::engine::FenceRuntime;
use fence::error::FenceError;
use fence::heap_backend::HeapBackend;
use fence::layout::PoolGeometry;
use fence::metrics::PoolStats;
use fence::crash_sim::CrashSim;
use fence::startup::{create_configured, open_configured, zero_data};

const MINIMAL_TOML: &str = r#"
[pool]
path = "/tmp/fence_pool.bin"
"#;

const FULL_TOML: &str = r#"
[pool]
path = "/dev/dax0.0"
capacity = 500000
payload_size = 256
max_hosts = 8

[host]
host_id = 2
name = "worker-2"

[overflow]
strategy = "segmented"
max_segments = 4

[recovery]
auto_recover = true
recovery_timeout_ms = 3000
"#;

fn parse_error(detail: &str) -> ConfigError {
    ConfigError::ParseError { detail: detail.to_string() }
}

fn integer<T: TryFrom<i64>>(table: &toml::Table, key: &str) -> Result<Option<T>, ConfigError> {
    match table.get(key) {
        None => Ok(None),
        Some(value) => {
            let number = value.as_integer().ok_or_else(|| parse_error(key))?;
            T::try_from(number).map(Some).map_err(|_| parse_error(key))
        }
    }
}

fn text(table: &toml::Table, key: &str) -> Result<Option<String>, ConfigError> {
    match table.get(key) {
        None => Ok(None),
        Some(value) => {
            let text = value.as_str().ok_or_else(|| parse_error(key))?;
            Ok(Some(text.to_string()))
        }
    }
}

fn flag(table: &toml::Table, key: &str) -> Result<Option<bool>, ConfigError> {
    match table.get(key) {
        None => Ok(None),
        Some(value) => value.as_bool().map(Some).ok_or_else(|| parse_error(key)),
    }
}

fn section<'a>(
    table: &'a toml::Table,
    key: &str,
) -> Result<Option<&'a toml::Table>, ConfigError> {
    match table.get(key) {
        None => Ok(None),
        Some(value) => value.as_table().map(Some).ok_or_else(|| parse_error(key)),
    }
}

fn raw_config(toml_str: &str) -> Result<RawConfig, ConfigError> {
    let table: toml::Table =
        toml_str.parse().map_err(|e: toml::de::Error| parse_error(&e.to_string()))?;
    let pool = section(&table, "pool")?.ok_or_else(|| parse_error("missing field `pool`"))?;
    let host = match section(&table, "host")? {
        None => None,
        Some(t) => Some(RawHost { host_id: integer(t, "host_id")?, name: text(t, "name")? }),
    };
    let overflow = match section(&table, "overflow")? {
        None => None,
        Some(t) => Some(RawOverflow {
            strategy: text(t, "strategy")?,
            max_segments: integer(t, "max_segments")?,
            backpressure: text(t, "backpressure")?,
        }),
    };
    let recovery = match section(&table, "recovery")? {
        None => None,
        Some(t) => Some(RawRecovery {
            auto_recover: flag(t, "auto_recover")?,
            recovery_timeout_ms: integer(t, "recovery_timeout_ms")?,
        }),
    };
    Ok(RawConfig {
        pool: RawPool {
            path: text(pool, "path")?.ok_or_else(|| parse_error("missing field `path`"))?,
            capacity: integer(pool, "capacity")?,
            payload_size: integer(pool, "payload_size")?,
            max_hosts: integer(pool, "max_hosts")?,
        },
        host,
        overflow,
        recovery,
    })
}

fn from_str(toml_str: &str) -> Result<FenceConfig, ConfigError> {
    FenceConfig::from_raw(raw_config(toml_str)?)
}

#[test]
fn parse_minimal_config() {
    let config = from_str(MINIMAL_TOML).unwrap();
    assert_eq!(config.pool.path, "/tmp/fence_pool.bin");
    assert_eq!(config.pool.capacity, DEFAULT_CAPACITY);
    assert_eq!(config.pool.payload_size, DEFAULT_PAYLOAD_SIZE);
    assert_eq!(config.pool.max_hosts, DEFAULT_MAX_HOSTS);
    assert_eq!(config.host.host_id, DEFAULT_HOST_ID);
    assert_eq!(config.overflow.strategy, "error");
    assert!(config.recovery.auto_recover);
}

#[test]
fn parse_full_config() {
    let config = from_str(FULL_TOML).unwrap();
    assert_eq!(config.pool.path, "/dev/dax0.0");
    assert_eq!(config.pool.capacity, 500000);
    assert_eq!(config.pool.payload_size, 256);
    assert_eq!(config.pool.max_hosts, 8);
    assert_eq!(config.host.host_id, 2);
    assert_eq!(config.host.name, Some("worker-2".into()));
    assert_eq!(config.overflow.strategy, "segmented");
    assert_eq!(config.overflow.max_segments, Some(4));
    assert_eq!(config.recovery.recovery_timeout_ms, 3000);
}

#[test]
fn validate_zero_capacity_rejected() {
    let toml = r#"
[pool]
path = "/tmp/test"
capacity = 0
"#;
    let result = from_str(toml);
    assert!(matches!(
        result,
        Err(ConfigError::ValidationError { field, .. }) if field == "pool.capacity"
    ));
}

#[test]
fn validate_zero_payload_rejected() {
    let toml = r#"
[pool]
path = "/tmp/test"
payload_size = 0
"#;
    let result = from_str(toml);
    assert!(matches!(
        result,
        Err(ConfigError::ValidationError { field, .. }) if field == "pool.payload_size"
    ));
}

#[test]
fn validate_payload_alignment_rejected() {
    let toml = r#"
[pool]
path = "/tmp/test"
payload_size = 100
"#;
    let result = from_str(toml);
    assert!(matches!(
        result,
        Err(ConfigError::ValidationError { field, .. }) if field == "pool.payload_size"
    ));
}

#[test]
fn validate_host_id_exceeds_max_hosts() {
    let toml = r#"
[pool]
path = "/tmp/test"
max_hosts = 4

[host]
host_id = 4
"#;
    let result = from_str(toml);
    assert!(matches!(
        result,
        Err(ConfigError::ValidationError { field, .. }) if field == "host.host_id"
    ));
}

#[test]
fn validate_invalid_overflow_strategy() {
    let toml = r#"
[pool]
path = "/tmp/test"

[overflow]
strategy = "invalid"
"#;
    let result = from_str(toml);
    assert!(matches!(
        result,
        Err(ConfigError::ValidationError { field, .. }) if field == "overflow.strategy"
    ));
}

#[test]
fn validate_max_hosts_out_of_range() {
    let toml = r#"
[pool]
path = "/tmp/test"
max_hosts = 0
"#;
    let result = from_str(toml);
    assert!(matches!(
        result,
        Err(ConfigError::ValidationError { field, .. }) if field == "pool.max_hosts"
    ));
}

#[test]
fn invalid_toml_parse_error() {
    let result = from_str("this is not valid toml [[[");
    assert!(matches!(result, Err(ConfigError::ParseError { .. })));
}

#[test]
fn resolve_path_cli_wins() {
    let path = FenceConfig::resolve_path(Some("/custom/path.toml".to_string()), None);
    assert_eq!(path, "/custom/path.toml");
}

#[test]
fn resolve_path_default_fallback() {
    let path = FenceConfig::resolve_path(None, None);
    assert_eq!(path, DEFAULT_CONFIG_PATH);
}

#[test]
fn resolve_path_environment_second() {
    let env = Some("/env/path.toml".to_string());
    assert_eq!(FenceConfig::resolve_path(None, env.clone()), "/env/path.toml");
    let cli = Some("/cli/path.toml".to_string());
    assert_eq!(FenceConfig::resolve_path(cli, env), "/cli/path.toml");
}

#[test]
fn default_values() {
    assert_eq!(DEFAULT_CONFIG_PATH, "/etc/fence/conf.toml");
    assert_eq!(DEFAULT_CAPACITY, 1_000_000);
    assert_eq!(DEFAULT_LOG_LEVEL, "info");
    let host = HostSection::default();
    assert_eq!((host.host_id, host.name), (0, None));
    let overflow = OverflowSection::default();
    assert_eq!(overflow.strategy, "error");
    assert_eq!((overflow.max_segments, overflow.backpressure), (None, None));
    let recovery = RecoverySection::default();
    assert_eq!(recovery.auto_recover, DEFAULT_AUTO_RECOVER);
    assert_eq!(recovery.recovery_timeout_ms, DEFAULT_RECOVERY_TIMEOUT_MS);
}

fn complaint(toml_str: &str) -> (String, String) {
    match from_str(toml_str) {
        Err(ConfigError::ValidationError { field, detail }) => (field, detail),
        _ => panic!("accepted"),
    }
}

#[test]
fn validation_messages() {
    let (field, detail) = complaint("[pool]\npath = \"p\"\npayload_size = 65544\n");
    assert_eq!((field.as_str(), detail.as_str()), ("pool.payload_size", "must be <= 65536"));
    let (field, detail) = complaint("[pool]\npath = \"p\"\npayload_size = 12\n");
    assert_eq!(
        (field.as_str(), detail.as_str()),
        ("pool.payload_size", "must be a multiple of 8 (alignment)")
    );
    let (field, detail) = complaint("[pool]\npath = \"p\"\nmax_hosts = 257\n");
    assert_eq!((field.as_str(), detail.as_str()), ("pool.max_hosts", "must be 1-256"));
    let (field, detail) = complaint("[pool]\npath = \"p\"\n[host]\nhost_id = 16\n");
    assert_eq!((field.as_str(), detail.as_str()), ("host.host_id", "must be < max_hosts (16)"));
    let (field, detail) = complaint("[pool]\npath = \"p\"\n[overflow]\nstrategy = \"x\"\n");
    assert_eq!(
        (field.as_str(), detail.as_str()),
        ("overflow.strategy", "must be one of: error, segmented, circular")
    );
    assert!(from_str("[pool]\npath = \"p\"\npayload_size = 65536\nmax_hosts = 256\n").is_ok());
    assert!(from_str("[pool]\npath = \"p\"\n[overflow]\nstrategy = \"circular\"\n").is_ok());
}

#[test]
fn messages_of_configuration_errors() {
    let e = ConfigError::FileNotFound { path: "/a/b".to_string() };
    assert_eq!(e.to_string(), "config file not found: /a/b");
    let e = parse_error("line 1");
    assert_eq!(e.to_string(), "config parse error: line 1");
    let e = ConfigError::ValidationError { field: "f".to_string(), detail: "d".to_string() };
    assert_eq!(e.to_string(), "invalid config: f: d");
}

#[test]
fn pool_config_of_configuration() {
    let config = from_str(FULL_TOML).unwrap().pool_config(true);
    assert_eq!(config.path, "/dev/dax0.0");
    assert_eq!((config.capacity, config.payload_size), (500000, 256));
    assert_eq!((config.max_hosts, config.host_id, config.create), (8, 2, true));
}

fn small_pool(auto_recover: bool) -> (FenceConfig, HeapBackend) {
    let toml = format!(
        "[pool]\npath = \"p\"\ncapacity = 4\npayload_size = 8\nmax_hosts = 2\n\
         [recovery]\nauto_recover = {auto_recover}\n"
    );
    let config = from_str(&toml).unwrap();
    let geometry = PoolGeometry::new(4, 8, 2);
    let backend = HeapBackend::new(geometry.total_size as usize);
    let mut runtime = FenceRuntime::open(config.pool_config(true), backend).unwrap();
    runtime.append(1, b"kept").unwrap();
    let mut backend = runtime.into_backend();
    CrashSim::simulate_crashed_write(&mut backend, 4, 8, 2);
    (config, backend)
}

#[test]
fn configured_pool_is_recovered_on_open() {
    let (config, backend) = small_pool(true);
    let (mut runtime, report) = match open_configured(&config, backend) {
        Ok(opened) => opened,
        Err(error) => panic!("{}", error.to_string()),
    };
    assert_eq!(report.unwrap().abandoned_count, 1);
    assert_eq!(runtime.stats().recovery_runs, 1);
    assert_eq!(runtime.read(1).unwrap().unwrap().data, b"kept");
}

#[test]
fn configured_pool_is_left_alone_without_auto_recover() {
    let (config, backend) = small_pool(false);
    let before = backend.as_bytes().to_vec();
    let (runtime, report) = match open_configured(&config, backend) {
        Ok(opened) => opened,
        Err(error) => panic!("{}", error.to_string()),
    };
    assert_eq!(report, None);
    assert_eq!(runtime.into_backend().as_bytes().to_vec(), before);
}

#[test]
fn configured_pool_needs_magic() {
    let (config, _) = small_pool(true);
    let geometry = PoolGeometry::new(4, 8, 2);
    let empty = HeapBackend::new(geometry.total_size as usize);
    let result = open_configured(&config, empty);
    assert!(matches!(result, Err(FenceError::InvalidMagic { .. })));
}

#[test]
fn zero_data_keeps_header_only() {
    let (_, mut backend) = small_pool(true);
    let geometry = PoolGeometry::new(4, 8, 2);
    let before = backend.as_bytes().to_vec();
    zero_data(&mut backend, &geometry);
    let after = backend.as_bytes().to_vec();
    assert_eq!(before[..64], after[..64]);
    assert!(before[64..].iter().any(|b| *b != 0));
    assert!(after[64..].iter().all(|b| *b == 0));
}

/// Creating a pool where one was leaves an empty log without any counts.
#[test]
fn configured_pool_is_created_empty() {
    let (config, backend) = small_pool(true);
    let mut runtime = match create_configured(&config, backend) {
        Ok(runtime) => runtime,
        Err(error) => panic!("{}", error.to_string()),
    };
    assert_eq!((runtime.committed_tail(), runtime.reserve_tail()), (0, 0));
    assert_eq!(runtime.stats(), PoolStats::default());
    assert_eq!(*runtime.geometry(), PoolGeometry::new(4, 8, 2));
    let bytes = runtime.into_backend().as_bytes().to_vec();
    assert!(bytes[64..].iter().all(|byte| *byte == 0));
    let (mut runtime, _) = match open_configured(&config, HeapBackend::from_bytes(bytes)) {
        Ok(opened) => opened,
        Err(error) => panic!("{}", error.to_string()),
    };
    assert_eq!(runtime.append(1, b"first").unwrap(), 1);
}
