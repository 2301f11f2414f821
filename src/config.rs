use vstd::prelude::*;

verus! {

/// HTTP listener settings.
#[derive(Debug, Clone)]
pub struct ServerConfig {
    pub host: String,
    pub port: u16,
    pub api_prefix: String,
    pub ws_prefix: String,
    pub cors: CorsConfig,
    /// Seconds.
    pub request_timeout: u64,
    /// Bytes.
    pub max_request_size: usize,
}

/// Cross-origin settings.
#[derive(Debug, Clone)]
pub struct CorsConfig {
    pub allowed_origins: Vec<String>,
    pub allowed_methods: Vec<String>,
    pub allowed_headers: Vec<String>,
    pub allow_credentials: bool,
}

/// Logging settings.
#[derive(Debug, Clone)]
pub struct LoggingConfig {
    pub level: String,
    pub file: Option<String>,
    pub console: bool,
    pub json_format: bool,
}

/// Log file rotation settings.
#[derive(Debug, Clone)]
pub struct LogRotationConfig {
    /// "daily", "hourly" or "size".
    pub strategy: String,
    pub max_size: Option<u64>,
    pub max_age: Option<u64>,
    pub max_files: Option<u32>,
}

/// Metrics settings.
#[derive(Debug, Clone)]
pub struct MonitoringConfig {
    pub enabled: bool,
    pub metrics_port: u16,
    pub metrics_path: String,
    pub health_path: String,
    pub enable_performance_metrics: bool,
    pub enable_business_metrics: bool,
}

/// Database pool settings.
#[derive(Debug, Clone)]
pub struct DatabaseConfig {
    pub url: String,
    pub max_connections: u32,
    pub min_connections: u32,
    pub connection_timeout: u64,
    pub idle_timeout: u64,
}

/// Redis settings.
#[derive(Debug, Clone)]
pub struct RedisConfig {
    pub url: String,
    pub max_connections: u32,
    pub connection_timeout: u64,
    pub command_timeout: u64,
}

impl Default for LoggingConfig {
    /// Level "info" to the console, plain text, no file.
    fn default() -> (r: LoggingConfig)
        ensures
            r.level@ == "info"@,
            r.file.is_none(),
            r.console,
            !r.json_format,
    {
        LoggingConfig { level: "info".to_owned(), file: None, console: true, json_format: false }
    }
}

} // verus!
