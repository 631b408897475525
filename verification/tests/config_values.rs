use niphas::config::{
    format_duration, parse_duration, CacheConfig, CacheStorageConfig, NiphasConfig,
};

#[test]
fn test_default_config_values() {
    let config = NiphasConfig::default();
    assert_eq!(config.log_level, "info");
    assert!(config.binary_caches.is_empty());
    assert!(config.allowed_flake_origins.is_empty());
    assert_eq!(config.eval_timeout, 300);
    assert_eq!(config.closure_resolution.concurrency, 32);
    assert_eq!(config.closure_resolution.timeout, 60);
    assert_eq!(config.cache.path, "/var/lib/niphas/cache");
    assert_eq!(config.health_port, 8080);
    assert_eq!(
        config.eval_webhook_url,
        "http://niphas-eval.niphas-system.svc:8443"
    );
}

#[test]
fn test_default_cache_storage() {
    let cs = CacheStorageConfig::default();
    assert_eq!(cs.high_watermark_bytes, 15 * 1024 * 1024 * 1024);
    assert_eq!(cs.low_watermark_bytes, 10 * 1024 * 1024 * 1024);
    assert_eq!(cs.gc_interval, 300);
}

fn valid_config() -> NiphasConfig {
    NiphasConfig {
        binary_caches: vec![CacheConfig {
            url: "https://cache.nixos.org".into(),
            public_key: None,
            priority: 40,
        }],
        ..Default::default()
    }
}

#[test]
fn test_validate_high_watermark_less_than_low() {
    let config = NiphasConfig {
        cache: CacheStorageConfig {
            high_watermark_bytes: 100,
            low_watermark_bytes: 200,
            ..Default::default()
        },
        ..valid_config()
    };
    let errors = config.validate().unwrap_err();
    assert!(errors.iter().any(|e| e.contains("highWatermarkBytes")));
}

#[test]
fn test_validate_zero_eval_timeout() {
    let config = NiphasConfig {
        eval_timeout: 0,
        ..valid_config()
    };
    let errors = config.validate().unwrap_err();
    assert!(errors.iter().any(|e| e.contains("evalTimeout")));
}

#[test]
fn test_validate_empty_binary_caches() {
    let config = NiphasConfig::default();
    let errors = config.validate().unwrap_err();
    assert!(errors.iter().any(|e| e.contains("binaryCaches")));
}

#[test]
fn test_validate_valid_config() {
    assert!(valid_config().validate().is_ok());
}

#[test]
fn test_humantime_parse_seconds() {
    assert_eq!(parse_duration("300s").unwrap(), 300);
}

#[test]
fn test_humantime_parse_minutes() {
    assert_eq!(parse_duration("5m").unwrap(), 300);
}

#[test]
fn test_humantime_parse_hours() {
    assert_eq!(parse_duration("1h").unwrap(), 3600);
}

#[test]
fn test_humantime_parse_raw_number() {
    assert_eq!(parse_duration("60").unwrap(), 60);
}

// -- own tests --

#[test]
fn validate_reports_every_problem_in_order() {
    let mut config = NiphasConfig::default();
    config.eval_timeout = 0;
    config.closure_resolution.concurrency = 0;
    config.closure_resolution.timeout = 0;
    config.cache.high_watermark_bytes = 5;
    config.cache.low_watermark_bytes = 5;
    let errors = config.validate().unwrap_err();
    assert_eq!(
        errors,
        vec![
            "cache.highWatermarkBytes (5) must be greater than cache.lowWatermarkBytes (5)"
                .to_string(),
            "evalTimeout must be greater than 0".to_string(),
            "closureResolution.concurrency must be greater than 0".to_string(),
            "closureResolution.timeout must be greater than 0".to_string(),
            "binaryCaches must not be empty (at least one binary cache is required)".to_string(),
        ]
    );
}

#[test]
fn duration_whitespace_and_errors() {
    assert_eq!(parse_duration("  10 s ").unwrap(), 10);
    assert_eq!(parse_duration("+7").unwrap(), 7);
    assert_eq!(
        parse_duration("abc").unwrap_err(),
        "invalid duration 'abc': expected format like '300s', '5m', '1h'"
    );
    assert!(parse_duration("xs").is_err());
    assert!(parse_duration("").is_err());
    assert!(parse_duration("-1").is_err());
}

#[test]
fn duration_roundtrip_on_values() {
    for n in [0u64, 1, 9, 10, 300, 86400, u64::MAX] {
        assert_eq!(parse_duration(&format_duration(n)).unwrap(), n);
    }
    assert_eq!(format_duration(300), "300s");
}

#[test]
fn closure_resolution_defaults() {
    let c = niphas::config::ClosureResolutionConfig::default();
    assert_eq!(c.max_paths, 50000);
    assert_eq!(c.max_nar_bytes, 50 * 1024 * 1024 * 1024);
}

#[test]
fn duration_number_errors_carry_the_parse_error() {
    assert_eq!(
        parse_duration("xs").unwrap_err(),
        "invalid duration 'xs': invalid digit found in string"
    );
    assert_eq!(
        parse_duration("m").unwrap_err(),
        "invalid duration 'm': cannot parse integer from empty string"
    );
    assert_eq!(
        parse_duration("99999999999999999999x9s").unwrap_err(),
        "invalid duration '99999999999999999999x9s': number too large to fit in target type"
    );
    assert_eq!(
        parse_duration("12x99999999999999999999s").unwrap_err(),
        "invalid duration '12x99999999999999999999s': invalid digit found in string"
    );
    assert_eq!(
        parse_duration("+h").unwrap_err(),
        "invalid duration '+h': invalid digit found in string"
    );
}
