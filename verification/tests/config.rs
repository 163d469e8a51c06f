use hyperchess::config::{AppConfig, EnvOverrides};

fn no_overrides() -> EnvOverrides {
    EnvOverrides {
        minimax_depth: None,
        compute_memory: None,
        compute_minutes: None,
        compute_concurrency: None,
        api_port: None,
        distributed_enabled: None,
        mode: None,
        redis_url: None,
        worker_dns: None,
        grpc_port: None,
    }
}

#[test]
fn test_default_config_loading() {
    let config = AppConfig::default();
    assert_eq!(config.minimax.depth, 4);
}

#[test]
fn test_merge_env_overrides() {
    let mut config = AppConfig::default();
    let mut env = no_overrides();
    env.minimax_depth = Some("99".to_string());
    env.compute_concurrency = Some("42".to_string());
    env.api_port = Some("8888".to_string());

    config.merge_overrides(&env);

    assert_eq!(config.minimax.depth, 99);
    assert_eq!(config.compute.concurrency, 42);
    assert_eq!(config.api.port, 8888);
}

#[test]
fn test_invalid_env_vars_ignored() {
    let mut config = AppConfig::default();
    let mut env = no_overrides();
    env.minimax_depth = Some("not_a_number".to_string());

    config.merge_overrides(&env);

    assert_eq!(config.minimax.depth, 4);
}

#[test]
fn config_defaults_and_text_overrides() {
    let mut config = AppConfig::default();
    assert_eq!(config.compute.minutes, 2);
    assert_eq!(config.compute.memory, 1024);
    assert_eq!(config.api.port, 3123);
    assert!(!config.distributed.enabled);
    assert_eq!(config.distributed.mode, "standalone");
    assert_eq!(config.distributed.redis_url, "redis://127.0.0.1:6379");
    assert_eq!(config.distributed.worker_dns, "");
    assert_eq!(config.distributed.grpc_port, 50051);

    let mut env = no_overrides();
    env.distributed_enabled = Some("1".to_string());
    env.mode = Some("gateway".to_string());
    env.grpc_port = Some("70000".to_string());
    env.api_port = Some("+80".to_string());
    env.compute_minutes = Some("18446744073709551615".to_string());
    config.merge_overrides(&env);
    assert!(config.distributed.enabled);
    assert_eq!(config.distributed.mode, "gateway");
    assert_eq!(config.distributed.grpc_port, 50051);
    assert_eq!(config.api.port, 80);
    assert_eq!(config.compute.minutes, u64::MAX);

    let mut env = no_overrides();
    env.distributed_enabled = Some("yes".to_string());
    config.merge_overrides(&env);
    assert!(!config.distributed.enabled);
}
