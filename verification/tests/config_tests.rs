use rsim::config::{ConcurrencyMode, SimulationConfig};

#[test]
fn test_default_config() {
    let config = SimulationConfig::default();
    assert_eq!(config.concurrency_mode, ConcurrencyMode::Sequential);
    assert_eq!(config.thread_pool_size, None);
}

#[test]
fn test_config_builder() {
    let config = SimulationConfig::new()
        .with_concurrency(ConcurrencyMode::Rayon)
        .with_thread_pool_size(4);

    assert_eq!(config.concurrency_mode, ConcurrencyMode::Rayon);
    assert_eq!(config.thread_pool_size, Some(4));
}

#[test]
fn test_concurrency_mode_default() {
    let mode = ConcurrencyMode::default();
    assert_eq!(mode, ConcurrencyMode::Sequential);
}

#[test]
fn test_concurrency_mode_equality() {
    assert_eq!(ConcurrencyMode::Sequential, ConcurrencyMode::Sequential);
    assert_eq!(ConcurrencyMode::Rayon, ConcurrencyMode::Rayon);
    assert_ne!(ConcurrencyMode::Sequential, ConcurrencyMode::Rayon);
}

#[test]
fn config_thread_pool_size_keeps_mode() {
    let config = SimulationConfig::new().with_thread_pool_size(8);
    assert_eq!(config.concurrency_mode, ConcurrencyMode::Sequential);
    assert_eq!(config.thread_pool_size, Some(8));
    let config = config.with_concurrency(ConcurrencyMode::Rayon);
    assert_eq!(config.thread_pool_size, Some(8));
}
