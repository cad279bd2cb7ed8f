use alloyfang::config::AlloyStackConfig;

#[test]
fn test_default_config() {
    let config = AlloyStackConfig::default();
    assert!(config.enable_lazy_loading);
    assert!(config.enable_reference_passing);
    assert!(config.enable_parallel_execution);
    assert_eq!(config.max_cached_modules, 64);
}
