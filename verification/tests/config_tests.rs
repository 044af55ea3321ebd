use cytah_core::config::NodeConfig;

#[test]
fn test_default_config() {
    let config = NodeConfig::default();
    assert_eq!(config.consensus.block_interval, 5000);
    assert_eq!(config.network.max_peers, 100);
}

#[test]
fn test_config_validation() {
    let config = NodeConfig::default();
    assert!(config.validate().is_ok());
}

#[test]
fn test_config_validation_fails_on_zero_block_interval() {
    let mut config = NodeConfig::default();
    config.consensus.block_interval = 0;
    assert!(config.validate().is_err());
}
