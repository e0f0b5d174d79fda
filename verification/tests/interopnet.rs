use forest::interopnet::{
    NetworkVersion, BLOCK_DELAY_SECS, DEFAULT_BOOTSTRAP, EPOCH_DURATION_SECONDS, NEWEST_NETWORK_VERSION,
    UPGRADE_BREEZE_HEIGHT, UPGRADE_HYPERDRIVE_HEIGHT,
};

#[test]
fn interop_network_parameters() {
    assert_eq!(UPGRADE_BREEZE_HEIGHT, -1);
    assert_eq!(UPGRADE_HYPERDRIVE_HEIGHT, -15);
    assert_eq!(NEWEST_NETWORK_VERSION, NetworkVersion::V13);
    assert_eq!(BLOCK_DELAY_SECS, EPOCH_DURATION_SECONDS as u64);
    assert_eq!(DEFAULT_BOOTSTRAP.len(), 2);
}
