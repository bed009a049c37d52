use citadel_cache::cache::file::FileFormat;
use citadel_cache::runtime::config::{Config, ServiceEndpoint};

fn base_config() -> Config {
    Config {
        chain: String::from("testnet"),
        rpc_endpoint: ServiceEndpoint::Ipc(String::from("{data_dir}/{network}/rpc-{id}.sock")),
        rgb20_endpoint: ServiceEndpoint::Remote,
        rgb_embedded: false,
        data_dir: String::from("/var/lib/citadel"),
        verbose: 2,
        electrum_server: String::from("electrum.example:50001"),
    }
}

#[test]
fn process_dir_substitutes_placeholders() {
    let config = base_config();
    let mut path = String::from("{data_dir}/{network}/cache-{id}");
    config.process_dir(&mut path);
    assert_eq!(path, "/var/lib/citadel/testnet/cache-default");
}

#[test]
fn process_rewrites_ipc_endpoints_only() {
    let mut config = base_config();
    config.process();
    assert_eq!(config.data_dir, "/var/lib/citadel");
    assert_eq!(
        config.rpc_endpoint,
        ServiceEndpoint::Ipc(String::from("/var/lib/citadel/testnet/rpc-default.sock"))
    );
    assert_eq!(config.rgb20_endpoint, ServiceEndpoint::Remote);
    assert_eq!(config.chain, "testnet");
    assert_eq!(config.verbose, 2);
}

#[test]
fn storage_and_cache_configurations_share_the_data_dir() {
    let config = base_config();
    let storage = config.storage_conf();
    assert_eq!(storage.location, "/var/lib/citadel");
    assert_eq!(storage.format, FileFormat::Yaml);
    let cache = config.cache_conf();
    assert_eq!(cache.location, "/var/lib/citadel");
    assert_eq!(cache.format, FileFormat::Yaml);
}
