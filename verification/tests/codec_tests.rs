use citadel_cache::cache::{Driver, Error, FileConfig, FileDriver};
use citadel_cache::cache::file::FileFormat;
use citadel_cache::cache::file::model::Cache;
use citadel_cache::model::{
    Address, BlockHash, ContractId, OutPoint, RgbContractId, Transaction, Txid, UnhardenedIndex,
    Utxo,
};

fn fresh() -> FileDriver {
    let config = FileConfig { location: String::from("/tmp/citadel"), format: FileFormat::StrictEncode };
    FileDriver::with(config, None).unwrap()
}

#[test]
fn empty_cache_round_trips() {
    let cache = Cache::empty();
    let bytes = cache.to_bytes();
    let back = Cache::from_bytes(&bytes).unwrap();
    assert_eq!(back, cache);
}

#[test]
fn populated_cache_round_trips() {
    let mut d = fresh();
    let c1 = ContractId { id: 3 };
    let c2 = ContractId { id: 900 };
    d.update(
        c1,
        vec![((100, 1), Txid { id: 40 }), ((101, 2), Txid { id: 41 })],
        Some(101),
        vec![OutPoint { txid: Txid { id: 1 }, vout: 0 }],
        vec![
            (RgbContractId { id: 0 }, vec![Utxo { outpoint: OutPoint { txid: Txid { id: 1 }, vout: 0 }, amount: 5000 }]),
            (RgbContractId { id: 7 }, vec![Utxo { outpoint: OutPoint { txid: Txid { id: 2 }, vout: 3 }, amount: 10 }]),
        ],
    )
    .unwrap();
    d.use_address_derivation(c1, Address { id: 11 }, UnhardenedIndex { index: 0 }).unwrap();
    d.use_address_derivation(c2, Address { id: 12 }, UnhardenedIndex { index: 7 }).unwrap();
    d.cache.known_height = 101;
    d.cache.block_info.push((BlockHash { id: 77 }, 1_600_000_000));
    d.cache.tx_cache.push((Txid { id: 40 }, Transaction { data: vec![1, 2, 3, 255, 0, 9] }));

    let bytes = d.cache.to_bytes();
    let back = Cache::from_bytes(&bytes).unwrap();
    assert_eq!(back, d.cache);
}

#[test]
fn write_through_state_survives_a_reopen() {
    let config = FileConfig { location: String::from("/tmp/citadel"), format: FileFormat::StrictEncode };
    let mut d = FileDriver::with(config, None).unwrap();
    let c = ContractId { id: 5 };
    d.update(c, vec![], Some(100), vec![OutPoint { txid: Txid { id: 9 }, vout: 1 }], vec![])
        .unwrap();
    d.use_address_derivation(c, Address { id: 4 }, UnhardenedIndex { index: 0 }).unwrap();

    // what the owner of the file handle writes out after the mutation
    let persisted = d.cache.to_bytes();

    // a fresh process start: decode the persisted bytes and reopen
    let loaded = Cache::from_bytes(&persisted).unwrap();
    let config2 = FileConfig { location: String::from("/tmp/citadel"), format: FileFormat::StrictEncode };
    let d2 = FileDriver::with(config2, Some(loaded)).unwrap();
    assert_eq!(d2.utxo(c).unwrap(), vec![OutPoint { txid: Txid { id: 9 }, vout: 1 }]);
    assert_eq!(d2.address_derivation(c, &Address { id: 4 }), Some(UnhardenedIndex { index: 0 }));
    assert_eq!(d2.next_unused_derivation(c).unwrap(), UnhardenedIndex { index: 1 });
}

#[test]
fn truncated_or_malformed_bytes_are_rejected() {
    assert_eq!(Cache::from_bytes(&vec![1, 2, 3]), Err(Error::Decoding));
    // eight bytes claiming a huge descriptor count
    assert_eq!(Cache::from_bytes(&vec![0xFF; 16]), Err(Error::Decoding));
    // trailing garbage after a valid empty cache
    let mut bytes = Cache::empty().to_bytes();
    bytes.extend_from_slice(&[0u8; 8]);
    assert_eq!(Cache::from_bytes(&bytes), Err(Error::Decoding));
}

#[test]
fn encoding_is_not_the_identity_on_its_input() {
    let mut cache = Cache::empty();
    cache.known_height = 7;
    let bytes = cache.to_bytes();
    // the height word plus one length word per collection
    assert_eq!(bytes.len(), 40);
    assert_eq!(bytes[0], 7);
    assert!(Cache::from_bytes(&bytes).unwrap().well_formed());
}

#[test]
fn filename_follows_location_and_format() {
    let config = FileConfig { location: String::from("/var/lib/citadel"), format: FileFormat::Yaml };
    assert_eq!(config.filename(), "/var/lib/citadel/cache.yaml");
    let config = FileConfig { location: String::from("/data"), format: FileFormat::StrictEncode };
    assert_eq!(config.filename(), "/data/cache.dat");
    assert_eq!(FileFormat::Toml.extension(), "toml");
    assert_eq!(FileFormat::Json.extension(), "json");
}
