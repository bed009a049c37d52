use citadel_cache::cache::{Driver, Error, FileConfig, FileDriver};
use citadel_cache::cache::file::FileFormat;
use citadel_cache::model::{Address, ContractId, OutPoint, RgbContractId, Txid, UnhardenedIndex, Utxo};

fn fresh() -> FileDriver {
    let config = FileConfig { location: String::from("/tmp/citadel"), format: FileFormat::StrictEncode };
    FileDriver::with(config, None).unwrap()
}

fn cid(n: u64) -> ContractId {
    ContractId { id: n }
}

fn addr(n: u64) -> Address {
    Address { id: n }
}

fn idx(n: u32) -> UnhardenedIndex {
    UnhardenedIndex { index: n }
}

fn outpoint(tx: u64, vout: u32) -> OutPoint {
    OutPoint { txid: Txid { id: tx }, vout }
}

fn utxo(tx: u64, vout: u32, amount: u64) -> Utxo {
    Utxo { outpoint: outpoint(tx, vout), amount }
}

#[test]
fn default_on_miss_reads_are_empty() {
    let d = fresh();
    let unknown = cid(77);
    assert_eq!(d.unspent(unknown).unwrap(), vec![]);
    assert_eq!(d.unspent_bitcoin_only(unknown).unwrap(), vec![]);
    assert!(d.allocations(unknown).unwrap().list.is_empty());
    assert_eq!(d.utxo(unknown).unwrap(), vec![]);
    assert_eq!(d.used_address_derivations(unknown).unwrap(), vec![]);
    assert_eq!(d.used_addresses(unknown).unwrap(), vec![]);
    assert_eq!(d.used_derivations(unknown).unwrap(), vec![]);
    assert_eq!(d.last_used_derivation(unknown), None);
    assert_eq!(d.address_derivation(unknown, &addr(1)), None);
}

#[test]
fn next_unused_fills_the_smallest_gap() {
    let mut d = fresh();
    let c = cid(1);
    assert_eq!(d.next_unused_derivation(c).unwrap(), idx(0));
    assert!(d.use_address_derivation(c, addr(10), idx(0)).unwrap());
    assert!(d.use_address_derivation(c, addr(11), idx(1)).unwrap());
    assert!(d.use_address_derivation(c, addr(13), idx(3)).unwrap());
    assert_eq!(d.next_unused_derivation(c).unwrap(), idx(2));
    assert!(d.forget_address(c, &addr(11)).unwrap());
    assert_eq!(d.next_unused_derivation(c).unwrap(), idx(1));
}

#[test]
fn binding_is_idempotent_and_conflicts_are_refused() {
    let mut d = fresh();
    let c = cid(2);
    assert_eq!(d.use_address_derivation(c, addr(5), idx(0)).unwrap(), true);
    assert_eq!(d.use_address_derivation(c, addr(5), idx(0)).unwrap(), false);
    assert_eq!(d.used_address_derivations(c).unwrap().len(), 1);
    assert_eq!(
        d.use_address_derivation(c, addr(5), idx(9)),
        Err(Error::BindingConflict)
    );
    assert_eq!(d.address_derivation(c, &addr(5)), Some(idx(0)));
}

#[test]
fn last_used_is_the_maximum_despite_gaps() {
    let mut d = fresh();
    let c = cid(3);
    assert_eq!(d.last_used_derivation(c), None);
    assert!(d.use_address_derivation(c, addr(1), idx(0)).unwrap());
    assert!(d.use_address_derivation(c, addr(2), idx(2)).unwrap());
    assert!(d.use_address_derivation(c, addr(3), idx(5)).unwrap());
    assert_eq!(d.last_used_derivation(c), Some(idx(5)));
    assert_eq!(d.next_unused_derivation(c).unwrap(), idx(1));
}

#[test]
fn update_replaces_the_utxo_set_wholesale() {
    let mut d = fresh();
    let c = cid(4);
    d.update(c, vec![], Some(10), vec![outpoint(1, 0), outpoint(2, 1)], vec![]).unwrap();
    let mut got = d.utxo(c).unwrap();
    got.sort_by_key(|o| o.txid.id);
    assert_eq!(got, vec![outpoint(1, 0), outpoint(2, 1)]);
    d.update(c, vec![], Some(11), vec![outpoint(9, 9)], vec![]).unwrap();
    assert_eq!(d.utxo(c).unwrap(), vec![outpoint(9, 9)]);
}

#[test]
fn update_merges_mine_info_and_overwrites_positions() {
    let mut d = fresh();
    let c = cid(5);
    d.update(c, vec![((100, 1), Txid { id: 40 })], None, vec![], vec![]).unwrap();
    assert_eq!(d.blockpos_to_txid(100, 1), Some(Txid { id: 40 }));
    assert_eq!(d.blockpos_to_txid(100, 2), None);
    d.update(c, vec![((100, 1), Txid { id: 41 }), ((101, 0), Txid { id: 42 })], None, vec![], vec![])
        .unwrap();
    assert_eq!(d.blockpos_to_txid(100, 1), Some(Txid { id: 41 }));
    assert_eq!(d.blockpos_to_txid(101, 0), Some(Txid { id: 42 }));
}

#[test]
fn unspent_partitions_bitcoin_from_assets() {
    let mut d = fresh();
    let c = cid(6);
    let bitcoin = RgbContractId { id: 0 };
    let asset = RgbContractId { id: 42 };
    d.update(
        c,
        vec![],
        Some(50),
        vec![],
        vec![
            (bitcoin, vec![utxo(1, 0, 5000), utxo(1, 0, 5000)]),
            (asset, vec![utxo(2, 1, 30)]),
        ],
    )
    .unwrap();
    // the duplicate bitcoin record is deduplicated
    assert_eq!(d.unspent_bitcoin_only(c).unwrap(), vec![utxo(1, 0, 5000)]);
    let allocations = d.allocations(c).unwrap();
    assert_eq!(allocations.list.len(), 1);
    assert_eq!(allocations.list[0].rgb_id, asset);
    assert_eq!(allocations.list[0].outpoint, outpoint(2, 1));
    assert_eq!(allocations.list[0].amount, 30);
    let all = d.unspent(c).unwrap();
    assert_eq!(all.len(), 2);
}

#[test]
fn update_keeps_later_entry_for_a_repeated_asset() {
    let mut d = fresh();
    let c = cid(7);
    let asset = RgbContractId { id: 9 };
    d.update(
        c,
        vec![],
        None,
        vec![],
        vec![(asset, vec![utxo(1, 0, 1)]), (asset, vec![utxo(2, 0, 2)])],
    )
    .unwrap();
    let all = d.unspent(c).unwrap();
    assert_eq!(all.len(), 1);
    assert_eq!(all[0].1, vec![utxo(2, 0, 2)]);
}

#[test]
fn projections_over_the_derivation_map() {
    let mut d = fresh();
    let c = cid(8);
    assert!(d.use_address_derivation(c, addr(1), idx(4)).unwrap());
    assert!(d.use_address_derivation(c, addr(2), idx(4)).unwrap());
    let mut addresses = d.used_addresses(c).unwrap();
    addresses.sort_by_key(|a| a.id);
    assert_eq!(addresses, vec![addr(1), addr(2)]);
    // both addresses consumed the same index: the set has one element
    assert_eq!(d.used_derivations(c).unwrap(), vec![idx(4)]);
}

#[test]
fn forget_address_reports_whether_the_binding_existed() {
    let mut d = fresh();
    let c = cid(9);
    assert_eq!(d.forget_address(c, &addr(1)).unwrap(), false);
    assert!(d.use_address_derivation(c, addr(1), idx(0)).unwrap());
    assert_eq!(d.forget_address(c, &addr(1)).unwrap(), true);
    assert_eq!(d.forget_address(c, &addr(1)).unwrap(), false);
    assert_eq!(d.used_address_derivations(c).unwrap(), vec![]);
}

#[test]
fn end_to_end_scenario() {
    let mut d = fresh();
    let c = cid(10);
    let a = outpoint(7, 0);
    d.update(c, vec![], Some(100), vec![a], vec![]).unwrap();
    assert_eq!(d.utxo(c).unwrap(), vec![a]);
    assert_eq!(d.use_address_derivation(c, addr(1), idx(0)).unwrap(), true);
    assert_eq!(d.use_address_derivation(c, addr(1), idx(0)).unwrap(), false);
    assert_eq!(d.next_unused_derivation(c).unwrap(), idx(1));
}

#[test]
fn updates_to_one_contract_leave_others_alone() {
    let mut d = fresh();
    let c1 = cid(11);
    let c2 = cid(12);
    d.update(c1, vec![], Some(5), vec![outpoint(1, 0)], vec![]).unwrap();
    d.update(c2, vec![], Some(6), vec![outpoint(2, 0)], vec![]).unwrap();
    assert_eq!(d.utxo(c1).unwrap(), vec![outpoint(1, 0)]);
    assert_eq!(d.utxo(c2).unwrap(), vec![outpoint(2, 0)]);
}
