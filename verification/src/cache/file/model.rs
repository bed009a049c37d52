//! The in-memory data model mirrored to durable storage in full.
//!
//! Every mapping is stored as a vector of pairs with pairwise distinct
//! keys; [`crate::assoc`] gives those vectors their reading as finite
//! maps and sets.

use vstd::prelude::*;

use crate::assoc::{elems_unique, keys_unique, seq_map, seq_set};
use crate::cache::driver::unspent_of_entries;
use crate::model::{
    Address, BlockHash, ContractId, OutPoint, RgbContractId, Transaction, Txid, UnhardenedIndex,
    Utxo,
};

verus! {

/// Per-contract cached state, lazily created on first mutating access.
#[derive(Clone, PartialEq, Debug)]
pub struct ContractCache {
    /// Height through which this contract's state is current; may lag the
    /// cache-wide known height.
    pub updated_height: u32,
    /// Which derivation index produced each address the wallet has ever
    /// tracked; one entry per address.
    pub used_address_derivations: Vec<(Address, UnhardenedIndex)>,
    /// Outpoints currently believed unspent for this contract.
    pub utxo: Vec<OutPoint>,
    /// Unspent records grouped by RGB contract; the zero contract groups
    /// the records carrying no asset allocation.
    pub unspent: Vec<(RgbContractId, Vec<Utxo>)>,
}

impl ContractCache {
    pub open spec fn wf(self) -> bool {
        &&& keys_unique(self.used_address_derivations@)
        &&& self.used_address_derivations@.len() <= 0x7FFF_FFFF
        &&& forall|i: int|
            0 <= i < self.used_address_derivations@.len()
                ==> (#[trigger] self.used_address_derivations@[i]).1.wf()
        &&& elems_unique(self.utxo@)
        &&& keys_unique(self.unspent@)
        &&& forall|i: int|
            0 <= i < self.unspent@.len() ==> elems_unique((#[trigger] self.unspent@[i]).1@)
    }

    pub open spec fn deriv_map(self) -> Map<Address, UnhardenedIndex> {
        seq_map(self.used_address_derivations@)
    }

    pub open spec fn utxo_set(self) -> Set<OutPoint> {
        seq_set(self.utxo@)
    }

    pub open spec fn unspent_map(self) -> Map<RgbContractId, Set<Utxo>> {
        unspent_of_entries(self.unspent@)
    }

    /// A fresh record with no history.
    pub fn empty() -> (r: ContractCache)
        ensures
            r.updated_height == 0,
            r.used_address_derivations@ == Seq::<(Address, UnhardenedIndex)>::empty(),
            r.utxo@ == Seq::<OutPoint>::empty(),
            r.unspent@ == Seq::<(RgbContractId, Vec<Utxo>)>::empty(),
            r.wf(),
    {
        ContractCache {
            updated_height: 0,
            used_address_derivations: Vec::new(),
            utxo: Vec::new(),
            unspent: Vec::new(),
        }
    }
}

impl Default for ContractCache {
    fn default() -> (r: ContractCache)
        ensures
            r == (ContractCache {
                updated_height: 0,
                used_address_derivations: r.used_address_derivations,
                utxo: r.utxo,
                unspent: r.unspent,
            }),
            r.used_address_derivations@.len() == 0,
            r.utxo@.len() == 0,
            r.unspent@.len() == 0,
            r.wf(),
    {
        ContractCache::empty()
    }
}

/// The root aggregate: the whole state the persistence engine mirrors to
/// one file on every mutation.
#[derive(Clone, PartialEq, Debug)]
pub struct Cache {
    /// Highest blockchain height the cache has observed, across all
    /// contracts.
    pub known_height: u32,
    /// Per-contract state, keyed by contract identifier.
    pub descriptors: Vec<(ContractId, ContractCache)>,
    /// Scanned blocks, as (block hash, unix timestamp) pairs in scan
    /// order.
    pub block_info: Vec<(BlockHash, u64)>,
    /// Which transaction sits at each (height, offset) block position.
    pub mine_info: Vec<((u32, u16), Txid)>,
    /// Full bodies of known transactions, keyed by transaction id.
    pub tx_cache: Vec<(Txid, Transaction)>,
}

impl Cache {
    pub open spec fn wf(self) -> bool {
        &&& keys_unique(self.descriptors@)
        &&& forall|i: int|
            0 <= i < self.descriptors@.len() ==> (#[trigger] self.descriptors@[i]).1.wf()
        &&& keys_unique(self.mine_info@)
        &&& keys_unique(self.tx_cache@)
    }

    pub open spec fn descriptors_map(self) -> Map<ContractId, ContractCache> {
        seq_map(self.descriptors@)
    }

    pub open spec fn mine_map(self) -> Map<(u32, u16), Txid> {
        seq_map(self.mine_info@)
    }

    pub open spec fn tx_map(self) -> Map<Txid, Transaction> {
        seq_map(self.tx_cache@)
    }

    pub open spec fn has_contract(self, contract_id: ContractId) -> bool {
        self.descriptors_map().contains_key(contract_id)
    }

    pub open spec fn updated_height_of(self, contract_id: ContractId) -> u32 {
        if self.has_contract(contract_id) {
            self.descriptors_map()[contract_id].updated_height
        } else {
            0
        }
    }

    pub open spec fn deriv_seq_of(self, contract_id: ContractId) -> Seq<
        (Address, UnhardenedIndex),
    > {
        if self.has_contract(contract_id) {
            self.descriptors_map()[contract_id].used_address_derivations@
        } else {
            Seq::empty()
        }
    }

    pub open spec fn deriv_map_of(self, contract_id: ContractId) -> Map<
        Address,
        UnhardenedIndex,
    > {
        seq_map(self.deriv_seq_of(contract_id))
    }

    pub open spec fn utxo_set_of(self, contract_id: ContractId) -> Set<OutPoint> {
        if self.has_contract(contract_id) {
            self.descriptors_map()[contract_id].utxo_set()
        } else {
            Set::empty()
        }
    }

    pub open spec fn unspent_seq_of(self, contract_id: ContractId) -> Seq<
        (RgbContractId, Vec<Utxo>),
    > {
        if self.has_contract(contract_id) {
            self.descriptors_map()[contract_id].unspent@
        } else {
            Seq::empty()
        }
    }

    pub open spec fn unspent_map_of(self, contract_id: ContractId) -> Map<
        RgbContractId,
        Set<Utxo>,
    > {
        unspent_of_entries(self.unspent_seq_of(contract_id))
    }

    /// The state of a fresh deployment, before any scan.
    pub fn empty() -> (r: Cache)
        ensures
            r.known_height == 0,
            r.descriptors@ == Seq::<(ContractId, ContractCache)>::empty(),
            r.block_info@ == Seq::<(BlockHash, u64)>::empty(),
            r.mine_info@ == Seq::<((u32, u16), Txid)>::empty(),
            r.tx_cache@ == Seq::<(Txid, Transaction)>::empty(),
            r.wf(),
    {
        Cache {
            known_height: 0,
            descriptors: Vec::new(),
            block_info: Vec::new(),
            mine_info: Vec::new(),
            tx_cache: Vec::new(),
        }
    }
}

impl Default for Cache {
    fn default() -> (r: Cache)
        ensures
            r.known_height == 0,
            r.descriptors@.len() == 0,
            r.block_info@.len() == 0,
            r.mine_info@.len() == 0,
            r.tx_cache@.len() == 0,
            r.wf(),
    {
        Cache::empty()
    }
}

} // verus!
