//! The capability interface every cache backend implements.
//!
//! The trait models a backend's observable state with spec functions:
//! the cache-wide transaction position mapping, and per contract the
//! updated height, the address-to-derivation-index mapping, the unspent
//! outpoint set and the asset allocation mapping.  Every operation's
//! contract is stated over this model, so wallet-facing code verified
//! against `Driver` works with any backend.  Reads keyed by a contract
//! the backend does not know degrade to empty results, never to errors.

use vstd::prelude::*;

use crate::assoc::{keys_unique, elems_unique, seq_map, seq_set};
use crate::cache::Error;
use crate::model::{
    Address, Allocation, Allocations, ContractId, OutPoint, RgbContractId, Txid,
    UnhardenedIndex, Utxo,
};

verus! {

/// Whether some address is bound to derivation index `i` in `m`.
pub open spec fn index_used(m: Map<Address, UnhardenedIndex>, i: u32) -> bool {
    exists|a: Address| m.contains_key(a) && m[a].index == i
}

/// The per-contract unspent mapping described by a scan result: entries
/// are folded left to right, a later entry for an RGB contract replacing
/// an earlier one, and each list of records read as a set.
pub open spec fn unspent_of_entries(s: Seq<(RgbContractId, Vec<Utxo>)>) -> Map<
    RgbContractId,
    Set<Utxo>,
>
    decreases s.len(),
{
    if s.len() == 0 {
        Map::empty()
    } else {
        unspent_of_entries(s.drop_last()).insert(s.last().0, seq_set(s.last().1@))
    }
}

/// The cache-wide transaction position mapping after merging the scanned
/// entries `s` into `m`: new keys inserted, existing keys overwritten.
pub open spec fn mine_merge(m: Map<(u32, u16), Txid>, s: Seq<((u32, u16), Txid)>) -> Map<
    (u32, u16),
    Txid,
>
    decreases s.len(),
{
    if s.len() == 0 {
        m
    } else {
        mine_merge(m, s.drop_last()).insert(s.last().0, s.last().1)
    }
}

/// The asset allocations an unspent mapping describes: every record of
/// every entry other than the plain-bitcoin marker.
pub open spec fn allocation_set(m: Map<RgbContractId, Set<Utxo>>) -> Set<Allocation> {
    Set::new(
        |a: Allocation|
            m.contains_key(a.rgb_id) && !a.rgb_id.is_bitcoin() && m[a.rgb_id].contains(
                Utxo { outpoint: a.outpoint, amount: a.amount },
            ),
    )
}

/// Idempotent binding: recording an absent binding adds exactly that
/// binding and grows the mapping by one; recording the same binding again
/// finds it present, bound to the same index, and re-recording it leaves
/// the mapping unchanged.  Together with the contract of
/// [`Driver::use_address_derivation`] this says that the first call
/// returns `true`, a repeated call returns `false`, and the mapping's
/// size does not grow further.
pub proof fn lemma_binding_idempotent(
    m: Map<Address, UnhardenedIndex>,
    address: Address,
    path: UnhardenedIndex,
)
    requires
        m.dom().finite(),
        !m.contains_key(address),
    ensures
        ({
            let m1 = m.insert(address, path);
            &&& m1.contains_key(address)
            &&& m1[address] == path
            &&& m1.insert(address, path) == m1
            &&& m1.len() == m.len() + 1
        }),
{
    let m1 = m.insert(address, path);
    assert(m1.insert(address, path) =~= m1);
    assert(m1.dom() =~= m.dom().insert(address));
    vstd::set_lib::lemma_set_insert_finite_iff(m.dom(), address);
}

pub trait Driver: Sized {
    /// Structural invariant of the backend's state.
    spec fn wf(&self) -> bool;

    /// The contracts for which a per-contract record has been
    /// materialized by some mutating operation.
    spec fn known_contracts(&self) -> Set<ContractId>;

    /// Mapping from block position to the transaction mined there.
    spec fn mine_map(&self) -> Map<(u32, u16), Txid>;

    /// Height through which the contract's state is current; zero for an
    /// unknown contract.
    spec fn updated_height_of(&self, contract_id: ContractId) -> u32;

    /// The contract's address-to-derivation-index mapping; empty for an
    /// unknown contract.
    spec fn deriv_map_of(&self, contract_id: ContractId) -> Map<Address, UnhardenedIndex>;

    /// The contract's unspent outpoint set; empty for an unknown contract.
    spec fn utxo_set_of(&self, contract_id: ContractId) -> Set<OutPoint>;

    /// The contract's asset allocation view; empty for an unknown contract.
    spec fn unspent_map_of(&self, contract_id: ContractId) -> Map<RgbContractId, Set<Utxo>>;

    /// Default-on-miss: a contract never seen by a mutating operation
    /// projects to entirely empty state.
    proof fn lemma_default_on_miss(&self, contract_id: ContractId)
        requires
            !self.known_contracts().contains(contract_id),
        ensures
            self.updated_height_of(contract_id) == 0,
            self.deriv_map_of(contract_id) == Map::<Address, UnhardenedIndex>::empty(),
            self.utxo_set_of(contract_id) == Set::<OutPoint>::empty(),
            self.unspent_map_of(contract_id) == Map::<RgbContractId, Set<Utxo>>::empty(),
    ;

    /// In a well-formed backend every derivation mapping is finite, holds
    /// fewer entries than there are unhardened indices, and binds only
    /// valid indices.
    proof fn lemma_wf_derivations(&self, contract_id: ContractId)
        requires
            self.wf(),
        ensures
            self.deriv_map_of(contract_id).dom().finite(),
            self.deriv_map_of(contract_id).len() <= 0x7FFF_FFFF,
            forall|a: Address|
                self.deriv_map_of(contract_id).contains_key(a)
                    ==> (#[trigger] self.deriv_map_of(contract_id)[a]).wf(),
    ;

    /// Pure lookup of the transaction sitting at a block position.
    fn blockpos_to_txid(&self, height: u32, offset: u16) -> (r: Option<Txid>)
        requires
            self.wf(),
        ensures
            r == if self.mine_map().contains_key((height, offset)) {
                Some(self.mine_map()[(height, offset)])
            } else {
                None::<Txid>
            },
    ;

    /// The asset-allocation view of a contract.
    fn unspent(&self, contract_id: ContractId) -> (r: Result<
        Vec<(RgbContractId, Vec<Utxo>)>,
        Error,
    >)
        requires
            self.wf(),
        ensures
            match r {
                Ok(v) => {
                    &&& keys_unique(v@)
                    &&& forall|i: int| 0 <= i < v@.len() ==> elems_unique(#[trigger] v@[i].1@)
                    &&& unspent_of_entries(v@) == self.unspent_map_of(contract_id)
                },
                Err(_) => true,
            },
    ;

    /// The unspent records carrying no asset allocation.
    fn unspent_bitcoin_only(&self, contract_id: ContractId) -> (r: Result<Vec<Utxo>, Error>)
        requires
            self.wf(),
        ensures
            match r {
                Ok(v) => {
                    &&& elems_unique(v@)
                    &&& seq_set(v@) == if self.unspent_map_of(contract_id).contains_key(
                        RgbContractId { id: 0 },
                    ) {
                        self.unspent_map_of(contract_id)[RgbContractId { id: 0 }]
                    } else {
                        Set::<Utxo>::empty()
                    }
                },
                Err(_) => true,
            },
    ;

    /// Derived summary of the contract's asset allocations.
    fn allocations(&self, contract_id: ContractId) -> (r: Result<Allocations, Error>)
        requires
            self.wf(),
        ensures
            match r {
                Ok(a) => {
                    &&& elems_unique(a.list@)
                    &&& seq_set(a.list@) == allocation_set(self.unspent_map_of(contract_id))
                },
                Err(_) => true,
            },
    ;

    /// The contract's raw unspent outpoint set.
    fn utxo(&self, contract_id: ContractId) -> (r: Result<Vec<OutPoint>, Error>)
        requires
            self.wf(),
        ensures
            match r {
                Ok(v) => elems_unique(v@) && seq_set(v@) == self.utxo_set_of(contract_id),
                Err(_) => true,
            },
    ;

    /// Folds one scan result into the cache: positions are merged into the
    /// cache-wide mapping, the height replaces the recorded one when
    /// supplied, and the unspent sets replace the recorded ones wholesale.
    fn update(
        &mut self,
        contract_id: ContractId,
        mine_info: Vec<((u32, u16), Txid)>,
        updated_height: Option<u32>,
        utxo: Vec<OutPoint>,
        unspent: Vec<(RgbContractId, Vec<Utxo>)>,
    ) -> (r: Result<(), Error>)
        requires
            old(self).wf(),
        ensures
            final(self).wf(),
            match r {
                Ok(_) => {
                    &&& final(self).mine_map() == mine_merge(old(self).mine_map(), mine_info@)
                    &&& final(self).known_contracts() == old(self).known_contracts().insert(
                        contract_id,
                    )
                    &&& final(self).updated_height_of(contract_id) == match updated_height {
                        Some(h) => h,
                        None => old(self).updated_height_of(contract_id),
                    }
                    &&& final(self).utxo_set_of(contract_id) == seq_set(utxo@)
                    &&& final(self).unspent_map_of(contract_id) == unspent_of_entries(unspent@)
                    &&& final(self).deriv_map_of(contract_id) == old(self).deriv_map_of(
                        contract_id,
                    )
                    &&& forall|c: ContractId|
                        c != contract_id ==> #[trigger] final(self).updated_height_of(c)
                            == old(self).updated_height_of(c)
                    &&& forall|c: ContractId|
                        c != contract_id ==> #[trigger] final(self).deriv_map_of(c) == old(
                            self,
                        ).deriv_map_of(c)
                    &&& forall|c: ContractId|
                        c != contract_id ==> #[trigger] final(self).utxo_set_of(c) == old(
                            self,
                        ).utxo_set_of(c)
                    &&& forall|c: ContractId|
                        c != contract_id ==> #[trigger] final(self).unspent_map_of(c) == old(
                            self,
                        ).unspent_map_of(c)
                },
                Err(_) => true,
            },
    ;

    /// Projection of the whole per-contract derivation mapping.
    fn used_address_derivations(&self, contract_id: ContractId) -> (r: Result<
        Vec<(Address, UnhardenedIndex)>,
        Error,
    >)
        requires
            self.wf(),
        ensures
            match r {
                Ok(v) => keys_unique(v@) && seq_map(v@) == self.deriv_map_of(contract_id),
                Err(_) => true,
            },
    ;

    /// The addresses the contract has ever tracked.
    fn used_addresses(&self, contract_id: ContractId) -> (r: Result<Vec<Address>, Error>)
        requires
            self.wf(),
        ensures
            match r {
                Ok(v) => elems_unique(v@) && seq_set(v@) == self.deriv_map_of(contract_id).dom(),
                Err(_) => true,
            },
    ;

    /// The derivation indices the contract has consumed.
    fn used_derivations(&self, contract_id: ContractId) -> (r: Result<Vec<UnhardenedIndex>, Error>)
        requires
            self.wf(),
        ensures
            match r {
                Ok(v) => elems_unique(v@) && seq_set(v@) == self.deriv_map_of(
                    contract_id,
                ).values(),
                Err(_) => true,
            },
    ;

    /// The smallest non-negative index not yet bound to any address, so
    /// indices freed by [`Driver::forget_address`] are reclaimed before
    /// new ones are minted.  Never fails.
    fn next_unused_derivation(&self, contract_id: ContractId) -> (r: Result<UnhardenedIndex, Error>)
        requires
            self.wf(),
        ensures
            match r {
                Ok(i) => {
                    &&& i.wf()
                    &&& !index_used(self.deriv_map_of(contract_id), i.index)
                    &&& forall|j: u32|
                        j < i.index ==> index_used(self.deriv_map_of(contract_id), j)
                },
                Err(_) => false,
            },
    ;

    /// Records an (address, index) binding.  Returns whether the binding
    /// is new; rebinding an address to a different index is refused.  A
    /// fresh binding asks for room in the index space (there are only
    /// 2^31 unhardened indices); re-recording a present address needs no
    /// room.
    fn use_address_derivation(
        &mut self,
        contract_id: ContractId,
        address: Address,
        path: UnhardenedIndex,
    ) -> (r: Result<bool, Error>)
        requires
            old(self).wf(),
            path.wf(),
            old(self).deriv_map_of(contract_id).len() < 0x7FFF_FFFF || old(self).deriv_map_of(
                contract_id,
            ).contains_key(address),
        ensures
            final(self).wf(),
            final(self).known_contracts() == old(self).known_contracts().insert(contract_id),
            final(self).mine_map() == old(self).mine_map(),
            final(self).updated_height_of(contract_id) == old(self).updated_height_of(contract_id),
            final(self).utxo_set_of(contract_id) == old(self).utxo_set_of(contract_id),
            final(self).unspent_map_of(contract_id) == old(self).unspent_map_of(contract_id),
            forall|c: ContractId|
                c != contract_id ==> #[trigger] final(self).updated_height_of(c) == old(
                    self,
                ).updated_height_of(c),
            forall|c: ContractId|
                c != contract_id ==> #[trigger] final(self).deriv_map_of(c) == old(
                    self,
                ).deriv_map_of(c),
            forall|c: ContractId|
                c != contract_id ==> #[trigger] final(self).utxo_set_of(c) == old(
                    self,
                ).utxo_set_of(c),
            forall|c: ContractId|
                c != contract_id ==> #[trigger] final(self).unspent_map_of(c) == old(
                    self,
                ).unspent_map_of(c),
            match r {
                Ok(true) => {
                    &&& !old(self).deriv_map_of(contract_id).contains_key(address)
                    &&& final(self).deriv_map_of(contract_id) == old(self).deriv_map_of(
                        contract_id,
                    ).insert(address, path)
                },
                Ok(false) => {
                    &&& old(self).deriv_map_of(contract_id).contains_key(address)
                    &&& old(self).deriv_map_of(contract_id)[address] == path
                    &&& final(self).deriv_map_of(contract_id) == old(self).deriv_map_of(
                        contract_id,
                    )
                },
                Err(e) => {
                    &&& e == Error::BindingConflict
                    &&& old(self).deriv_map_of(contract_id).contains_key(address)
                    &&& old(self).deriv_map_of(contract_id)[address] != path
                    &&& final(self).deriv_map_of(contract_id) == old(self).deriv_map_of(
                        contract_id,
                    )
                },
            },
    ;

    /// The maximum index recorded for the contract, reporting how far
    /// derivation has progressed, independent of gaps.
    fn last_used_derivation(&self, contract_id: ContractId) -> (r: Option<UnhardenedIndex>)
        requires
            self.wf(),
        ensures
            match r {
                Some(i) => {
                    &&& index_used(self.deriv_map_of(contract_id), i.index)
                    &&& forall|j: u32|
                        index_used(self.deriv_map_of(contract_id), j) ==> j <= i.index
                },
                None => self.deriv_map_of(contract_id) == Map::<Address, UnhardenedIndex>::empty(),
            },
    ;

    /// Removes an address binding; returns whether it existed.
    fn forget_address(&mut self, contract_id: ContractId, address: &Address) -> (r: Result<
        bool,
        Error,
    >)
        requires
            old(self).wf(),
        ensures
            final(self).wf(),
            final(self).known_contracts() == old(self).known_contracts().insert(contract_id),
            final(self).mine_map() == old(self).mine_map(),
            final(self).updated_height_of(contract_id) == old(self).updated_height_of(contract_id),
            final(self).utxo_set_of(contract_id) == old(self).utxo_set_of(contract_id),
            final(self).unspent_map_of(contract_id) == old(self).unspent_map_of(contract_id),
            forall|c: ContractId|
                c != contract_id ==> #[trigger] final(self).updated_height_of(c) == old(
                    self,
                ).updated_height_of(c),
            forall|c: ContractId|
                c != contract_id ==> #[trigger] final(self).deriv_map_of(c) == old(
                    self,
                ).deriv_map_of(c),
            forall|c: ContractId|
                c != contract_id ==> #[trigger] final(self).utxo_set_of(c) == old(
                    self,
                ).utxo_set_of(c),
            forall|c: ContractId|
                c != contract_id ==> #[trigger] final(self).unspent_map_of(c) == old(
                    self,
                ).unspent_map_of(c),
            match r {
                Ok(true) => {
                    &&& old(self).deriv_map_of(contract_id).contains_key(*address)
                    &&& final(self).deriv_map_of(contract_id) == old(self).deriv_map_of(
                        contract_id,
                    ).remove(*address)
                },
                Ok(false) => {
                    &&& !old(self).deriv_map_of(contract_id).contains_key(*address)
                    &&& final(self).deriv_map_of(contract_id) == old(self).deriv_map_of(
                        contract_id,
                    )
                },
                Err(_) => true,
            },
    ;

    /// Point lookup of one address's derivation index.
    fn address_derivation(&self, contract_id: ContractId, address: &Address) -> (r: Option<
        UnhardenedIndex,
    >)
        requires
            self.wf(),
        ensures
            r == if self.deriv_map_of(contract_id).contains_key(*address) {
                Some(self.deriv_map_of(contract_id)[*address])
            } else {
                None::<UnhardenedIndex>
            },
    ;
}

} // verus!
