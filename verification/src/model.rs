//! Plain-value model of the wallet entities the cache indexes.
//!
//! The cache never inspects the cryptographic material behind these
//! identifiers; it only stores, compares and orders them.  Each type
//! therefore carries the identifying value as a plain integer, and the
//! surrounding runtime converts between these records and its own
//! on-the-wire representations.

use vstd::prelude::*;

verus! {

/// Identifier of a tracked wallet context (a descriptor-based wallet or
/// an RGB contract grouping); the primary key of the cache.
#[derive(Clone, Copy, PartialEq, Eq, Structural, Hash, Debug)]
pub struct ContractId {
    pub id: u64,
}

/// Identifier of an RGB asset contract under which allocations are grouped.
/// The zero identifier is reserved for outputs that carry no asset.
#[derive(Clone, Copy, PartialEq, Eq, Structural, Hash, Debug)]
pub struct RgbContractId {
    pub id: u64,
}

impl RgbContractId {
    /// Marker for plain-bitcoin outputs, carrying no asset allocation.
    pub open spec fn is_bitcoin(self) -> bool {
        self.id == 0
    }
}

/// Identifier of a transaction.
#[derive(Clone, Copy, PartialEq, Eq, Structural, Hash, Debug)]
pub struct Txid {
    pub id: u64,
}

/// Identifier of a block.
#[derive(Clone, Copy, PartialEq, Eq, Structural, Hash, Debug)]
pub struct BlockHash {
    pub id: u64,
}

/// A wallet address, identified by the value of its script.
#[derive(Clone, Copy, PartialEq, Eq, Structural, Hash, Debug)]
pub struct Address {
    pub id: u64,
}

/// An unhardened position in a hierarchical-deterministic key derivation
/// sequence; valid values lie below 2^31.
#[derive(Clone, Copy, PartialEq, Eq, Structural, Hash, Debug)]
pub struct UnhardenedIndex {
    pub index: u32,
}

/// One more than the largest valid unhardened derivation index.
pub const INDEX_SPACE: u32 = 0x8000_0000;

impl UnhardenedIndex {
    pub open spec fn wf(self) -> bool {
        self.index < INDEX_SPACE
    }
}

/// A reference to a specific output of a specific transaction.
#[derive(Clone, Copy, PartialEq, Eq, Structural, Hash, Debug)]
pub struct OutPoint {
    pub txid: Txid,
    pub vout: u32,
}

/// An unspent output together with the asset amount allocated to it.
#[derive(Clone, Copy, PartialEq, Eq, Structural, Hash, Debug)]
pub struct Utxo {
    pub outpoint: OutPoint,
    pub amount: u64,
}

/// A full transaction body, kept verbatim so known transactions need not
/// be fetched from the network again.
#[derive(Clone, PartialEq, Debug)]
pub struct Transaction {
    pub data: Vec<u8>,
}

/// One asset allocation: an amount of one RGB contract's asset sitting on
/// one outpoint.
#[derive(Clone, Copy, PartialEq, Eq, Structural, Hash, Debug)]
pub struct Allocation {
    pub rgb_id: RgbContractId,
    pub outpoint: OutPoint,
    pub amount: u64,
}

/// Derived summary of the asset allocations of one tracked contract.
#[derive(Clone, Debug)]
pub struct Allocations {
    pub list: Vec<Allocation>,
}

} // verus!
