//! The file-backed driver: configuration and the in-memory engine.
//!
//! The driver keeps the whole [`Cache`] resident; every mutating
//! operation changes the in-memory state.  The owner of the file handle
//! persists by writing the bytes of the whole-state codec (or a
//! structured text rendering of the same state) back to the configured
//! file before reporting success, so a successful mutating call is
//! durable.

use vstd::prelude::*;
use vstd::string::StringExecFns;

use crate::assoc::{
    elems_unique, keys_unique, lemma_free_value_below, lemma_int_set_contains, lemma_seq_map_add,
    lemma_seq_map_domain, lemma_seq_map_index, lemma_seq_map_len, lemma_seq_map_not_contains,
    lemma_seq_map_push, lemma_seq_map_remove, lemma_seq_map_replace, lemma_seq_set_concat,
    lemma_seq_set_contains, lemma_seq_set_push, int_set_of, seq_map, seq_set,
};
use crate::cache::driver::{allocation_set, index_used, mine_merge, unspent_of_entries, Driver};
use crate::cache::file::model::{Cache, ContractCache};
use crate::cache::file::FileFormat;
use crate::cache::Error;
use crate::model::{
    Address, Allocation, Allocations, ContractId, OutPoint, RgbContractId, Txid, UnhardenedIndex,
    Utxo,
};

verus! {

/// Where and in which format the cache file lives.
#[derive(Clone, PartialEq, Debug)]
pub struct FileConfig {
    /// Directory holding the cache file.
    pub location: String,
    /// Serialization format, fixing the file's extension.
    pub format: FileFormat,
}

impl FileConfig {
    /// Path of the cache file under the configured directory.
    pub fn filename(&self) -> (r: String)
        ensures
            r@ == self.location@ + "/cache."@ + self.format.extension_spec(),
    {
        let mut name = String::from_str(self.location.as_str());
        name.append("/cache.");
        name.append(self.format.extension());
        name
    }
}

/// A concrete [`Driver`] keeping the full cache resident in memory.
#[derive(Debug)]
pub struct FileDriver {
    pub config: FileConfig,
    pub cache: Cache,
}

impl FileDriver {
    /// Initializes the engine for a configured location: with the state
    /// decoded from an existing cache file, or empty for a fresh
    /// deployment.
    pub fn with(config: FileConfig, loaded: Option<Cache>) -> (r: Result<FileDriver, Error>)
        requires
            match loaded {
                Some(c) => c.wf(),
                None => true,
            },
        ensures
            match r {
                Ok(d) => {
                    &&& d.cache.wf()
                    &&& d.config == config
                    &&& match loaded {
                        Some(c) => d.cache == c,
                        None => {
                            &&& d.cache.known_height == 0
                            &&& d.cache.descriptors@.len() == 0
                            &&& d.cache.block_info@.len() == 0
                            &&& d.cache.mine_info@.len() == 0
                            &&& d.cache.tx_cache@.len() == 0
                        },
                    }
                },
                Err(_) => false,
            },
    {
        let cache = match loaded {
            Some(c) => c,
            None => Cache::empty(),
        };
        Ok(FileDriver { config, cache })
    }
}

// ----- searching helpers -----

fn find_cid(v: &Vec<(ContractId, ContractCache)>, c: ContractId) -> (r: Option<usize>)
    ensures
        match r {
            Some(i) => i < v@.len() && v@[i as int].0 == c,
            None => forall|j: int| 0 <= j < v@.len() ==> v@[j].0 != c,
        },
{
    let mut i: usize = 0;
    while i < v.len()
        invariant
            i <= v@.len(),
            forall|j: int| 0 <= j < i ==> v@[j].0 != c,
        decreases v@.len() - i,
    {
        if v[i].0 == c {
            return Some(i);
        }
        i += 1;
    }
    None
}

fn find_deriv(v: &Vec<(Address, UnhardenedIndex)>, a: Address) -> (r: Option<usize>)
    ensures
        match r {
            Some(i) => i < v@.len() && v@[i as int].0 == a,
            None => forall|j: int| 0 <= j < v@.len() ==> v@[j].0 != a,
        },
{
    let mut i: usize = 0;
    while i < v.len()
        invariant
            i <= v@.len(),
            forall|j: int| 0 <= j < i ==> v@[j].0 != a,
        decreases v@.len() - i,
    {
        if v[i].0 == a {
            return Some(i);
        }
        i += 1;
    }
    None
}

fn find_rgb(v: &Vec<(RgbContractId, Vec<Utxo>)>, k: RgbContractId) -> (r: Option<usize>)
    ensures
        match r {
            Some(i) => i < v@.len() && v@[i as int].0 == k,
            None => forall|j: int| 0 <= j < v@.len() ==> v@[j].0 != k,
        },
{
    let mut i: usize = 0;
    while i < v.len()
        invariant
            i <= v@.len(),
            forall|j: int| 0 <= j < i ==> v@[j].0 != k,
        decreases v@.len() - i,
    {
        if v[i].0 == k {
            return Some(i);
        }
        i += 1;
    }
    None
}

fn contains_outpoint(v: &Vec<OutPoint>, x: OutPoint) -> (b: bool)
    ensures
        b == exists|j: int| 0 <= j < v@.len() && v@[j] == x,
{
    let mut i: usize = 0;
    while i < v.len()
        invariant
            i <= v@.len(),
            forall|j: int| 0 <= j < i ==> v@[j] != x,
        decreases v@.len() - i,
    {
        if v[i] == x {
            return true;
        }
        i += 1;
    }
    false
}

fn contains_utxo(v: &Vec<Utxo>, x: Utxo) -> (b: bool)
    ensures
        b == exists|j: int| 0 <= j < v@.len() && v@[j] == x,
{
    let mut i: usize = 0;
    while i < v.len()
        invariant
            i <= v@.len(),
            forall|j: int| 0 <= j < i ==> v@[j] != x,
        decreases v@.len() - i,
    {
        if v[i] == x {
            return true;
        }
        i += 1;
    }
    false
}

fn contains_uidx(v: &Vec<UnhardenedIndex>, x: UnhardenedIndex) -> (b: bool)
    ensures
        b == exists|j: int| 0 <= j < v@.len() && v@[j] == x,
{
    let mut i: usize = 0;
    while i < v.len()
        invariant
            i <= v@.len(),
            forall|j: int| 0 <= j < i ==> v@[j] != x,
        decreases v@.len() - i,
    {
        if v[i] == x {
            return true;
        }
        i += 1;
    }
    false
}

fn contains_index(v: &Vec<(Address, UnhardenedIndex)>, x: u32) -> (b: bool)
    ensures
        b == exists|j: int| 0 <= j < v@.len() && v@[j].1.index == x,
{
    let mut i: usize = 0;
    while i < v.len()
        invariant
            i <= v@.len(),
            forall|j: int| 0 <= j < i ==> v@[j].1.index != x,
        decreases v@.len() - i,
    {
        if v[i].1.index == x {
            return true;
        }
        i += 1;
    }
    false
}

// ----- copying helpers -----

fn copy_outpoints(v: &Vec<OutPoint>) -> (r: Vec<OutPoint>)
    ensures
        r@ == v@,
{
    let mut r: Vec<OutPoint> = Vec::new();
    let mut i: usize = 0;
    while i < v.len()
        invariant
            i <= v@.len(),
            r@ == v@.take(i as int),
        decreases v@.len() - i,
    {
        r.push(v[i]);
        proof {
            assert(v@.take(i as int + 1) =~= v@.take(i as int).push(v@[i as int]));
        }
        i += 1;
    }
    proof {
        assert(v@.take(v@.len() as int) =~= v@);
    }
    r
}

fn copy_utxos(v: &Vec<Utxo>) -> (r: Vec<Utxo>)
    ensures
        r@ == v@,
{
    let mut r: Vec<Utxo> = Vec::new();
    let mut i: usize = 0;
    while i < v.len()
        invariant
            i <= v@.len(),
            r@ == v@.take(i as int),
        decreases v@.len() - i,
    {
        r.push(v[i]);
        proof {
            assert(v@.take(i as int + 1) =~= v@.take(i as int).push(v@[i as int]));
        }
        i += 1;
    }
    proof {
        assert(v@.take(v@.len() as int) =~= v@);
    }
    r
}

fn copy_derivs(v: &Vec<(Address, UnhardenedIndex)>) -> (r: Vec<(Address, UnhardenedIndex)>)
    ensures
        r@ == v@,
{
    let mut r: Vec<(Address, UnhardenedIndex)> = Vec::new();
    let mut i: usize = 0;
    while i < v.len()
        invariant
            i <= v@.len(),
            r@ == v@.take(i as int),
        decreases v@.len() - i,
    {
        r.push(v[i]);
        proof {
            assert(v@.take(i as int + 1) =~= v@.take(i as int).push(v@[i as int]));
        }
        i += 1;
    }
    proof {
        assert(v@.take(v@.len() as int) =~= v@);
    }
    r
}

fn copy_unspent(v: &Vec<(RgbContractId, Vec<Utxo>)>) -> (r: Vec<(RgbContractId, Vec<Utxo>)>)
    ensures
        r@.len() == v@.len(),
        forall|i: int|
            0 <= i < v@.len() ==> (#[trigger] r@[i]).0 == v@[i].0 && r@[i].1@ == v@[i].1@,
{
    let mut r: Vec<(RgbContractId, Vec<Utxo>)> = Vec::new();
    let mut i: usize = 0;
    while i < v.len()
        invariant
            i <= v@.len(),
            r@.len() == i,
            forall|j: int|
                0 <= j < i ==> (#[trigger] r@[j]).0 == v@[j].0 && r@[j].1@ == v@[j].1@,
        decreases v@.len() - i,
    {
        let inner = copy_utxos(&v[i].1);
        r.push((v[i].0, inner));
        i += 1;
    }
    r
}

// ----- deduplicating helpers -----

fn dedup_outpoints(v: &Vec<OutPoint>) -> (r: Vec<OutPoint>)
    ensures
        elems_unique(r@),
        seq_set(r@) == seq_set(v@),
{
    let mut r: Vec<OutPoint> = Vec::new();
    let mut i: usize = 0;
    while i < v.len()
        invariant
            i <= v@.len(),
            elems_unique(r@),
            seq_set(r@) == seq_set(v@.take(i as int)),
        decreases v@.len() - i,
    {
        let x = v[i];
        let dup = contains_outpoint(&r, x);
        proof {
            lemma_seq_set_contains(r@, x);
            assert(v@.take(i as int + 1) =~= v@.take(i as int).push(x));
            lemma_seq_set_push(v@.take(i as int), x);
        }
        if !dup {
            let ghost r0 = r@;
            r.push(x);
            proof {
                lemma_seq_set_push(r0, x);
                assert(elems_unique(r@)) by {
                    assert(forall|j: int| 0 <= j < r0.len() ==> r@[j] == r0[j]);
                    assert(r@[r0.len() as int] == x);
                }
            }
        } else {
            proof {
                assert(seq_set(r@).insert(x) =~= seq_set(r@));
            }
        }
        i += 1;
    }
    proof {
        assert(v@.take(v@.len() as int) =~= v@);
    }
    r
}

fn dedup_utxos(v: &Vec<Utxo>) -> (r: Vec<Utxo>)
    ensures
        elems_unique(r@),
        seq_set(r@) == seq_set(v@),
{
    let mut r: Vec<Utxo> = Vec::new();
    let mut i: usize = 0;
    while i < v.len()
        invariant
            i <= v@.len(),
            elems_unique(r@),
            seq_set(r@) == seq_set(v@.take(i as int)),
        decreases v@.len() - i,
    {
        let x = v[i];
        let dup = contains_utxo(&r, x);
        proof {
            lemma_seq_set_contains(r@, x);
            assert(v@.take(i as int + 1) =~= v@.take(i as int).push(x));
            lemma_seq_set_push(v@.take(i as int), x);
        }
        if !dup {
            let ghost r0 = r@;
            r.push(x);
            proof {
                lemma_seq_set_push(r0, x);
                assert(elems_unique(r@)) by {
                    assert(forall|j: int| 0 <= j < r0.len() ==> r@[j] == r0[j]);
                    assert(r@[r0.len() as int] == x);
                }
            }
        } else {
            proof {
                assert(seq_set(r@).insert(x) =~= seq_set(r@));
            }
        }
        i += 1;
    }
    proof {
        assert(v@.take(v@.len() as int) =~= v@);
    }
    r
}

// ----- the unspent mapping as an association list of sets -----

/// Each unspent entry with its record list read as a set.
pub open spec fn entry_view(s: Seq<(RgbContractId, Vec<Utxo>)>) -> Seq<(RgbContractId, Set<Utxo>)> {
    Seq::new(s.len(), |i: int| (s[i].0, seq_set(s[i].1@)))
}

pub proof fn lemma_unspent_entries_view(s: Seq<(RgbContractId, Vec<Utxo>)>)
    ensures
        unspent_of_entries(s) == seq_map(entry_view(s)),
    decreases s.len(),
{
    if s.len() == 0 {
        assert(entry_view(s) =~= Seq::<(RgbContractId, Set<Utxo>)>::empty());
    } else {
        lemma_unspent_entries_view(s.drop_last());
        assert(entry_view(s).drop_last() =~= entry_view(s.drop_last()));
        assert(entry_view(s).last() == (s.last().0, seq_set(s.last().1@)));
    }
}

/// Replaces the recorded unspent mapping by a scan result: later entries
/// for one RGB contract win and each record list is deduplicated.
fn fold_unspent(entries: &Vec<(RgbContractId, Vec<Utxo>)>) -> (r: Vec<(RgbContractId, Vec<Utxo>)>)
    ensures
        keys_unique(r@),
        forall|i: int| 0 <= i < r@.len() ==> elems_unique((#[trigger] r@[i]).1@),
        unspent_of_entries(r@) == unspent_of_entries(entries@),
{
    let mut r: Vec<(RgbContractId, Vec<Utxo>)> = Vec::new();
    let mut i: usize = 0;
    while i < entries.len()
        invariant
            i <= entries@.len(),
            keys_unique(r@),
            forall|j: int| 0 <= j < r@.len() ==> elems_unique((#[trigger] r@[j]).1@),
            seq_map(entry_view(r@)) == unspent_of_entries(entries@.take(i as int)),
        decreases entries@.len() - i,
    {
        let key = entries[i].0;
        let inner = dedup_utxos(&entries[i].1);
        proof {
            assert(entries@.take(i as int + 1).drop_last() =~= entries@.take(i as int));
            assert(entries@.take(i as int + 1).last() == entries@[i as int]);
        }
        let j = find_rgb(&r, key);
        let ghost r0 = r@;
        match j {
            Some(jj) => {
                let _removed = r.remove(jj);
                r.push((key, inner));
                proof {
                    assert(keys_unique(entry_view(r0))) by {
                        assert(forall|x: int|
                            0 <= x < r0.len() ==> entry_view(r0)[x].0 == r0[x].0);
                    }
                    lemma_seq_map_replace(entry_view(r0), jj as int, seq_set(inner@));
                    assert(entry_view(r@) =~= entry_view(r0).remove(jj as int).push(
                        (key, seq_set(inner@)),
                    ));
                    assert(keys_unique(r@)) by {
                        assert(forall|x: int|
                            0 <= x < r@.len() ==> entry_view(r@)[x].0 == r@[x].0);
                    }
                    assert(forall|x: int|
                        0 <= x < r@.len() - 1 ==> r@[x] == (if x < jj {
                            r0[x]
                        } else {
                            r0[x + 1]
                        }));
                    assert(r@[r@.len() - 1].1@ == inner@);
                }
            },
            None => {
                r.push((key, inner));
                proof {
                    assert(keys_unique(entry_view(r0))) by {
                        assert(forall|x: int|
                            0 <= x < r0.len() ==> entry_view(r0)[x].0 == r0[x].0);
                    }
                    assert(forall|x: int| 0 <= x < r0.len() ==> entry_view(r0)[x].0 != key);
                    lemma_seq_map_add(entry_view(r0), key, seq_set(inner@));
                    assert(entry_view(r@) =~= entry_view(r0).push((key, seq_set(inner@))));
                    assert(keys_unique(r@)) by {
                        assert(forall|x: int|
                            0 <= x < r@.len() ==> entry_view(r@)[x].0 == r@[x].0);
                    }
                    assert(forall|x: int| 0 <= x < r@.len() - 1 ==> r@[x] == r0[x]);
                    assert(r@[r@.len() - 1].1@ == inner@);
                }
            },
        }
        i += 1;
    }
    proof {
        assert(entries@.take(entries@.len() as int) =~= entries@);
        lemma_unspent_entries_view(r@);
    }
    r
}

// ----- the merge of scanned block positions -----

fn insert_mine(m: &mut Vec<((u32, u16), Txid)>, k: (u32, u16), tx: Txid)
    requires
        keys_unique(old(m)@),
    ensures
        keys_unique(final(m)@),
        seq_map(final(m)@) == seq_map(old(m)@).insert(k, tx),
{
    let ghost s0 = m@;
    let mut i: usize = 0;
    while i < m.len()
        invariant
            i <= m@.len(),
            m@ == s0,
            s0 == old(m)@,
            keys_unique(s0),
            forall|j: int| 0 <= j < i ==> m@[j].0 != k,
        decreases m@.len() - i,
    {
        let e = m[i];
        if e.0.0 == k.0 && e.0.1 == k.1 {
            assert(s0[i as int].0 == k);
            let _removed = m.remove(i);
            m.push((k, tx));
            proof {
                lemma_seq_map_replace(s0, i as int, tx);
                assert(m@ =~= s0.remove(i as int).push((k, tx)));
            }
            return ;
        }
        i += 1;
    }
    m.push((k, tx));
    proof {
        lemma_seq_map_add(s0, k, tx);
    }
}

fn merge_mine(m: &mut Vec<((u32, u16), Txid)>, entries: &Vec<((u32, u16), Txid)>)
    requires
        keys_unique(old(m)@),
    ensures
        keys_unique(final(m)@),
        seq_map(final(m)@) == mine_merge(seq_map(old(m)@), entries@),
{
    let ghost m0 = m@;
    let mut i: usize = 0;
    while i < entries.len()
        invariant
            i <= entries@.len(),
            keys_unique(m@),
            seq_map(m@) == mine_merge(seq_map(m0), entries@.take(i as int)),
        decreases entries@.len() - i,
    {
        let e = entries[i];
        proof {
            assert(entries@.take(i as int + 1).drop_last() =~= entries@.take(i as int));
            assert(entries@.take(i as int + 1).last() == e);
        }
        insert_mine(m, e.0, e.1);
        i += 1;
    }
    proof {
        assert(entries@.take(entries@.len() as int) =~= entries@);
    }
}

// ----- derivation index lemmas -----

/// An index is a value of the derivation map exactly when some entry of
/// the backing list carries it.
pub proof fn lemma_index_used_iff(s: Seq<(Address, UnhardenedIndex)>, x: u32)
    requires
        keys_unique(s),
    ensures
        index_used(seq_map(s), x) <==> exists|k: int| 0 <= k < s.len() && s[k].1.index == x,
{
    if index_used(seq_map(s), x) {
        let a = choose|a: Address| seq_map(s).contains_key(a) && seq_map(s)[a].index == x;
        lemma_seq_map_domain(s, a);
        let k = choose|k: int| 0 <= k < s.len() && s[k].0 == a;
        lemma_seq_map_index(s, k);
        assert(s[k].1.index == x);
    }
    if exists|k: int| 0 <= k < s.len() && s[k].1.index == x {
        let k = choose|k: int| 0 <= k < s.len() && s[k].1.index == x;
        lemma_seq_map_index(s, k);
        assert(seq_map(s).contains_key(s[k].0) && seq_map(s)[s[k].0].index == x);
    }
}

// ----- the allocation summary -----

/// The allocations described by one unspent entry, in record order.
pub open spec fn entry_allocs(e: (RgbContractId, Vec<Utxo>)) -> Seq<Allocation> {
    Seq::new(
        e.1@.len(),
        |k: int|
            Allocation { rgb_id: e.0, outpoint: e.1@[k].outpoint, amount: e.1@[k].amount },
    )
}

/// The allocations described by an unspent mapping, in storage order,
/// leaving out the plain-bitcoin marker entry.
pub open spec fn allocs_flat(s: Seq<(RgbContractId, Vec<Utxo>)>) -> Seq<Allocation>
    decreases s.len(),
{
    if s.len() == 0 {
        Seq::empty()
    } else {
        allocs_flat(s.drop_last()) + (if s.last().0.is_bitcoin() {
            Seq::empty()
        } else {
            entry_allocs(s.last())
        })
    }
}

pub proof fn lemma_allocs_flat(s: Seq<(RgbContractId, Vec<Utxo>)>)
    requires
        keys_unique(s),
        forall|i: int| 0 <= i < s.len() ==> elems_unique((#[trigger] s[i]).1@),
    ensures
        elems_unique(allocs_flat(s)),
        seq_set(allocs_flat(s)) == allocation_set(unspent_of_entries(s)),
    decreases s.len(),
{
    if s.len() == 0 {
        assert(seq_set(allocs_flat(s)) =~= allocation_set(unspent_of_entries(s)));
    } else {
        let t = s.drop_last();
        let e = s.last();
        assert(keys_unique(t) && forall|i: int|
            0 <= i < t.len() ==> elems_unique((#[trigger] t[i]).1@)) by {
            assert(forall|x: int| 0 <= x < t.len() ==> t[x] == s[x]);
        }
        lemma_allocs_flat(t);
        let ft = allocs_flat(t);
        let x = if e.0.is_bitcoin() {
            Seq::<Allocation>::empty()
        } else {
            entry_allocs(e)
        };
        lemma_seq_set_concat(ft, x);
        lemma_unspent_entries_view(t);
        assert(forall|k: int| 0 <= k < t.len() ==> entry_view(t)[k].0 == t[k].0);
        assert(forall|k: int| 0 <= k < t.len() ==> t[k].0 != e.0);
        lemma_seq_map_not_contains(entry_view(t), e.0);
        let ut = unspent_of_entries(t);
        let us = unspent_of_entries(s);
        assert(us == ut.insert(e.0, seq_set(e.1@)));
        // Every allocation out of the older entries names an older key.
        assert forall|a: Allocation| seq_set(ft).contains(a) implies a.rgb_id != e.0 by {
            assert(allocation_set(ut).contains(a));
            assert(ut.contains_key(a.rgb_id));
        }
        // Every allocation out of the last entry names the last key.
        assert forall|a: Allocation| seq_set(x).contains(a) implies a.rgb_id == e.0
            && !e.0.is_bitcoin() && seq_set(e.1@).contains(
            Utxo { outpoint: a.outpoint, amount: a.amount },
        ) by {
            lemma_seq_set_contains(x, a);
            let k = choose|k: int| 0 <= k < x.len() && x[k] == a;
            lemma_seq_set_contains(e.1@, e.1@[k]);
            assert(e.1@[k] == Utxo { outpoint: a.outpoint, amount: a.amount });
        }
        assert(elems_unique(allocs_flat(s))) by {
            assert(elems_unique(x)) by {
                if !e.0.is_bitcoin() {
                    assert forall|k1: int, k2: int| 0 <= k1 < k2 < x.len() implies x[k1]
                        != x[k2] by {
                        assert(e.1@[k1] != e.1@[k2]);
                        assert(x[k1].outpoint == e.1@[k1].outpoint && x[k1].amount == e.1@[
                            k1
                        ].amount);
                    }
                }
            }
            assert forall|k1: int, k2: int|
                0 <= k1 < k2 < allocs_flat(s).len() implies allocs_flat(s)[k1] != allocs_flat(
                s,
            )[k2] by {
                if k1 < ft.len() && k2 >= ft.len() {
                    lemma_seq_set_contains(ft, ft[k1]);
                    lemma_seq_set_contains(x, x[k2 - ft.len()]);
                    assert(allocs_flat(s)[k1] == ft[k1]);
                    assert(allocs_flat(s)[k2] == x[k2 - ft.len()]);
                } else if k2 < ft.len() {
                    assert(allocs_flat(s)[k1] == ft[k1] && allocs_flat(s)[k2] == ft[k2]);
                } else {
                    assert(allocs_flat(s)[k1] == x[k1 - ft.len()] && allocs_flat(s)[k2] == x[k2
                        - ft.len()]);
                }
            }
        }
        assert(seq_set(allocs_flat(s)) =~= allocation_set(us)) by {
            assert forall|a: Allocation| seq_set(allocs_flat(s)).contains(a)
                <==> allocation_set(us).contains(a) by {
                lemma_seq_set_contains(x, a);
                lemma_seq_set_contains(e.1@, Utxo { outpoint: a.outpoint, amount: a.amount });
                if a.rgb_id == e.0 {
                    if allocation_set(us).contains(a) {
                        let u = Utxo { outpoint: a.outpoint, amount: a.amount };
                        let k = choose|k: int| 0 <= k < e.1@.len() && e.1@[k] == u;
                        assert(x[k] == a);
                    }
                } else {
                    assert(us.contains_key(a.rgb_id) == ut.contains_key(a.rgb_id));
                }
            }
        }
    }
}

impl FileDriver {
    /// Index of the contract's record, with its map reading established.
    fn contract_index(&self, contract_id: ContractId) -> (r: Option<usize>)
        requires
            self.cache.wf(),
        ensures
            match r {
                Some(i) => {
                    &&& i < self.cache.descriptors@.len()
                    &&& self.cache.descriptors@[i as int].0 == contract_id
                    &&& self.cache.has_contract(contract_id)
                    &&& self.cache.descriptors_map()[contract_id] == self.cache.descriptors@[
                        i as int
                    ].1
                    &&& self.cache.descriptors@[i as int].1.wf()
                },
                None => {
                    &&& !self.cache.has_contract(contract_id)
                    &&& forall|j: int|
                        0 <= j < self.cache.descriptors@.len()
                            ==> self.cache.descriptors@[j].0 != contract_id
                },
            },
    {
        match find_cid(&self.cache.descriptors, contract_id) {
            Some(i) => {
                proof {
                    lemma_seq_map_index(self.cache.descriptors@, i as int);
                }
                Some(i)
            },
            None => {
                proof {
                    lemma_seq_map_not_contains(self.cache.descriptors@, contract_id);
                }
                None
            },
        }
    }
}

impl Driver for FileDriver {
    open spec fn wf(&self) -> bool {
        self.cache.wf()
    }

    open spec fn known_contracts(&self) -> Set<ContractId> {
        self.cache.descriptors_map().dom()
    }

    open spec fn mine_map(&self) -> Map<(u32, u16), Txid> {
        self.cache.mine_map()
    }

    open spec fn updated_height_of(&self, contract_id: ContractId) -> u32 {
        self.cache.updated_height_of(contract_id)
    }

    open spec fn deriv_map_of(&self, contract_id: ContractId) -> Map<Address, UnhardenedIndex> {
        self.cache.deriv_map_of(contract_id)
    }

    open spec fn utxo_set_of(&self, contract_id: ContractId) -> Set<OutPoint> {
        self.cache.utxo_set_of(contract_id)
    }

    open spec fn unspent_map_of(&self, contract_id: ContractId) -> Map<RgbContractId, Set<Utxo>> {
        self.cache.unspent_map_of(contract_id)
    }

    proof fn lemma_default_on_miss(&self, contract_id: ContractId) {
        assert(!self.cache.has_contract(contract_id));
        assert(self.cache.deriv_seq_of(contract_id) =~= Seq::<(Address, UnhardenedIndex)>::empty());
        assert(self.cache.deriv_map_of(contract_id) =~= Map::<Address, UnhardenedIndex>::empty());
        assert(self.cache.unspent_seq_of(contract_id) =~= Seq::<
            (RgbContractId, Vec<Utxo>),
        >::empty());
        assert(self.cache.unspent_map_of(contract_id) =~= Map::<RgbContractId, Set<Utxo>>::empty());
        assert(self.cache.utxo_set_of(contract_id) =~= Set::<OutPoint>::empty());
    }

    proof fn lemma_wf_derivations(&self, contract_id: ContractId) {
        let s = self.cache.deriv_seq_of(contract_id);
        if self.cache.has_contract(contract_id) {
            lemma_seq_map_domain(self.cache.descriptors@, contract_id);
            let i = choose|i: int|
                0 <= i < self.cache.descriptors@.len() && self.cache.descriptors@[i].0
                    == contract_id;
            lemma_seq_map_index(self.cache.descriptors@, i);
            lemma_seq_map_len(s);
            assert forall|a: Address| self.cache.deriv_map_of(contract_id).contains_key(a) implies (
            #[trigger] self.cache.deriv_map_of(contract_id)[a]).wf() by {
                lemma_seq_map_domain(s, a);
                let k = choose|k: int| 0 <= k < s.len() && s[k].0 == a;
                lemma_seq_map_index(s, k);
            }
        } else {
            assert(s =~= Seq::<(Address, UnhardenedIndex)>::empty());
            lemma_seq_map_len(s);
        }
    }

    fn blockpos_to_txid(&self, height: u32, offset: u16) -> (r: Option<Txid>) {
        let mut i: usize = 0;
        while i < self.cache.mine_info.len()
            invariant
                i <= self.cache.mine_info@.len(),
                keys_unique(self.cache.mine_info@),
                forall|j: int| 0 <= j < i ==> self.cache.mine_info@[j].0 != (height, offset),
            decreases self.cache.mine_info@.len() - i,
        {
            let e = self.cache.mine_info[i];
            if e.0.0 == height && e.0.1 == offset {
                proof {
                    assert(self.cache.mine_info@[i as int].0 == (height, offset));
                    lemma_seq_map_index(self.cache.mine_info@, i as int);
                }
                return Some(e.1);
            }
            i += 1;
        }
        proof {
            lemma_seq_map_not_contains(self.cache.mine_info@, (height, offset));
        }
        None
    }

    fn unspent(&self, contract_id: ContractId) -> (r: Result<Vec<(RgbContractId, Vec<Utxo>)>, Error>)
        ensures
            r is Ok,
    {
        match self.contract_index(contract_id) {
            Some(i) => {
                let v = copy_unspent(&self.cache.descriptors[i].1.unspent);
                proof {
                    let s = self.cache.unspent_seq_of(contract_id);
                    assert(entry_view(v@) =~= entry_view(s));
                    lemma_unspent_entries_view(v@);
                    lemma_unspent_entries_view(s);
                    assert(keys_unique(v@)) by {
                        assert(forall|x: int| 0 <= x < v@.len() ==> (#[trigger] v@[x]).0 == s[x].0);
                    }
                }
                Ok(v)
            },
            None => {
                proof {
                    let s = self.cache.unspent_seq_of(contract_id);
                    assert(s =~= Seq::<(RgbContractId, Vec<Utxo>)>::empty());
                    let v: Seq<(RgbContractId, Vec<Utxo>)> = Seq::empty();
                    assert(unspent_of_entries(v) =~= unspent_of_entries(s));
                }
                Ok(Vec::new())
            },
        }
    }

    fn unspent_bitcoin_only(&self, contract_id: ContractId) -> (r: Result<Vec<Utxo>, Error>)
        ensures
            r is Ok,
    {
        let zero = RgbContractId { id: 0 };
        match self.contract_index(contract_id) {
            Some(i) => {
                let ghost s = self.cache.unspent_seq_of(contract_id);
                proof {
                    lemma_unspent_entries_view(s);
                    assert(keys_unique(entry_view(s))) by {
                        assert(forall|x: int|
                            0 <= x < s.len() ==> entry_view(s)[x].0 == (#[trigger] s[x]).0);
                    }
                }
                match find_rgb(&self.cache.descriptors[i].1.unspent, zero) {
                    Some(j) => {
                        let v = copy_utxos(&self.cache.descriptors[i].1.unspent[j].1);
                        proof {
                            assert(entry_view(s)[j as int].0 == zero);
                            lemma_seq_map_index(entry_view(s), j as int);
                            assert(entry_view(s)[j as int].1 == seq_set(s[j as int].1@));
                        }
                        Ok(v)
                    },
                    None => {
                        proof {
                            assert(forall|x: int|
                                0 <= x < s.len() ==> entry_view(s)[x].0 != zero);
                            lemma_seq_map_not_contains(entry_view(s), zero);
                            assert(seq_set(Seq::<Utxo>::empty()) =~= Set::<Utxo>::empty());
                        }
                        Ok(Vec::new())
                    },
                }
            },
            None => {
                proof {
                    let s = self.cache.unspent_seq_of(contract_id);
                    assert(s =~= Seq::<(RgbContractId, Vec<Utxo>)>::empty());
                    assert(!self.cache.unspent_map_of(contract_id).contains_key(zero));
                    assert(seq_set(Seq::<Utxo>::empty()) =~= Set::<Utxo>::empty());
                }
                Ok(Vec::new())
            },
        }
    }

    fn allocations(&self, contract_id: ContractId) -> (r: Result<Allocations, Error>)
        ensures
            r is Ok,
    {
        match self.contract_index(contract_id) {
            Some(i) => {
                let entries = &self.cache.descriptors[i].1.unspent;
                let ghost s = entries@;
                let mut list: Vec<Allocation> = Vec::new();
                let mut k: usize = 0;
                proof {
                    assert(s.take(0) =~= Seq::<(RgbContractId, Vec<Utxo>)>::empty());
                }
                while k < entries.len()
                    invariant
                        k <= s.len(),
                        entries@ == s,
                        list@ == allocs_flat(s.take(k as int)),
                    decreases s.len() - k,
                {
                    proof {
                        assert(s.take(k as int + 1).drop_last() =~= s.take(k as int));
                        assert(s.take(k as int + 1).last() == s[k as int]);
                    }
                    let key = entries[k].0;
                    if key.id != 0 {
                        let inner = &entries[k].1;
                        let mut t: usize = 0;
                        proof {
                            assert(allocs_flat(s.take(k as int)) + entry_allocs(
                                s[k as int],
                            ).subrange(0, 0) =~= allocs_flat(s.take(k as int)));
                        }
                        while t < inner.len()
                            invariant
                                t <= inner@.len(),
                                k < s.len(),
                                entries@ == s,
                                inner@ == s[k as int].1@,
                                key == s[k as int].0,
                                list@ == allocs_flat(s.take(k as int)) + entry_allocs(
                                    s[k as int],
                                ).subrange(0, t as int),
                            decreases inner@.len() - t,
                        {
                            let u = inner[t];
                            let ghost l0 = list@;
                            list.push(Allocation { rgb_id: key, outpoint: u.outpoint, amount: u.amount });
                            proof {
                                let ea = entry_allocs(s[k as int]);
                                assert(ea[t as int] == Allocation {
                                    rgb_id: key,
                                    outpoint: u.outpoint,
                                    amount: u.amount,
                                });
                                assert(ea.subrange(0, t as int + 1) =~= ea.subrange(
                                    0,
                                    t as int,
                                ).push(ea[t as int]));
                                assert(list@ =~= allocs_flat(s.take(k as int)) + ea.subrange(
                                    0,
                                    t as int + 1,
                                ));
                            }
                            t += 1;
                        }
                        proof {
                            let ea = entry_allocs(s[k as int]);
                            assert(ea.subrange(0, inner@.len() as int) =~= ea);
                            assert(!s[k as int].0.is_bitcoin());
                            assert(allocs_flat(s.take(k as int + 1)) == allocs_flat(
                                s.take(k as int),
                            ) + ea);
                        }
                    } else {
                        proof {
                            assert(s[k as int].0.is_bitcoin());
                            assert(allocs_flat(s.take(k as int + 1)) == allocs_flat(
                                s.take(k as int),
                            ) + Seq::<Allocation>::empty());
                            assert(allocs_flat(s.take(k as int)) + Seq::<Allocation>::empty()
                                =~= allocs_flat(s.take(k as int)));
                        }
                    }
                    k += 1;
                }
                proof {
                    assert(s.take(s.len() as int) =~= s);
                    lemma_allocs_flat(s);
                }
                Ok(Allocations { list })
            },
            None => {
                proof {
                    let s = self.cache.unspent_seq_of(contract_id);
                    assert(s =~= Seq::<(RgbContractId, Vec<Utxo>)>::empty());
                    assert(seq_set(Seq::<Allocation>::empty()) =~= Set::<Allocation>::empty());
                    assert(allocation_set(unspent_of_entries(s)) =~= Set::<Allocation>::empty());
                }
                Ok(Allocations { list: Vec::new() })
            },
        }
    }

    fn utxo(&self, contract_id: ContractId) -> (r: Result<Vec<OutPoint>, Error>)
        ensures
            r is Ok,
    {
        match self.contract_index(contract_id) {
            Some(i) => {
                let v = copy_outpoints(&self.cache.descriptors[i].1.utxo);
                Ok(v)
            },
            None => {
                proof {
                    assert(seq_set(Seq::<OutPoint>::empty()) =~= Set::<OutPoint>::empty());
                }
                Ok(Vec::new())
            },
        }
    }

    fn update(
        &mut self,
        contract_id: ContractId,
        mine_info: Vec<((u32, u16), Txid)>,
        updated_height: Option<u32>,
        utxo: Vec<OutPoint>,
        unspent: Vec<(RgbContractId, Vec<Utxo>)>,
    ) -> (r: Result<(), Error>)
        ensures
            r is Ok,
            final(self).config == old(self).config,
            final(self).cache.known_height == old(self).cache.known_height,
            final(self).cache.block_info@ == old(self).cache.block_info@,
            final(self).cache.tx_cache@ == old(self).cache.tx_cache@,
    {
        merge_mine(&mut self.cache.mine_info, &mine_info);
        let new_utxo = dedup_outpoints(&utxo);
        let new_unspent = fold_unspent(&unspent);
        let ghost d0 = self.cache.descriptors@;
        match find_cid(&self.cache.descriptors, contract_id) {
            Some(i) => {
                proof {
                    lemma_seq_map_index(d0, i as int);
                }
                let pair = self.cache.descriptors.remove(i);
                let mut cc = pair.1;
                match updated_height {
                    Some(h) => {
                        cc.updated_height = h;
                    },
                    None => {},
                }
                cc.utxo = new_utxo;
                cc.unspent = new_unspent;
                let ghost ccv = cc;
                self.cache.descriptors.push((contract_id, cc));
                proof {
                    lemma_seq_map_replace(d0, i as int, ccv);
                    assert(self.cache.descriptors@ =~= d0.remove(i as int).push(
                        (d0[i as int].0, ccv),
                    ));
                    assert(forall|x: int|
                        0 <= x < self.cache.descriptors@.len() - 1
                            ==> self.cache.descriptors@[x] == (if x < i {
                            d0[x]
                        } else {
                            d0[x + 1]
                        }));
                    assert(self.cache.descriptors@[self.cache.descriptors@.len() - 1].1 == ccv);
                    assert(self.cache.descriptors_map().dom() =~= seq_map(d0).dom().insert(
                        contract_id,
                    ));
                }
                Ok(())
            },
            None => {
                proof {
                    lemma_seq_map_not_contains(d0, contract_id);
                }
                let mut cc = ContractCache::empty();
                match updated_height {
                    Some(h) => {
                        cc.updated_height = h;
                    },
                    None => {},
                }
                cc.utxo = new_utxo;
                cc.unspent = new_unspent;
                let ghost ccv = cc;
                self.cache.descriptors.push((contract_id, cc));
                proof {
                    lemma_seq_map_add(d0, contract_id, ccv);
                    assert(forall|x: int|
                        0 <= x < self.cache.descriptors@.len() - 1
                            ==> self.cache.descriptors@[x] == d0[x]);
                    assert(self.cache.descriptors@[self.cache.descriptors@.len() - 1].1 == ccv);
                    assert(self.cache.descriptors_map().dom() =~= seq_map(d0).dom().insert(
                        contract_id,
                    ));
                    assert(ccv.used_address_derivations@ =~= Seq::<
                        (Address, UnhardenedIndex),
                    >::empty());
                    assert(old(self).cache.deriv_seq_of(contract_id) =~= Seq::<
                        (Address, UnhardenedIndex),
                    >::empty());
                }
                Ok(())
            },
        }
    }

    fn used_address_derivations(&self, contract_id: ContractId) -> (r: Result<
        Vec<(Address, UnhardenedIndex)>,
        Error,
    >)
        ensures
            r is Ok,
    {
        match self.contract_index(contract_id) {
            Some(i) => {
                let v = copy_derivs(&self.cache.descriptors[i].1.used_address_derivations);
                Ok(v)
            },
            None => {
                proof {
                    let s = self.cache.deriv_seq_of(contract_id);
                    assert(s =~= Seq::<(Address, UnhardenedIndex)>::empty());
                }
                Ok(Vec::new())
            },
        }
    }

    fn used_addresses(&self, contract_id: ContractId) -> (r: Result<Vec<Address>, Error>)
        ensures
            r is Ok,
    {
        match self.contract_index(contract_id) {
            Some(i) => {
                let s = &self.cache.descriptors[i].1.used_address_derivations;
                let ghost sv = s@;
                let mut v: Vec<Address> = Vec::new();
                let mut j: usize = 0;
                while j < s.len()
                    invariant
                        j <= sv.len(),
                        s@ == sv,
                        v@.len() == j,
                        forall|k: int| 0 <= k < j ==> v@[k] == sv[k].0,
                    decreases sv.len() - j,
                {
                    v.push(s[j].0);
                    j += 1;
                }
                proof {
                    assert(elems_unique(v@)) by {
                        assert(forall|a: int, b: int|
                            0 <= a < b < v@.len() ==> sv[a].0 != sv[b].0);
                    }
                    assert(seq_set(v@) =~= seq_map(sv).dom()) by {
                        assert forall|a: Address|
                            seq_set(v@).contains(a) <==> seq_map(sv).dom().contains(a) by {
                            lemma_seq_set_contains(v@, a);
                            lemma_seq_map_domain(sv, a);
                            if exists|k: int| 0 <= k < v@.len() && v@[k] == a {
                                let k = choose|k: int| 0 <= k < v@.len() && v@[k] == a;
                                assert(sv[k].0 == a);
                            }
                            if exists|k: int| 0 <= k < sv.len() && sv[k].0 == a {
                                let k = choose|k: int| 0 <= k < sv.len() && sv[k].0 == a;
                                assert(v@[k] == a);
                            }
                        }
                    }
                }
                Ok(v)
            },
            None => {
                proof {
                    let s = self.cache.deriv_seq_of(contract_id);
                    assert(s =~= Seq::<(Address, UnhardenedIndex)>::empty());
                    assert(seq_set(Seq::<Address>::empty()) =~= seq_map(s).dom());
                }
                Ok(Vec::new())
            },
        }
    }

    fn used_derivations(&self, contract_id: ContractId) -> (r: Result<Vec<UnhardenedIndex>, Error>)
        ensures
            r is Ok,
    {
        match self.contract_index(contract_id) {
            Some(i) => {
                let s = &self.cache.descriptors[i].1.used_address_derivations;
                let ghost sv = s@;
                let ghost vals = Seq::new(sv.len(), |k: int| sv[k].1);
                let mut v: Vec<UnhardenedIndex> = Vec::new();
                let mut j: usize = 0;
                proof {
                    assert(seq_set(vals.take(0)) =~= seq_set(Seq::<UnhardenedIndex>::empty()));
                }
                while j < s.len()
                    invariant
                        j <= sv.len(),
                        s@ == sv,
                        vals == Seq::new(sv.len(), |k: int| sv[k].1),
                        elems_unique(v@),
                        seq_set(v@) == seq_set(vals.take(j as int)),
                    decreases sv.len() - j,
                {
                    let x = s[j].1;
                    let dup = contains_uidx(&v, x);
                    proof {
                        lemma_seq_set_contains(v@, x);
                        assert(vals.take(j as int + 1) =~= vals.take(j as int).push(x));
                        lemma_seq_set_push(vals.take(j as int), x);
                    }
                    if !dup {
                        let ghost v0 = v@;
                        v.push(x);
                        proof {
                            lemma_seq_set_push(v0, x);
                            assert(elems_unique(v@)) by {
                                assert(forall|k: int| 0 <= k < v0.len() ==> v@[k] == v0[k]);
                                assert(v@[v0.len() as int] == x);
                            }
                        }
                    } else {
                        proof {
                            assert(seq_set(v@).insert(x) =~= seq_set(v@));
                        }
                    }
                    j += 1;
                }
                proof {
                    assert(vals.take(vals.len() as int) =~= vals);
                    assert(seq_set(vals) =~= seq_map(sv).values()) by {
                        assert forall|x: UnhardenedIndex|
                            seq_set(vals).contains(x) <==> seq_map(sv).values().contains(x) by {
                            lemma_seq_set_contains(vals, x);
                            if exists|k: int| 0 <= k < vals.len() && vals[k] == x {
                                let k = choose|k: int| 0 <= k < vals.len() && vals[k] == x;
                                lemma_seq_map_index(sv, k);
                                assert(seq_map(sv).contains_key(sv[k].0) && seq_map(sv)[sv[k].0]
                                    == x);
                                assert(seq_map(sv).contains_value(x));
                            }
                            if seq_map(sv).values().contains(x) {
                                let a = choose|a: Address|
                                    #[trigger] seq_map(sv).contains_key(a) && seq_map(sv)[a] == x;
                                lemma_seq_map_domain(sv, a);
                                let k = choose|k: int| 0 <= k < sv.len() && sv[k].0 == a;
                                lemma_seq_map_index(sv, k);
                                assert(vals[k] == x);
                            }
                        }
                    }
                }
                Ok(v)
            },
            None => {
                proof {
                    let s = self.cache.deriv_seq_of(contract_id);
                    assert(s =~= Seq::<(Address, UnhardenedIndex)>::empty());
                    assert(seq_set(Seq::<UnhardenedIndex>::empty()) =~= seq_map(s).values()) by {
                        assert forall|x: UnhardenedIndex|
                            !seq_map(s).values().contains(x) by {
                            if seq_map(s).contains_value(x) {
                                let a = choose|a: Address|
                                    #[trigger] seq_map(s).contains_key(a) && seq_map(s)[a] == x;
                                lemma_seq_map_domain(s, a);
                            }
                        }
                    }
                }
                Ok(Vec::new())
            },
        }
    }

    fn next_unused_derivation(&self, contract_id: ContractId) -> (r: Result<UnhardenedIndex, Error>) {
        match self.contract_index(contract_id) {
            Some(ci) => {
                let derivs = &self.cache.descriptors[ci].1.used_address_derivations;
                let ghost s = derivs@;
                let ghost vals = Seq::new(s.len(), |k: int| s[k].1.index);
                proof {
                    lemma_free_value_below(vals, s.len() as int + 1);
                }
                let ghost g = choose|g: int|
                    0 <= g < s.len() + 1 && !int_set_of(vals).contains(g);
                proof {
                    assert(g as u32 as int == g);
                    lemma_int_set_contains(vals, g as u32);
                    assert(!(exists|k: int| 0 <= k < s.len() && s[k].1.index == g as u32)) by {
                        if exists|k: int| 0 <= k < s.len() && s[k].1.index == g as u32 {
                            let k = choose|k: int| 0 <= k < s.len() && s[k].1.index == g as u32;
                            assert(vals[k] == g as u32);
                        }
                    }
                }
                let mut i: u32 = 0;
                while contains_index(derivs, i)
                    invariant
                        derivs@ == s,
                        keys_unique(s),
                        vals == Seq::new(s.len(), |k: int| s[k].1.index),
                        0 <= g < s.len() + 1,
                        s.len() <= 0x7FFF_FFFF,
                        !(exists|k: int| 0 <= k < s.len() && s[k].1.index == g as u32),
                        g as u32 as int == g,
                        i as int <= g,
                        forall|j: u32| j < i ==> index_used(seq_map(s), j),
                    decreases g - i,
                {
                    proof {
                        lemma_int_set_contains(vals, i);
                        assert(int_set_of(vals).contains(i as int)) by {
                            let k = choose|k: int| 0 <= k < s.len() && s[k].1.index == i;
                            assert(vals[k] == i);
                        }
                        assert(i as int != g);
                        lemma_index_used_iff(s, i);
                    }
                    i += 1;
                }
                proof {
                    lemma_index_used_iff(s, i);
                }
                Ok(UnhardenedIndex { index: i })
            },
            None => {
                proof {
                    let s = self.cache.deriv_seq_of(contract_id);
                    assert(s =~= Seq::<(Address, UnhardenedIndex)>::empty());
                    let m = self.cache.deriv_map_of(contract_id);
                    assert(!index_used(m, 0)) by {
                        if index_used(m, 0) {
                            let a = choose|a: Address| m.contains_key(a) && m[a].index == 0;
                            lemma_seq_map_domain(s, a);
                        }
                    }
                }
                Ok(UnhardenedIndex { index: 0 })
            },
        }
    }

    fn use_address_derivation(
        &mut self,
        contract_id: ContractId,
        address: Address,
        path: UnhardenedIndex,
    ) -> (r: Result<bool, Error>)
        ensures
            final(self).config == old(self).config,
            final(self).cache.known_height == old(self).cache.known_height,
            final(self).cache.block_info@ == old(self).cache.block_info@,
            final(self).cache.mine_info@ == old(self).cache.mine_info@,
            final(self).cache.tx_cache@ == old(self).cache.tx_cache@,
    {
        let ghost d0 = self.cache.descriptors@;
        match self.contract_index(contract_id) {
            Some(i) => {
                let ghost s = self.cache.descriptors@[i as int].1.used_address_derivations@;
                proof {
                    lemma_seq_map_len(s);
                }
                match find_deriv(&self.cache.descriptors[i].1.used_address_derivations, address) {
                    Some(jj) => {
                        proof {
                            lemma_seq_map_index(s, jj as int);
                            assert(self.cache.descriptors_map().dom() =~= self.cache.descriptors_map().dom().insert(contract_id));
                        }
                        let existing = self.cache.descriptors[i].1.used_address_derivations[jj].1;
                        if existing.index == path.index {
                            proof {
                                assert(existing == path);
                            }
                            Ok(false)
                        } else {
                            proof {
                                assert(existing != path);
                            }
                            Err(Error::BindingConflict)
                        }
                    },
                    None => {
                        proof {
                            lemma_seq_map_not_contains(s, address);
                        }
                        let pair = self.cache.descriptors.remove(i);
                        let mut cc = pair.1;
                        cc.used_address_derivations.push((address, path));
                        let ghost ccv = cc;
                        self.cache.descriptors.push((contract_id, cc));
                        proof {
                            lemma_seq_map_add(s, address, path);
                            lemma_seq_map_replace(d0, i as int, ccv);
                            assert(self.cache.descriptors@ =~= d0.remove(i as int).push(
                                (d0[i as int].0, ccv),
                            ));
                            assert(forall|x: int|
                                0 <= x < self.cache.descriptors@.len() - 1
                                    ==> self.cache.descriptors@[x] == (if x < i {
                                    d0[x]
                                } else {
                                    d0[x + 1]
                                }));
                            assert(self.cache.descriptors@[self.cache.descriptors@.len() - 1].1
                                == ccv);
                            assert(ccv.wf()) by {
                                assert(forall|k: int|
                                    0 <= k < s.len() ==> ccv.used_address_derivations@[k] == s[k]);
                                assert(ccv.used_address_derivations@[s.len() as int] == (
                                    address,
                                    path,
                                ));
                            }
                            assert(self.cache.descriptors_map().dom() =~= seq_map(d0).dom().insert(
                                contract_id,
                            ));
                        }
                        Ok(true)
                    },
                }
            },
            None => {
                let mut cc = ContractCache::empty();
                cc.used_address_derivations.push((address, path));
                let ghost ccv = cc;
                self.cache.descriptors.push((contract_id, cc));
                proof {
                    let empty_s = Seq::<(Address, UnhardenedIndex)>::empty();
                    assert(old(self).cache.deriv_seq_of(contract_id) =~= empty_s);
                    lemma_seq_map_push(empty_s, address, path);
                    assert(ccv.used_address_derivations@ =~= empty_s.push((address, path)));
                    lemma_seq_map_add(d0, contract_id, ccv);
                    assert(forall|x: int|
                        0 <= x < self.cache.descriptors@.len() - 1
                            ==> self.cache.descriptors@[x] == d0[x]);
                    assert(self.cache.descriptors@[self.cache.descriptors@.len() - 1].1 == ccv);
                    assert(ccv.wf()) by {
                        assert(ccv.used_address_derivations@.len() == 1);
                    }
                    assert(self.cache.descriptors_map().dom() =~= seq_map(d0).dom().insert(
                        contract_id,
                    ));
                    assert(!seq_map(empty_s).contains_key(address));
                }
                Ok(true)
            },
        }
    }

    fn last_used_derivation(&self, contract_id: ContractId) -> (r: Option<UnhardenedIndex>) {
        match self.contract_index(contract_id) {
            Some(ci) => {
                let derivs = &self.cache.descriptors[ci].1.used_address_derivations;
                let ghost s = derivs@;
                if derivs.len() == 0 {
                    proof {
                        assert(s =~= Seq::<(Address, UnhardenedIndex)>::empty());
                        assert(self.cache.deriv_map_of(contract_id) =~= Map::<
                            Address,
                            UnhardenedIndex,
                        >::empty());
                    }
                    None
                } else {
                    let mut best: u32 = derivs[0].1.index;
                    let mut j: usize = 1;
                    while j < derivs.len()
                        invariant
                            1 <= j <= s.len(),
                            derivs@ == s,
                            exists|k: int| 0 <= k < s.len() && s[k].1.index == best,
                            forall|k: int| 0 <= k < j ==> s[k].1.index <= best,
                        decreases s.len() - j,
                    {
                        let x = derivs[j].1.index;
                        if x > best {
                            best = x;
                        }
                        j += 1;
                    }
                    proof {
                        let m = self.cache.deriv_map_of(contract_id);
                        lemma_index_used_iff(s, best);
                        assert forall|jj: u32| index_used(m, jj) implies jj <= best by {
                            lemma_index_used_iff(s, jj);
                        }
                    }
                    Some(UnhardenedIndex { index: best })
                }
            },
            None => {
                proof {
                    assert(self.cache.deriv_seq_of(contract_id) =~= Seq::<
                        (Address, UnhardenedIndex),
                    >::empty());
                    assert(self.cache.deriv_map_of(contract_id) =~= Map::<
                        Address,
                        UnhardenedIndex,
                    >::empty());
                }
                None
            },
        }
    }

    fn forget_address(&mut self, contract_id: ContractId, address: &Address) -> (r: Result<
        bool,
        Error,
    >)
        ensures
            r is Ok,
            final(self).config == old(self).config,
            final(self).cache.known_height == old(self).cache.known_height,
            final(self).cache.block_info@ == old(self).cache.block_info@,
            final(self).cache.mine_info@ == old(self).cache.mine_info@,
            final(self).cache.tx_cache@ == old(self).cache.tx_cache@,
    {
        let ghost d0 = self.cache.descriptors@;
        match self.contract_index(contract_id) {
            Some(i) => {
                let ghost s = self.cache.descriptors@[i as int].1.used_address_derivations@;
                match find_deriv(&self.cache.descriptors[i].1.used_address_derivations, *address) {
                    Some(jj) => {
                        proof {
                            lemma_seq_map_index(s, jj as int);
                        }
                        let pair = self.cache.descriptors.remove(i);
                        let mut cc = pair.1;
                        let _removed = cc.used_address_derivations.remove(jj);
                        let ghost ccv = cc;
                        self.cache.descriptors.push((contract_id, cc));
                        proof {
                            lemma_seq_map_remove(s, jj as int);
                            lemma_seq_map_replace(d0, i as int, ccv);
                            assert(self.cache.descriptors@ =~= d0.remove(i as int).push(
                                (d0[i as int].0, ccv),
                            ));
                            assert(forall|x: int|
                                0 <= x < self.cache.descriptors@.len() - 1
                                    ==> self.cache.descriptors@[x] == (if x < i {
                                    d0[x]
                                } else {
                                    d0[x + 1]
                                }));
                            assert(self.cache.descriptors@[self.cache.descriptors@.len() - 1].1
                                == ccv);
                            assert(ccv.wf()) by {
                                assert(ccv.used_address_derivations@ == s.remove(jj as int));
                                assert(forall|x: int|
                                    0 <= x < ccv.used_address_derivations@.len()
                                        ==> ccv.used_address_derivations@[x] == (if x < jj {
                                        s[x]
                                    } else {
                                        s[x + 1]
                                    }));
                            }
                            assert(self.cache.descriptors_map().dom() =~= seq_map(d0).dom().insert(
                                contract_id,
                            ));
                        }
                        Ok(true)
                    },
                    None => {
                        proof {
                            lemma_seq_map_not_contains(s, *address);
                            assert(self.cache.descriptors_map().dom() =~= self.cache.descriptors_map().dom().insert(contract_id));
                        }
                        Ok(false)
                    },
                }
            },
            None => {
                let cc = ContractCache::empty();
                let ghost ccv = cc;
                self.cache.descriptors.push((contract_id, cc));
                proof {
                    let empty_s = Seq::<(Address, UnhardenedIndex)>::empty();
                    assert(old(self).cache.deriv_seq_of(contract_id) =~= empty_s);
                    assert(ccv.used_address_derivations@ =~= empty_s);
                    lemma_seq_map_add(d0, contract_id, ccv);
                    assert(forall|x: int|
                        0 <= x < self.cache.descriptors@.len() - 1
                            ==> self.cache.descriptors@[x] == d0[x]);
                    assert(self.cache.descriptors@[self.cache.descriptors@.len() - 1].1 == ccv);
                    assert(self.cache.descriptors_map().dom() =~= seq_map(d0).dom().insert(
                        contract_id,
                    ));
                    assert(!seq_map(empty_s).contains_key(*address));
                }
                Ok(false)
            },
        }
    }

    fn address_derivation(&self, contract_id: ContractId, address: &Address) -> (r: Option<
        UnhardenedIndex,
    >) {
        match self.contract_index(contract_id) {
            Some(i) => {
                let ghost s = self.cache.descriptors@[i as int].1.used_address_derivations@;
                match find_deriv(&self.cache.descriptors[i].1.used_address_derivations, *address) {
                    Some(jj) => {
                        proof {
                            lemma_seq_map_index(s, jj as int);
                        }
                        Some(self.cache.descriptors[i].1.used_address_derivations[jj].1)
                    },
                    None => {
                        proof {
                            lemma_seq_map_not_contains(s, *address);
                        }
                        None
                    },
                }
            },
            None => {
                proof {
                    let s = self.cache.deriv_seq_of(contract_id);
                    assert(s =~= Seq::<(Address, UnhardenedIndex)>::empty());
                    lemma_seq_map_not_contains(s, *address);
                }
                None
            },
        }
    }
}

} // verus!
