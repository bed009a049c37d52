//! Whole-state binary codec with a proved round trip.
//!
//! The cache is flattened to a sequence of 64-bit words — every scalar
//! becomes one word, every collection its length followed by its items —
//! and the words are written in little-endian order.  Decoding parses the
//! words back; decoding what encoding produced returns the original
//! state, which is what makes the persistence engine's write-through
//! policy meaningful.

use vstd::prelude::*;

use crate::assoc::{elems_unique, keys_unique, lemma_keys_unique_congruent};
use crate::cache::file::model::{Cache, ContractCache};
use crate::cache::Error;
use crate::model::{
    Address, BlockHash, ContractId, OutPoint, RgbContractId, Transaction, Txid, UnhardenedIndex,
    Utxo,
};

verus! {

// ----- the mathematical shape of the persisted state -----

/// Per-contract state as pure sequences.
pub ghost struct CcView {
    pub updated_height: u32,
    pub derivs: Seq<(Address, UnhardenedIndex)>,
    pub utxo: Seq<OutPoint>,
    pub unspent: Seq<(RgbContractId, Seq<Utxo>)>,
}

/// The whole cache as pure sequences.
pub ghost struct CacheView {
    pub known_height: u32,
    pub descriptors: Seq<(ContractId, CcView)>,
    pub block_info: Seq<(BlockHash, u64)>,
    pub mine_info: Seq<((u32, u16), Txid)>,
    pub tx_cache: Seq<(Txid, Seq<u8>)>,
}

impl ContractCache {
    /// The record with every vector read as its sequence.
    pub open spec fn deep(self) -> CcView {
        CcView {
            updated_height: self.updated_height,
            derivs: self.used_address_derivations@,
            utxo: self.utxo@,
            unspent: Seq::new(self.unspent@.len(), |i: int| (self.unspent@[i].0, self.unspent@[i].1@)),
        }
    }
}

impl Cache {
    /// The aggregate with every vector read as its sequence.
    pub open spec fn deep(self) -> CacheView {
        CacheView {
            known_height: self.known_height,
            descriptors: Seq::new(
                self.descriptors@.len(),
                |i: int| (self.descriptors@[i].0, self.descriptors@[i].1.deep()),
            ),
            block_info: self.block_info@,
            mine_info: self.mine_info@,
            tx_cache: Seq::new(
                self.tx_cache@.len(),
                |i: int| (self.tx_cache@[i].0, self.tx_cache@[i].1.data@),
            ),
        }
    }
}

impl CcView {
    /// Every collection is small enough for its length to be one word.
    pub open spec fn bounded(self) -> bool {
        &&& self.derivs.len() <= 0xFFFF_FFFF_FFFF_FFFF
        &&& self.utxo.len() <= 0xFFFF_FFFF_FFFF_FFFF
        &&& self.unspent.len() <= 0xFFFF_FFFF_FFFF_FFFF
        &&& forall|i: int|
            0 <= i < self.unspent.len() ==> (#[trigger] self.unspent[i]).1.len()
                <= 0xFFFF_FFFF_FFFF_FFFF
    }
}

impl CacheView {
    /// Every collection is small enough for its length to be one word.
    pub open spec fn bounded(self) -> bool {
        &&& self.descriptors.len() <= 0xFFFF_FFFF_FFFF_FFFF
        &&& self.block_info.len() <= 0xFFFF_FFFF_FFFF_FFFF
        &&& self.mine_info.len() <= 0xFFFF_FFFF_FFFF_FFFF
        &&& self.tx_cache.len() <= 0xFFFF_FFFF_FFFF_FFFF
        &&& forall|i: int| 0 <= i < self.descriptors.len() ==> (#[trigger] self.descriptors[i]).1.bounded()
        &&& forall|i: int|
            0 <= i < self.tx_cache.len() ==> (#[trigger] self.tx_cache[i]).1.len()
                <= 0xFFFF_FFFF_FFFF_FFFF
    }
}

/// Structural invariant of a decoded state, matching [`Cache::wf`].
pub open spec fn view_wf(v: CacheView) -> bool {
    &&& keys_unique(v.descriptors)
    &&& forall|i: int| 0 <= i < v.descriptors.len() ==> cc_view_wf((#[trigger] v.descriptors[i]).1)
    &&& keys_unique(v.mine_info)
    &&& keys_unique(v.tx_cache)
}

/// Structural invariant of one decoded contract record, matching
/// [`ContractCache::wf`].
pub open spec fn cc_view_wf(v: CcView) -> bool {
    &&& keys_unique(v.derivs)
    &&& v.derivs.len() <= 0x7FFF_FFFF
    &&& forall|i: int| 0 <= i < v.derivs.len() ==> (#[trigger] v.derivs[i]).1.wf()
    &&& elems_unique(v.utxo)
    &&& keys_unique(v.unspent)
    &&& forall|i: int| 0 <= i < v.unspent.len() ==> elems_unique((#[trigger] v.unspent[i]).1)
}

/// The two invariants agree across the deep reading.
pub proof fn lemma_wf_deep(c: Cache)
    ensures
        c.wf() <==> view_wf(c.deep()),
{
    let v = c.deep();
    assert(v.descriptors.len() == c.descriptors@.len());
    assert(forall|i: int|
        0 <= i < v.descriptors.len() ==> (#[trigger] v.descriptors[i]).0 == c.descriptors@[i].0);
    assert(forall|i: int|
        0 <= i < v.tx_cache.len() ==> (#[trigger] v.tx_cache[i]).0 == c.tx_cache@[i].0);
    lemma_keys_unique_congruent(v.descriptors, c.descriptors@);
    lemma_keys_unique_congruent(v.tx_cache, c.tx_cache@);
    assert forall|i: int| 0 <= i < v.descriptors.len() implies (cc_view_wf(
        (#[trigger] v.descriptors[i]).1,
    ) <==> c.descriptors@[i].1.wf()) by {
        let cc = c.descriptors@[i].1;
        assert(v.descriptors[i] == (c.descriptors@[i].0, c.descriptors@[i].1.deep()));
        let cv = v.descriptors[i].1;
        assert(cv == cc.deep());
        assert(cv.derivs == cc.used_address_derivations@);
        assert(cv.utxo == cc.utxo@);
        assert(cv.unspent.len() == cc.unspent@.len());
        assert(forall|j: int|
            0 <= j < cv.unspent.len() ==> (#[trigger] cv.unspent[j]).0 == cc.unspent@[j].0
                && cv.unspent[j].1 == cc.unspent@[j].1@);
        lemma_keys_unique_congruent(cv.unspent, cc.unspent@);
        if cc_view_wf(cv) {
            assert forall|k: int|
                0 <= k < cc.used_address_derivations@.len() implies (#[trigger] cc.used_address_derivations@[k]).1.wf() by {
                assert(cv.derivs[k] == cc.used_address_derivations@[k]);
            }
            assert forall|k: int|
                0 <= k < cc.unspent@.len() implies elems_unique(
                (#[trigger] cc.unspent@[k]).1@,
            ) by {
                assert(cv.unspent[k].1 == cc.unspent@[k].1@);
                assert(elems_unique(cv.unspent[k].1));
            }
            assert(cc.wf());
        }
        if cc.wf() {
            assert forall|k: int| 0 <= k < cv.derivs.len() implies (#[trigger] cv.derivs[k]).1.wf() by {
                assert(cv.derivs[k] == cc.used_address_derivations@[k]);
            }
            assert forall|k: int| 0 <= k < cv.unspent.len() implies elems_unique(
                (#[trigger] cv.unspent[k]).1,
            ) by {
                assert(cv.unspent[k].1 == cc.unspent@[k].1@);
                assert(elems_unique(cc.unspent@[k].1@));
            }
            assert(cc_view_wf(cv));
        }
    }
    if view_wf(v) {
        assert forall|i: int| 0 <= i < c.descriptors@.len() implies (#[trigger] c.descriptors@[
            i
        ]).1.wf() by {
            assert(cc_view_wf(v.descriptors[i].1));
        }
        assert(c.wf());
    }
    if c.wf() {
        assert forall|i: int| 0 <= i < v.descriptors.len() implies cc_view_wf(
            (#[trigger] v.descriptors[i]).1,
        ) by {
            assert(c.descriptors@[i].1.wf());
        }
        assert(view_wf(v));
    }
}

// ----- words and bytes -----

/// The eight bytes of a 64-bit word, least significant first.
pub open spec fn le8(w: u64) -> Seq<u8> {
    seq![
        w as u8,
        (w >> 8) as u8,
        (w >> 16) as u8,
        (w >> 24) as u8,
        (w >> 32) as u8,
        (w >> 40) as u8,
        (w >> 48) as u8,
        (w >> 56) as u8,
    ]
}

/// The word whose little-endian bytes are the eight arguments.
pub open spec fn combine8(
    b0: u8,
    b1: u8,
    b2: u8,
    b3: u8,
    b4: u8,
    b5: u8,
    b6: u8,
    b7: u8,
) -> u64 {
    (b0 as u64) | (b1 as u64) << 8 | (b2 as u64) << 16 | (b3 as u64) << 24 | (b4 as u64) << 32 | (
    b5 as u64) << 40 | (b6 as u64) << 48 | (b7 as u64) << 56
}

pub proof fn lemma_combine_le8(w: u64)
    ensures
        combine8(
            w as u8,
            (w >> 8) as u8,
            (w >> 16) as u8,
            (w >> 24) as u8,
            (w >> 32) as u8,
            (w >> 40) as u8,
            (w >> 48) as u8,
            (w >> 56) as u8,
        ) == w,
{
    assert((w as u8 as u64) | ((w >> 8) as u8 as u64) << 8 | ((w >> 16) as u8 as u64) << 16 | ((w
        >> 24) as u8 as u64) << 24 | ((w >> 32) as u8 as u64) << 32 | ((w >> 40) as u8 as u64)
        << 40 | ((w >> 48) as u8 as u64) << 48 | ((w >> 56) as u8 as u64) << 56 == w) by (bit_vector);
}

/// Each word of a sequence written as its eight bytes.
pub open spec fn bytes_of(ws: Seq<u64>) -> Seq<u8>
    decreases ws.len(),
{
    if ws.len() == 0 {
        Seq::empty()
    } else {
        le8(ws.first()) + bytes_of(ws.drop_first())
    }
}

/// Eight bytes at a time read back as words.
pub open spec fn words_of(b: Seq<u8>) -> Seq<u64>
    decreases b.len(),
{
    if b.len() < 8 {
        Seq::empty()
    } else {
        seq![combine8(b[0], b[1], b[2], b[3], b[4], b[5], b[6], b[7])] + words_of(b.skip(8))
    }
}

pub proof fn lemma_bytes_of_append(a: Seq<u64>, b: Seq<u64>)
    ensures
        bytes_of(a + b) == bytes_of(a) + bytes_of(b),
    decreases a.len(),
{
    if a.len() == 0 {
        assert(a + b =~= b);
        assert(bytes_of(a) + bytes_of(b) =~= bytes_of(b));
    } else {
        lemma_bytes_of_append(a.drop_first(), b);
        assert((a + b).first() == a.first());
        assert((a + b).drop_first() =~= a.drop_first() + b);
        assert((a + b).len() > 0);
        assert(le8(a.first()) + (bytes_of(a.drop_first()) + bytes_of(b)) =~= (le8(a.first())
            + bytes_of(a.drop_first())) + bytes_of(b));
    }
}

pub proof fn lemma_words_of_bytes(ws: Seq<u64>)
    ensures
        bytes_of(ws).len() == 8 * ws.len(),
        words_of(bytes_of(ws)) == ws,
    decreases ws.len(),
{
    if ws.len() > 0 {
        lemma_words_of_bytes(ws.drop_first());
        let b = bytes_of(ws);
        assert(b =~= le8(ws.first()) + bytes_of(ws.drop_first()));
        assert(b.len() >= 8);
        assert(b.skip(8) =~= bytes_of(ws.drop_first()));
        lemma_combine_le8(ws.first());
        assert(b[0] == ws.first() as u8);
        assert(combine8(b[0], b[1], b[2], b[3], b[4], b[5], b[6], b[7]) == ws.first());
        assert(words_of(b) =~= seq![ws.first()] + words_of(bytes_of(ws.drop_first())));
        assert(seq![ws.first()] + ws.drop_first() =~= ws);
    }
}

/// Appends the eight little-endian bytes of one word.
fn push_word(out: &mut Vec<u8>, w: u64)
    ensures
        final(out)@ == old(out)@ + le8(w),
{
    let ghost o0 = out@;
    out.push(w as u8);
    out.push((w >> 8) as u8);
    out.push((w >> 16) as u8);
    out.push((w >> 24) as u8);
    out.push((w >> 32) as u8);
    out.push((w >> 40) as u8);
    out.push((w >> 48) as u8);
    out.push((w >> 56) as u8);
    proof {
        assert(out@ =~= o0 + le8(w));
    }
}

/// Writes every word of a sequence as bytes.
fn words_to_bytes(ws: &Vec<u64>) -> (r: Vec<u8>)
    ensures
        r@ == bytes_of(ws@),
{
    let mut r: Vec<u8> = Vec::new();
    let mut i: usize = 0;
    proof {
        assert(ws@.take(0) =~= Seq::<u64>::empty());
    }
    while i < ws.len()
        invariant
            i <= ws@.len(),
            r@ == bytes_of(ws@.take(i as int)),
        decreases ws@.len() - i,
    {
        push_word(&mut r, ws[i]);
        proof {
            assert(ws@.take(i as int + 1) =~= ws@.take(i as int) + seq![ws@[i as int]]);
            lemma_bytes_of_append(ws@.take(i as int), seq![ws@[i as int]]);
            assert(bytes_of(seq![ws@[i as int]]) =~= le8(ws@[i as int])) by {
                let single = seq![ws@[i as int]];
                assert(single.drop_first() =~= Seq::<u64>::empty());
                assert(bytes_of(Seq::<u64>::empty()) == Seq::<u8>::empty());
                assert(single.first() == ws@[i as int]);
                assert(bytes_of(single) == le8(ws@[i as int]) + bytes_of(Seq::<u64>::empty()));
                assert(le8(ws@[i as int]) + Seq::<u8>::empty() =~= le8(ws@[i as int]));
            }
        }
        i += 1;
    }
    proof {
        assert(ws@.take(ws@.len() as int) =~= ws@);
    }
    r
}

pub proof fn lemma_words_of_append(a: Seq<u8>, b: Seq<u8>)
    requires
        a.len() % 8 == 0,
    ensures
        words_of(a + b) == words_of(a) + words_of(b),
    decreases a.len(),
{
    if a.len() == 0 {
        assert(a + b =~= b);
        assert(words_of(a) + words_of(b) =~= words_of(b));
    } else {
        assert(a.len() >= 8);
        lemma_words_of_append(a.skip(8), b);
        assert((a + b).len() >= 8);
        assert(forall|k: int| 0 <= k < 8 ==> (a + b)[k] == a[k]);
        assert((a + b).skip(8) =~= a.skip(8) + b);
        assert(seq![combine8(a[0], a[1], a[2], a[3], a[4], a[5], a[6], a[7])] + (words_of(a.skip(8))
            + words_of(b)) =~= (seq![combine8(a[0], a[1], a[2], a[3], a[4], a[5], a[6], a[7])]
            + words_of(a.skip(8))) + words_of(b));
    }
}

/// Reads the file back as words; fails when the length is not a whole
/// number of words.
fn bytes_to_words(b: &Vec<u8>) -> (r: Option<Vec<u64>>)
    ensures
        match r {
            Some(ws) => b@.len() % 8 == 0 && ws@ == words_of(b@),
            None => b@.len() % 8 != 0,
        },
{
    if b.len() % 8 != 0 {
        return None;
    }
    let mut ws: Vec<u64> = Vec::new();
    let mut i: usize = 0;
    proof {
        assert(b@.take(0) =~= Seq::<u8>::empty());
    }
    while i < b.len()
        invariant
            i <= b@.len(),
            i % 8 == 0,
            b@.len() % 8 == 0,
            ws@ == words_of(b@.take(i as int)),
        decreases b@.len() - i,
    {
        assert(i + 8 <= b@.len());
        let w = (b[i] as u64) | (b[i + 1] as u64) << 8 | (b[i + 2] as u64) << 16 | (b[i + 3] as u64)
            << 24 | (b[i + 4] as u64) << 32 | (b[i + 5] as u64) << 40 | (b[i + 6] as u64) << 48 | (
        b[i + 7] as u64) << 56;
        ws.push(w);
        proof {
            let t = b@.take(i as int);
            let c = b@.subrange(i as int, i as int + 8);
            assert(b@.take(i as int + 8) =~= t + c);
            lemma_words_of_append(t, c);
            assert(words_of(c) =~= seq![combine8(c[0], c[1], c[2], c[3], c[4], c[5], c[6], c[7])])
                by {
                assert(c.len() == 8);
                assert(c.skip(8) =~= Seq::<u8>::empty());
                assert(words_of(Seq::<u8>::empty()) == Seq::<u64>::empty());
                assert(words_of(c) == seq![combine8(c[0], c[1], c[2], c[3], c[4], c[5], c[6], c[7])]
                    + words_of(Seq::<u8>::empty()));
                assert(seq![combine8(c[0], c[1], c[2], c[3], c[4], c[5], c[6], c[7])] + Seq::<
                    u64,
                >::empty() =~= seq![combine8(c[0], c[1], c[2], c[3], c[4], c[5], c[6], c[7])]);
            }
            assert(w == combine8(c[0], c[1], c[2], c[3], c[4], c[5], c[6], c[7]));
        }
        i += 8;
    }
    proof {
        assert(i == b@.len());
        assert(b@.take(b@.len() as int) =~= b@);
    }
    Some(ws)
}

// ----- flattening to words -----

pub open spec fn flat_derivs(s: Seq<(Address, UnhardenedIndex)>) -> Seq<u64>
    decreases s.len(),
{
    if s.len() == 0 {
        Seq::empty()
    } else {
        seq![s.first().0.id, s.first().1.index as u64] + flat_derivs(s.drop_first())
    }
}

pub open spec fn flat_outpoints(s: Seq<OutPoint>) -> Seq<u64>
    decreases s.len(),
{
    if s.len() == 0 {
        Seq::empty()
    } else {
        seq![s.first().txid.id, s.first().vout as u64] + flat_outpoints(s.drop_first())
    }
}

pub open spec fn flat_utxos(s: Seq<Utxo>) -> Seq<u64>
    decreases s.len(),
{
    if s.len() == 0 {
        Seq::empty()
    } else {
        seq![s.first().outpoint.txid.id, s.first().outpoint.vout as u64, s.first().amount]
            + flat_utxos(s.drop_first())
    }
}

pub open spec fn flat_unspent(s: Seq<(RgbContractId, Seq<Utxo>)>) -> Seq<u64>
    decreases s.len(),
{
    if s.len() == 0 {
        Seq::empty()
    } else {
        seq![s.first().0.id, s.first().1.len() as u64] + flat_utxos(s.first().1) + flat_unspent(
            s.drop_first(),
        )
    }
}

pub open spec fn flat_cc(v: CcView) -> Seq<u64> {
    seq![v.updated_height as u64, v.derivs.len() as u64] + flat_derivs(v.derivs) + seq![
        v.utxo.len() as u64,
    ] + flat_outpoints(v.utxo) + seq![v.unspent.len() as u64] + flat_unspent(v.unspent)
}

pub open spec fn flat_descriptors(s: Seq<(ContractId, CcView)>) -> Seq<u64>
    decreases s.len(),
{
    if s.len() == 0 {
        Seq::empty()
    } else {
        seq![s.first().0.id] + flat_cc(s.first().1) + flat_descriptors(s.drop_first())
    }
}

pub open spec fn flat_blocks(s: Seq<(BlockHash, u64)>) -> Seq<u64>
    decreases s.len(),
{
    if s.len() == 0 {
        Seq::empty()
    } else {
        seq![s.first().0.id, s.first().1] + flat_blocks(s.drop_first())
    }
}

pub open spec fn flat_mine(s: Seq<((u32, u16), Txid)>) -> Seq<u64>
    decreases s.len(),
{
    if s.len() == 0 {
        Seq::empty()
    } else {
        seq![s.first().0.0 as u64, s.first().0.1 as u64, s.first().1.id] + flat_mine(
            s.drop_first(),
        )
    }
}

pub open spec fn flat_body(b: Seq<u8>) -> Seq<u64> {
    Seq::new(b.len(), |i: int| b[i] as u64)
}

pub open spec fn flat_txs(s: Seq<(Txid, Seq<u8>)>) -> Seq<u64>
    decreases s.len(),
{
    if s.len() == 0 {
        Seq::empty()
    } else {
        seq![s.first().0.id, s.first().1.len() as u64] + flat_body(s.first().1) + flat_txs(
            s.drop_first(),
        )
    }
}

/// The whole cache as one word sequence: deterministic field order, each
/// collection its length followed by its items.
pub open spec fn flat_cache(v: CacheView) -> Seq<u64> {
    seq![v.known_height as u64, v.descriptors.len() as u64] + flat_descriptors(v.descriptors)
        + seq![v.block_info.len() as u64] + flat_blocks(v.block_info) + seq![
        v.mine_info.len() as u64,
    ] + flat_mine(v.mine_info) + seq![v.tx_cache.len() as u64] + flat_txs(v.tx_cache)
}

// ----- parsing words -----

pub open spec fn parse_derivs(ws: Seq<u64>, pos: int, n: nat) -> Option<
    (Seq<(Address, UnhardenedIndex)>, int),
>
    decreases n,
{
    if n == 0 {
        Some((Seq::empty(), pos))
    } else if pos + 2 <= ws.len() && ws[pos + 1] <= 0x7FFF_FFFF {
        match parse_derivs(ws, pos + 2, (n - 1) as nat) {
            Some((tail, p)) => Some(
                (
                    seq![(Address { id: ws[pos] }, UnhardenedIndex { index: ws[pos + 1] as u32 })]
                        + tail,
                    p,
                ),
            ),
            None => None,
        }
    } else {
        None
    }
}

pub open spec fn parse_outpoints(ws: Seq<u64>, pos: int, n: nat) -> Option<(Seq<OutPoint>, int)>
    decreases n,
{
    if n == 0 {
        Some((Seq::empty(), pos))
    } else if pos + 2 <= ws.len() && ws[pos + 1] <= 0xFFFF_FFFF {
        match parse_outpoints(ws, pos + 2, (n - 1) as nat) {
            Some((tail, p)) => Some(
                (
                    seq![OutPoint { txid: Txid { id: ws[pos] }, vout: ws[pos + 1] as u32 }] + tail,
                    p,
                ),
            ),
            None => None,
        }
    } else {
        None
    }
}

pub open spec fn parse_utxos(ws: Seq<u64>, pos: int, n: nat) -> Option<(Seq<Utxo>, int)>
    decreases n,
{
    if n == 0 {
        Some((Seq::empty(), pos))
    } else if pos + 3 <= ws.len() && ws[pos + 1] <= 0xFFFF_FFFF {
        match parse_utxos(ws, pos + 3, (n - 1) as nat) {
            Some((tail, p)) => Some(
                (
                    seq![
                        Utxo {
                            outpoint: OutPoint { txid: Txid { id: ws[pos] }, vout: ws[pos + 1] as u32 },
                            amount: ws[pos + 2],
                        },
                    ] + tail,
                    p,
                ),
            ),
            None => None,
        }
    } else {
        None
    }
}

pub open spec fn parse_unspent(ws: Seq<u64>, pos: int, n: nat) -> Option<
    (Seq<(RgbContractId, Seq<Utxo>)>, int),
>
    decreases n,
{
    if n == 0 {
        Some((Seq::empty(), pos))
    } else if pos + 2 <= ws.len() {
        match parse_utxos(ws, pos + 2, ws[pos + 1] as nat) {
            Some((us, p1)) => match parse_unspent(ws, p1, (n - 1) as nat) {
                Some((tail, p)) => Some((seq![(RgbContractId { id: ws[pos] }, us)] + tail, p)),
                None => None,
            },
            None => None,
        }
    } else {
        None
    }
}

pub open spec fn parse_cc(ws: Seq<u64>, pos: int) -> Option<(CcView, int)> {
    if pos + 2 <= ws.len() && ws[pos] <= 0xFFFF_FFFF {
        match parse_derivs(ws, pos + 2, ws[pos + 1] as nat) {
            Some((ds, p1)) => if p1 + 1 <= ws.len() {
                match parse_outpoints(ws, p1 + 1, ws[p1] as nat) {
                    Some((ops, p2)) => if p2 + 1 <= ws.len() {
                        match parse_unspent(ws, p2 + 1, ws[p2] as nat) {
                            Some((un, p3)) => Some(
                                (
                                    CcView {
                                        updated_height: ws[pos] as u32,
                                        derivs: ds,
                                        utxo: ops,
                                        unspent: un,
                                    },
                                    p3,
                                ),
                            ),
                            None => None,
                        }
                    } else {
                        None
                    },
                    None => None,
                }
            } else {
                None
            },
            None => None,
        }
    } else {
        None
    }
}

pub open spec fn parse_descriptors(ws: Seq<u64>, pos: int, n: nat) -> Option<
    (Seq<(ContractId, CcView)>, int),
>
    decreases n,
{
    if n == 0 {
        Some((Seq::empty(), pos))
    } else if pos + 1 <= ws.len() {
        match parse_cc(ws, pos + 1) {
            Some((cc, p1)) => match parse_descriptors(ws, p1, (n - 1) as nat) {
                Some((tail, p)) => Some((seq![(ContractId { id: ws[pos] }, cc)] + tail, p)),
                None => None,
            },
            None => None,
        }
    } else {
        None
    }
}

pub open spec fn parse_blocks(ws: Seq<u64>, pos: int, n: nat) -> Option<(Seq<(BlockHash, u64)>, int)>
    decreases n,
{
    if n == 0 {
        Some((Seq::empty(), pos))
    } else if pos + 2 <= ws.len() {
        match parse_blocks(ws, pos + 2, (n - 1) as nat) {
            Some((tail, p)) => Some((seq![(BlockHash { id: ws[pos] }, ws[pos + 1])] + tail, p)),
            None => None,
        }
    } else {
        None
    }
}

pub open spec fn parse_mine(ws: Seq<u64>, pos: int, n: nat) -> Option<
    (Seq<((u32, u16), Txid)>, int),
>
    decreases n,
{
    if n == 0 {
        Some((Seq::empty(), pos))
    } else if pos + 3 <= ws.len() && ws[pos] <= 0xFFFF_FFFF && ws[pos + 1] <= 0xFFFF {
        match parse_mine(ws, pos + 3, (n - 1) as nat) {
            Some((tail, p)) => Some(
                (
                    seq![((ws[pos] as u32, ws[pos + 1] as u16), Txid { id: ws[pos + 2] })] + tail,
                    p,
                ),
            ),
            None => None,
        }
    } else {
        None
    }
}

pub open spec fn parse_body(ws: Seq<u64>, pos: int, n: nat) -> Option<(Seq<u8>, int)>
    decreases n,
{
    if n == 0 {
        Some((Seq::empty(), pos))
    } else if pos + 1 <= ws.len() && ws[pos] <= 0xFF {
        match parse_body(ws, pos + 1, (n - 1) as nat) {
            Some((tail, p)) => Some((seq![ws[pos] as u8] + tail, p)),
            None => None,
        }
    } else {
        None
    }
}

pub open spec fn parse_txs(ws: Seq<u64>, pos: int, n: nat) -> Option<(Seq<(Txid, Seq<u8>)>, int)>
    decreases n,
{
    if n == 0 {
        Some((Seq::empty(), pos))
    } else if pos + 2 <= ws.len() {
        match parse_body(ws, pos + 2, ws[pos + 1] as nat) {
            Some((b, p1)) => match parse_txs(ws, p1, (n - 1) as nat) {
                Some((tail, p)) => Some((seq![(Txid { id: ws[pos] }, b)] + tail, p)),
                None => None,
            },
            None => None,
        }
    } else {
        None
    }
}

pub open spec fn parse_cache(ws: Seq<u64>, pos: int) -> Option<(CacheView, int)> {
    if pos + 2 <= ws.len() && ws[pos] <= 0xFFFF_FFFF {
        match parse_descriptors(ws, pos + 2, ws[pos + 1] as nat) {
            Some((ds, p1)) => if p1 + 1 <= ws.len() {
                match parse_blocks(ws, p1 + 1, ws[p1] as nat) {
                    Some((bs, p2)) => if p2 + 1 <= ws.len() {
                        match parse_mine(ws, p2 + 1, ws[p2] as nat) {
                            Some((ms, p3)) => if p3 + 1 <= ws.len() {
                                match parse_txs(ws, p3 + 1, ws[p3] as nat) {
                                    Some((ts, p4)) => Some(
                                        (
                                            CacheView {
                                                known_height: ws[pos] as u32,
                                                descriptors: ds,
                                                block_info: bs,
                                                mine_info: ms,
                                                tx_cache: ts,
                                            },
                                            p4,
                                        ),
                                    ),
                                    None => None,
                                }
                            } else {
                                None
                            },
                            None => None,
                        }
                    } else {
                        None
                    },
                    None => None,
                }
            } else {
                None
            },
            None => None,
        }
    } else {
        None
    }
}

// ----- the round trip: parsing what flattening wrote -----

/// A slice of an already matched slice matches too.
proof fn lemma_sub_slice(ws: Seq<u64>, pos: int, f: Seq<u64>, off: int, g: Seq<u64>)
    requires
        0 <= pos,
        pos + f.len() <= ws.len(),
        ws.subrange(pos, pos + f.len()) == f,
        0 <= off,
        off + g.len() <= f.len(),
        forall|k: int| 0 <= k < g.len() ==> f[off + k] == g[k],
    ensures
        ws.subrange(pos + off, pos + off + g.len()) == g,
        forall|k: int| 0 <= k < g.len() ==> ws[pos + off + k] == g[k],
{
    assert forall|k: int| 0 <= k < g.len() implies ws[pos + off + k] == g[k] by {
        assert(ws.subrange(pos, pos + f.len())[off + k] == ws[pos + off + k]);
    }
    assert(ws.subrange(pos + off, pos + off + g.len()) =~= g);
}

proof fn lemma_rt_derivs(s: Seq<(Address, UnhardenedIndex)>, ws: Seq<u64>, pos: int)
    requires
        0 <= pos,
        pos + flat_derivs(s).len() <= ws.len(),
        ws.subrange(pos, pos + flat_derivs(s).len()) == flat_derivs(s),
        forall|i: int| 0 <= i < s.len() ==> (#[trigger] s[i]).1.wf(),
    ensures
        parse_derivs(ws, pos, s.len()) == Some((s, pos + flat_derivs(s).len())),
    decreases s.len(),
{
    let f = flat_derivs(s);
    if s.len() == 0 {
        assert(s =~= Seq::<(Address, UnhardenedIndex)>::empty());
    } else {
        let h = seq![s.first().0.id, s.first().1.index as u64];
        let ft = flat_derivs(s.drop_first());
        assert(f == h + ft);
        lemma_sub_slice(ws, pos, f, 0, h);
        assert(s.first().1.wf()) by {
            assert(s[0] == s.first());
        }
        assert(ws[pos + 1] <= 0x7FFF_FFFF);
        assert(forall|k: int| 0 <= k < ft.len() ==> f[2 + k] == ft[k]);
        lemma_sub_slice(ws, pos, f, 2, ft);
        assert(forall|i: int|
            0 <= i < s.drop_first().len() ==> (#[trigger] s.drop_first()[i]) == s[i + 1]);
        lemma_rt_derivs(s.drop_first(), ws, pos + 2);
        assert(seq![(Address { id: ws[pos] }, UnhardenedIndex { index: ws[pos + 1] as u32 })]
            + s.drop_first() =~= s) by {
            assert(ws[pos] == s.first().0.id && ws[pos + 1] == s.first().1.index as u64);
            assert(Address { id: ws[pos] } == s.first().0);
            assert(UnhardenedIndex { index: ws[pos + 1] as u32 } == s.first().1);
        }
    }
}

proof fn lemma_rt_outpoints(s: Seq<OutPoint>, ws: Seq<u64>, pos: int)
    requires
        0 <= pos,
        pos + flat_outpoints(s).len() <= ws.len(),
        ws.subrange(pos, pos + flat_outpoints(s).len()) == flat_outpoints(s),
    ensures
        parse_outpoints(ws, pos, s.len()) == Some((s, pos + flat_outpoints(s).len())),
    decreases s.len(),
{
    let f = flat_outpoints(s);
    if s.len() == 0 {
        assert(s =~= Seq::<OutPoint>::empty());
    } else {
        let h = seq![s.first().txid.id, s.first().vout as u64];
        let ft = flat_outpoints(s.drop_first());
        assert(f == h + ft);
        lemma_sub_slice(ws, pos, f, 0, h);
        assert(ws[pos + 1] <= 0xFFFF_FFFF);
        assert(forall|k: int| 0 <= k < ft.len() ==> f[2 + k] == ft[k]);
        lemma_sub_slice(ws, pos, f, 2, ft);
        lemma_rt_outpoints(s.drop_first(), ws, pos + 2);
        assert(seq![OutPoint { txid: Txid { id: ws[pos] }, vout: ws[pos + 1] as u32 }]
            + s.drop_first() =~= s) by {
            assert(OutPoint { txid: Txid { id: ws[pos] }, vout: ws[pos + 1] as u32 } == s.first());
        }
    }
}

proof fn lemma_rt_utxos(s: Seq<Utxo>, ws: Seq<u64>, pos: int)
    requires
        0 <= pos,
        pos + flat_utxos(s).len() <= ws.len(),
        ws.subrange(pos, pos + flat_utxos(s).len()) == flat_utxos(s),
    ensures
        parse_utxos(ws, pos, s.len()) == Some((s, pos + flat_utxos(s).len())),
    decreases s.len(),
{
    let f = flat_utxos(s);
    if s.len() == 0 {
        assert(s =~= Seq::<Utxo>::empty());
    } else {
        let h = seq![s.first().outpoint.txid.id, s.first().outpoint.vout as u64, s.first().amount];
        let ft = flat_utxos(s.drop_first());
        assert(f == h + ft);
        lemma_sub_slice(ws, pos, f, 0, h);
        assert(ws[pos + 1] <= 0xFFFF_FFFF);
        assert(forall|k: int| 0 <= k < ft.len() ==> f[3 + k] == ft[k]);
        lemma_sub_slice(ws, pos, f, 3, ft);
        lemma_rt_utxos(s.drop_first(), ws, pos + 3);
        assert(seq![
            Utxo {
                outpoint: OutPoint { txid: Txid { id: ws[pos] }, vout: ws[pos + 1] as u32 },
                amount: ws[pos + 2],
            },
        ] + s.drop_first() =~= s) by {
            assert(Utxo {
                outpoint: OutPoint { txid: Txid { id: ws[pos] }, vout: ws[pos + 1] as u32 },
                amount: ws[pos + 2],
            } == s.first());
        }
    }
}

proof fn lemma_rt_unspent(s: Seq<(RgbContractId, Seq<Utxo>)>, ws: Seq<u64>, pos: int)
    requires
        0 <= pos,
        pos + flat_unspent(s).len() <= ws.len(),
        ws.subrange(pos, pos + flat_unspent(s).len()) == flat_unspent(s),
        forall|i: int| 0 <= i < s.len() ==> (#[trigger] s[i]).1.len() <= 0xFFFF_FFFF_FFFF_FFFF,
    ensures
        parse_unspent(ws, pos, s.len()) == Some((s, pos + flat_unspent(s).len())),
    decreases s.len(),
{
    let f = flat_unspent(s);
    if s.len() == 0 {
        assert(s =~= Seq::<(RgbContractId, Seq<Utxo>)>::empty());
    } else {
        let h = seq![s.first().0.id, s.first().1.len() as u64];
        let fu = flat_utxos(s.first().1);
        let ft = flat_unspent(s.drop_first());
        assert(f == h + fu + ft);
        lemma_sub_slice(ws, pos, f, 0, h);
        assert(forall|k: int| 0 <= k < fu.len() ==> f[2 + k] == fu[k]);
        lemma_sub_slice(ws, pos, f, 2, fu);
        assert(s[0] == s.first());
        assert(ws[pos + 1] as nat == s.first().1.len());
        lemma_rt_utxos(s.first().1, ws, pos + 2);
        assert(forall|k: int| 0 <= k < ft.len() ==> f[2 + fu.len() + k] == ft[k]);
        lemma_sub_slice(ws, pos, f, 2 + fu.len() as int, ft);
        assert(forall|i: int|
            0 <= i < s.drop_first().len() ==> (#[trigger] s.drop_first()[i]) == s[i + 1]);
        lemma_rt_unspent(s.drop_first(), ws, pos + 2 + fu.len() as int);
        assert(seq![(RgbContractId { id: ws[pos] }, s.first().1)] + s.drop_first() =~= s) by {
            assert(RgbContractId { id: ws[pos] } == s.first().0);
        }
    }
}

proof fn lemma_rt_cc(v: CcView, ws: Seq<u64>, pos: int)
    requires
        0 <= pos,
        pos + flat_cc(v).len() <= ws.len(),
        ws.subrange(pos, pos + flat_cc(v).len()) == flat_cc(v),
        v.bounded(),
        cc_view_wf(v),
    ensures
        parse_cc(ws, pos) == Some((v, pos + flat_cc(v).len())),
{
    let f = flat_cc(v);
    let h = seq![v.updated_height as u64, v.derivs.len() as u64];
    let fd = flat_derivs(v.derivs);
    let fo = flat_outpoints(v.utxo);
    let fu = flat_unspent(v.unspent);
    assert(f == h + fd + seq![v.utxo.len() as u64] + fo + seq![v.unspent.len() as u64] + fu);
    let o1: int = 2 + fd.len() as int;
    let o2: int = o1 + 1;
    let o3: int = o2 + fo.len() as int;
    let o4: int = o3 + 1;
    lemma_sub_slice(ws, pos, f, 0, h);
    assert(forall|k: int| 0 <= k < fd.len() ==> f[2 + k] == fd[k]);
    lemma_sub_slice(ws, pos, f, 2, fd);
    assert(f[o1] == v.utxo.len() as u64);
    lemma_sub_slice(ws, pos, f, o1, seq![v.utxo.len() as u64]);
    assert(forall|k: int| 0 <= k < fo.len() ==> f[o2 + k] == fo[k]);
    lemma_sub_slice(ws, pos, f, o2, fo);
    assert(f[o3] == v.unspent.len() as u64);
    lemma_sub_slice(ws, pos, f, o3, seq![v.unspent.len() as u64]);
    assert(forall|k: int| 0 <= k < fu.len() ==> f[o4 + k] == fu[k]);
    lemma_sub_slice(ws, pos, f, o4, fu);
    assert(ws[pos + 1] as nat == v.derivs.len());
    lemma_rt_derivs(v.derivs, ws, pos + 2);
    assert(ws[pos + o1] as nat == v.utxo.len());
    lemma_rt_outpoints(v.utxo, ws, pos + o2);
    assert(ws[pos + o3] as nat == v.unspent.len());
    assert forall|i: int| 0 <= i < v.unspent.len() implies (#[trigger] v.unspent[i]).1.len()
        <= 0xFFFF_FFFF_FFFF_FFFF by {}
    lemma_rt_unspent(v.unspent, ws, pos + o4);
    assert(ws[pos] as u32 == v.updated_height);
    assert(parse_cc(ws, pos) == Some(
        (
            CcView {
                updated_height: ws[pos] as u32,
                derivs: v.derivs,
                utxo: v.utxo,
                unspent: v.unspent,
            },
            pos + f.len(),
        ),
    ));
}

proof fn lemma_rt_blocks(s: Seq<(BlockHash, u64)>, ws: Seq<u64>, pos: int)
    requires
        0 <= pos,
        pos + flat_blocks(s).len() <= ws.len(),
        ws.subrange(pos, pos + flat_blocks(s).len()) == flat_blocks(s),
    ensures
        parse_blocks(ws, pos, s.len()) == Some((s, pos + flat_blocks(s).len())),
    decreases s.len(),
{
    let f = flat_blocks(s);
    if s.len() == 0 {
        assert(s =~= Seq::<(BlockHash, u64)>::empty());
    } else {
        let h = seq![s.first().0.id, s.first().1];
        let ft = flat_blocks(s.drop_first());
        assert(f == h + ft);
        lemma_sub_slice(ws, pos, f, 0, h);
        assert(forall|k: int| 0 <= k < ft.len() ==> f[2 + k] == ft[k]);
        lemma_sub_slice(ws, pos, f, 2, ft);
        lemma_rt_blocks(s.drop_first(), ws, pos + 2);
        assert(seq![(BlockHash { id: ws[pos] }, ws[pos + 1])] + s.drop_first() =~= s) by {
            assert((BlockHash { id: ws[pos] }, ws[pos + 1]) == s.first());
        }
    }
}

proof fn lemma_rt_mine(s: Seq<((u32, u16), Txid)>, ws: Seq<u64>, pos: int)
    requires
        0 <= pos,
        pos + flat_mine(s).len() <= ws.len(),
        ws.subrange(pos, pos + flat_mine(s).len()) == flat_mine(s),
    ensures
        parse_mine(ws, pos, s.len()) == Some((s, pos + flat_mine(s).len())),
    decreases s.len(),
{
    let f = flat_mine(s);
    if s.len() == 0 {
        assert(s =~= Seq::<((u32, u16), Txid)>::empty());
    } else {
        let h = seq![s.first().0.0 as u64, s.first().0.1 as u64, s.first().1.id];
        let ft = flat_mine(s.drop_first());
        assert(f == h + ft);
        lemma_sub_slice(ws, pos, f, 0, h);
        assert(ws[pos] <= 0xFFFF_FFFF && ws[pos + 1] <= 0xFFFF);
        assert(forall|k: int| 0 <= k < ft.len() ==> f[3 + k] == ft[k]);
        lemma_sub_slice(ws, pos, f, 3, ft);
        lemma_rt_mine(s.drop_first(), ws, pos + 3);
        assert(seq![((ws[pos] as u32, ws[pos + 1] as u16), Txid { id: ws[pos + 2] })]
            + s.drop_first() =~= s) by {
            assert(((ws[pos] as u32, ws[pos + 1] as u16), Txid { id: ws[pos + 2] }) == s.first());
        }
    }
}

proof fn lemma_rt_body(b: Seq<u8>, ws: Seq<u64>, pos: int)
    requires
        0 <= pos,
        pos + flat_body(b).len() <= ws.len(),
        ws.subrange(pos, pos + flat_body(b).len()) == flat_body(b),
    ensures
        parse_body(ws, pos, b.len()) == Some((b, pos + b.len())),
    decreases b.len(),
{
    let f = flat_body(b);
    if b.len() == 0 {
        assert(b =~= Seq::<u8>::empty());
    } else {
        let ft = flat_body(b.drop_first());
        assert(ws[pos] == f[0]) by {
            assert(ws.subrange(pos, pos + f.len())[0] == ws[pos]);
        }
        assert(f[0] == b[0] as u64);
        assert(ws[pos] <= 0xFF);
        assert(forall|k: int| 0 <= k < ft.len() ==> f[1 + k] == ft[k]) by {
            assert(forall|k: int| 0 <= k < ft.len() ==> ft[k] == b.drop_first()[k] as u64);
            assert(forall|k: int| 0 <= k < ft.len() ==> b.drop_first()[k] == b[k + 1]);
        }
        lemma_sub_slice(ws, pos, f, 1, ft);
        lemma_rt_body(b.drop_first(), ws, pos + 1);
        assert(seq![ws[pos] as u8] + b.drop_first() =~= b) by {
            assert(ws[pos] as u8 == b[0]);
        }
    }
}

proof fn lemma_rt_txs(s: Seq<(Txid, Seq<u8>)>, ws: Seq<u64>, pos: int)
    requires
        0 <= pos,
        pos + flat_txs(s).len() <= ws.len(),
        ws.subrange(pos, pos + flat_txs(s).len()) == flat_txs(s),
        forall|i: int| 0 <= i < s.len() ==> (#[trigger] s[i]).1.len() <= 0xFFFF_FFFF_FFFF_FFFF,
    ensures
        parse_txs(ws, pos, s.len()) == Some((s, pos + flat_txs(s).len())),
    decreases s.len(),
{
    let f = flat_txs(s);
    if s.len() == 0 {
        assert(s =~= Seq::<(Txid, Seq<u8>)>::empty());
    } else {
        let h = seq![s.first().0.id, s.first().1.len() as u64];
        let fb = flat_body(s.first().1);
        let ft = flat_txs(s.drop_first());
        assert(f == h + fb + ft);
        lemma_sub_slice(ws, pos, f, 0, h);
        assert(forall|k: int| 0 <= k < fb.len() ==> f[2 + k] == fb[k]);
        lemma_sub_slice(ws, pos, f, 2, fb);
        assert(s[0] == s.first());
        assert(ws[pos + 1] as nat == s.first().1.len());
        lemma_rt_body(s.first().1, ws, pos + 2);
        assert(forall|k: int| 0 <= k < ft.len() ==> f[2 + fb.len() + k] == ft[k]);
        lemma_sub_slice(ws, pos, f, 2 + fb.len() as int, ft);
        assert(forall|i: int|
            0 <= i < s.drop_first().len() ==> (#[trigger] s.drop_first()[i]) == s[i + 1]);
        lemma_rt_txs(s.drop_first(), ws, pos + 2 + fb.len() as int);
        assert(seq![(Txid { id: ws[pos] }, s.first().1)] + s.drop_first() =~= s) by {
            assert(Txid { id: ws[pos] } == s.first().0);
        }
    }
}

proof fn lemma_rt_descriptors(s: Seq<(ContractId, CcView)>, ws: Seq<u64>, pos: int)
    requires
        0 <= pos,
        pos + flat_descriptors(s).len() <= ws.len(),
        ws.subrange(pos, pos + flat_descriptors(s).len()) == flat_descriptors(s),
        forall|i: int| 0 <= i < s.len() ==> (#[trigger] s[i]).1.bounded(),
        forall|i: int| 0 <= i < s.len() ==> cc_view_wf((#[trigger] s[i]).1),
    ensures
        parse_descriptors(ws, pos, s.len()) == Some((s, pos + flat_descriptors(s).len())),
    decreases s.len(),
{
    let f = flat_descriptors(s);
    if s.len() == 0 {
        assert(s =~= Seq::<(ContractId, CcView)>::empty());
    } else {
        let h = seq![s.first().0.id];
        let fc = flat_cc(s.first().1);
        let ft = flat_descriptors(s.drop_first());
        assert(f == h + fc + ft);
        lemma_sub_slice(ws, pos, f, 0, h);
        assert(forall|k: int| 0 <= k < fc.len() ==> f[1 + k] == fc[k]);
        lemma_sub_slice(ws, pos, f, 1, fc);
        assert(s[0] == s.first());
        lemma_rt_cc(s.first().1, ws, pos + 1);
        assert(forall|k: int| 0 <= k < ft.len() ==> f[1 + fc.len() + k] == ft[k]);
        lemma_sub_slice(ws, pos, f, 1 + fc.len() as int, ft);
        assert(forall|i: int|
            0 <= i < s.drop_first().len() ==> (#[trigger] s.drop_first()[i]) == s[i + 1]);
        lemma_rt_descriptors(s.drop_first(), ws, pos + 1 + fc.len() as int);
        assert(seq![(ContractId { id: ws[pos] }, s.first().1)] + s.drop_first() =~= s) by {
            assert(ws.subrange(pos + 0, pos + 0 + h.len())[0] == ws[pos]);
            assert(ws[pos] == s.first().0.id);
            assert(ContractId { id: ws[pos] } == s.first().0);
        }
    }
}

proof fn lemma_rt_cache(v: CacheView, ws: Seq<u64>, pos: int)
    requires
        0 <= pos,
        pos + flat_cache(v).len() <= ws.len(),
        ws.subrange(pos, pos + flat_cache(v).len()) == flat_cache(v),
        v.bounded(),
        view_wf(v),
    ensures
        parse_cache(ws, pos) == Some((v, pos + flat_cache(v).len())),
{
    let f = flat_cache(v);
    let h = seq![v.known_height as u64, v.descriptors.len() as u64];
    let fd = flat_descriptors(v.descriptors);
    let fb = flat_blocks(v.block_info);
    let fm = flat_mine(v.mine_info);
    let ft = flat_txs(v.tx_cache);
    assert(f == h + fd + seq![v.block_info.len() as u64] + fb + seq![v.mine_info.len() as u64] + fm
        + seq![v.tx_cache.len() as u64] + ft);
    let o1: int = 2 + fd.len() as int;
    let o2: int = o1 + 1;
    let o3: int = o2 + fb.len() as int;
    let o4: int = o3 + 1;
    let o5: int = o4 + fm.len() as int;
    let o6: int = o5 + 1;
    lemma_sub_slice(ws, pos, f, 0, h);
    assert(forall|k: int| 0 <= k < fd.len() ==> f[2 + k] == fd[k]);
    lemma_sub_slice(ws, pos, f, 2, fd);
    assert(f[o1] == v.block_info.len() as u64);
    lemma_sub_slice(ws, pos, f, o1, seq![v.block_info.len() as u64]);
    assert(forall|k: int| 0 <= k < fb.len() ==> f[o2 + k] == fb[k]);
    lemma_sub_slice(ws, pos, f, o2, fb);
    assert(f[o3] == v.mine_info.len() as u64);
    lemma_sub_slice(ws, pos, f, o3, seq![v.mine_info.len() as u64]);
    assert(forall|k: int| 0 <= k < fm.len() ==> f[o4 + k] == fm[k]);
    lemma_sub_slice(ws, pos, f, o4, fm);
    assert(f[o5] == v.tx_cache.len() as u64);
    lemma_sub_slice(ws, pos, f, o5, seq![v.tx_cache.len() as u64]);
    assert(forall|k: int| 0 <= k < ft.len() ==> f[o6 + k] == ft[k]);
    lemma_sub_slice(ws, pos, f, o6, ft);
    assert(ws[pos + 1] as nat == v.descriptors.len());
    lemma_rt_descriptors(v.descriptors, ws, pos + 2);
    assert(ws[pos + o1] as nat == v.block_info.len());
    lemma_rt_blocks(v.block_info, ws, pos + o2);
    assert(ws[pos + o3] as nat == v.mine_info.len());
    lemma_rt_mine(v.mine_info, ws, pos + o4);
    assert(ws[pos + o5] as nat == v.tx_cache.len());
    lemma_rt_txs(v.tx_cache, ws, pos + o6);
    assert(ws[pos] as u32 == v.known_height);
    assert(parse_cache(ws, pos) == Some(
        (
            CacheView {
                known_height: ws[pos] as u32,
                descriptors: v.descriptors,
                block_info: v.block_info,
                mine_info: v.mine_info,
                tx_cache: v.tx_cache,
            },
            pos + f.len(),
        ),
    ));
}

// ----- the codec's contract -----

/// The state a whole word sequence describes: one cache, nothing
/// trailing.
pub open spec fn decode_words(ws: Seq<u64>) -> Option<CacheView> {
    match parse_cache(ws, 0) {
        Some((v, p)) => if p == ws.len() {
            Some(v)
        } else {
            None
        },
        None => None,
    }
}

impl Cache {
    /// The bytes the compact encoding writes for this state.
    pub open spec fn encode_spec(self) -> Seq<u8> {
        bytes_of(flat_cache(self.deep()))
    }

    /// The state a persisted file describes, if it is well formed.
    pub open spec fn decode_spec(b: Seq<u8>) -> Option<CacheView> {
        if b.len() % 8 == 0 {
            decode_words(words_of(b))
        } else {
            None
        }
    }
}

/// Round trip: decoding what encoding wrote yields the original state.
/// The further clauses hand a caller exactly what
/// [`Cache::from_bytes`]'s acceptance clause asks, so the executable
/// decoder provably accepts every file the encoder writes.  Together
/// with the write-through policy this means that reopening the
/// persisted file after any successful mutating call yields exactly the
/// state that call left behind.
pub proof fn lemma_roundtrip(c: Cache)
    requires
        c.wf(),
        c.deep().bounded(),
    ensures
        Cache::decode_spec(c.encode_spec()) == Some(c.deep()),
        view_wf(c.deep()),
        bytes_of(flat_cache(c.deep())) == c.encode_spec(),
{
    let v = c.deep();
    let ws = flat_cache(v);
    lemma_wf_deep(c);
    assert(ws.subrange(0, ws.len() as int) =~= ws);
    lemma_rt_cache(v, ws, 0);
    lemma_words_of_bytes(ws);
    assert(bytes_of(ws).len() % 8 == 0);
}

// ----- writing the words -----

proof fn lemma_flat_derivs_append(a: Seq<(Address, UnhardenedIndex)>, b: Seq<(Address, UnhardenedIndex)>)
    ensures
        flat_derivs(a + b) == flat_derivs(a) + flat_derivs(b),
    decreases a.len(),
{
    if a.len() == 0 {
        assert(a + b =~= b);
        assert(flat_derivs(a) + flat_derivs(b) =~= flat_derivs(b));
    } else {
        lemma_flat_derivs_append(a.drop_first(), b);
        assert((a + b).first() == a.first());
        assert((a + b).drop_first() =~= a.drop_first() + b);
        assert(seq![a.first().0.id, a.first().1.index as u64] + (flat_derivs(a.drop_first())
            + flat_derivs(b)) =~= (seq![a.first().0.id, a.first().1.index as u64] + flat_derivs(
            a.drop_first(),
        )) + flat_derivs(b));
    }
}

proof fn lemma_flat_outpoints_append(a: Seq<OutPoint>, b: Seq<OutPoint>)
    ensures
        flat_outpoints(a + b) == flat_outpoints(a) + flat_outpoints(b),
    decreases a.len(),
{
    if a.len() == 0 {
        assert(a + b =~= b);
        assert(flat_outpoints(a) + flat_outpoints(b) =~= flat_outpoints(b));
    } else {
        lemma_flat_outpoints_append(a.drop_first(), b);
        assert((a + b).first() == a.first());
        assert((a + b).drop_first() =~= a.drop_first() + b);
        assert(seq![a.first().txid.id, a.first().vout as u64] + (flat_outpoints(a.drop_first())
            + flat_outpoints(b)) =~= (seq![a.first().txid.id, a.first().vout as u64]
            + flat_outpoints(a.drop_first())) + flat_outpoints(b));
    }
}

proof fn lemma_flat_utxos_append(a: Seq<Utxo>, b: Seq<Utxo>)
    ensures
        flat_utxos(a + b) == flat_utxos(a) + flat_utxos(b),
    decreases a.len(),
{
    if a.len() == 0 {
        assert(a + b =~= b);
        assert(flat_utxos(a) + flat_utxos(b) =~= flat_utxos(b));
    } else {
        lemma_flat_utxos_append(a.drop_first(), b);
        assert((a + b).first() == a.first());
        assert((a + b).drop_first() =~= a.drop_first() + b);
        let h = seq![a.first().outpoint.txid.id, a.first().outpoint.vout as u64, a.first().amount];
        assert(h + (flat_utxos(a.drop_first()) + flat_utxos(b)) =~= (h + flat_utxos(
            a.drop_first(),
        )) + flat_utxos(b));
    }
}

proof fn lemma_flat_unspent_append(
    a: Seq<(RgbContractId, Seq<Utxo>)>,
    b: Seq<(RgbContractId, Seq<Utxo>)>,
)
    ensures
        flat_unspent(a + b) == flat_unspent(a) + flat_unspent(b),
    decreases a.len(),
{
    if a.len() == 0 {
        assert(a + b =~= b);
        assert(flat_unspent(a) + flat_unspent(b) =~= flat_unspent(b));
    } else {
        lemma_flat_unspent_append(a.drop_first(), b);
        assert((a + b).first() == a.first());
        assert((a + b).drop_first() =~= a.drop_first() + b);
        let h = seq![a.first().0.id, a.first().1.len() as u64] + flat_utxos(a.first().1);
        assert(h + (flat_unspent(a.drop_first()) + flat_unspent(b)) =~= (h + flat_unspent(
            a.drop_first(),
        )) + flat_unspent(b));
        assert(flat_unspent(a + b) =~= h + (flat_unspent(a.drop_first()) + flat_unspent(b)));
        assert(flat_unspent(a) =~= h + flat_unspent(a.drop_first()));
    }
}

proof fn lemma_flat_blocks_append(a: Seq<(BlockHash, u64)>, b: Seq<(BlockHash, u64)>)
    ensures
        flat_blocks(a + b) == flat_blocks(a) + flat_blocks(b),
    decreases a.len(),
{
    if a.len() == 0 {
        assert(a + b =~= b);
        assert(flat_blocks(a) + flat_blocks(b) =~= flat_blocks(b));
    } else {
        lemma_flat_blocks_append(a.drop_first(), b);
        assert((a + b).first() == a.first());
        assert((a + b).drop_first() =~= a.drop_first() + b);
        assert(seq![a.first().0.id, a.first().1] + (flat_blocks(a.drop_first()) + flat_blocks(b))
            =~= (seq![a.first().0.id, a.first().1] + flat_blocks(a.drop_first())) + flat_blocks(b));
    }
}

proof fn lemma_flat_mine_append(a: Seq<((u32, u16), Txid)>, b: Seq<((u32, u16), Txid)>)
    ensures
        flat_mine(a + b) == flat_mine(a) + flat_mine(b),
    decreases a.len(),
{
    if a.len() == 0 {
        assert(a + b =~= b);
        assert(flat_mine(a) + flat_mine(b) =~= flat_mine(b));
    } else {
        lemma_flat_mine_append(a.drop_first(), b);
        assert((a + b).first() == a.first());
        assert((a + b).drop_first() =~= a.drop_first() + b);
        let h = seq![a.first().0.0 as u64, a.first().0.1 as u64, a.first().1.id];
        assert(h + (flat_mine(a.drop_first()) + flat_mine(b)) =~= (h + flat_mine(a.drop_first()))
            + flat_mine(b));
    }
}

proof fn lemma_flat_txs_append(a: Seq<(Txid, Seq<u8>)>, b: Seq<(Txid, Seq<u8>)>)
    ensures
        flat_txs(a + b) == flat_txs(a) + flat_txs(b),
    decreases a.len(),
{
    if a.len() == 0 {
        assert(a + b =~= b);
        assert(flat_txs(a) + flat_txs(b) =~= flat_txs(b));
    } else {
        lemma_flat_txs_append(a.drop_first(), b);
        assert((a + b).first() == a.first());
        assert((a + b).drop_first() =~= a.drop_first() + b);
        let h = seq![a.first().0.id, a.first().1.len() as u64] + flat_body(a.first().1);
        assert(h + (flat_txs(a.drop_first()) + flat_txs(b)) =~= (h + flat_txs(a.drop_first()))
            + flat_txs(b));
        assert(flat_txs(a + b) =~= h + (flat_txs(a.drop_first()) + flat_txs(b)));
        assert(flat_txs(a) =~= h + flat_txs(a.drop_first()));
    }
}

proof fn lemma_flat_descriptors_append(a: Seq<(ContractId, CcView)>, b: Seq<(ContractId, CcView)>)
    ensures
        flat_descriptors(a + b) == flat_descriptors(a) + flat_descriptors(b),
    decreases a.len(),
{
    if a.len() == 0 {
        assert(a + b =~= b);
        assert(flat_descriptors(a) + flat_descriptors(b) =~= flat_descriptors(b));
    } else {
        lemma_flat_descriptors_append(a.drop_first(), b);
        assert((a + b).first() == a.first());
        assert((a + b).drop_first() =~= a.drop_first() + b);
        let h = seq![a.first().0.id] + flat_cc(a.first().1);
        assert(h + (flat_descriptors(a.drop_first()) + flat_descriptors(b)) =~= (h
            + flat_descriptors(a.drop_first())) + flat_descriptors(b));
        assert(flat_descriptors(a + b) =~= h + (flat_descriptors(a.drop_first())
            + flat_descriptors(b)));
        assert(flat_descriptors(a) =~= h + flat_descriptors(a.drop_first()));
    }
}

/// The unspent field read entry-deep, as [`ContractCache::deep`] reads it.
pub open spec fn unspent_deep(s: Seq<(RgbContractId, Vec<Utxo>)>) -> Seq<(RgbContractId, Seq<Utxo>)> {
    Seq::new(s.len(), |i: int| (s[i].0, s[i].1@))
}

fn enc_derivs(v: &Vec<(Address, UnhardenedIndex)>, out: &mut Vec<u64>)
    ensures
        final(out)@ == old(out)@ + flat_derivs(v@),
{
    let ghost o0 = out@;
    let mut i: usize = 0;
    proof {
        assert(v@.take(0) =~= Seq::<(Address, UnhardenedIndex)>::empty());
        assert(o0 + flat_derivs(v@.take(0)) =~= o0);
    }
    while i < v.len()
        invariant
            i <= v@.len(),
            out@ == o0 + flat_derivs(v@.take(i as int)),
        decreases v@.len() - i,
    {
        let e = v[i];
        out.push(e.0.id);
        out.push(e.1.index as u64);
        proof {
            assert(v@.take(i as int + 1) =~= v@.take(i as int) + seq![e]);
            lemma_flat_derivs_append(v@.take(i as int), seq![e]);
            assert(flat_derivs(seq![e]) =~= seq![e.0.id, e.1.index as u64]) by {
                assert(seq![e].drop_first() =~= Seq::<(Address, UnhardenedIndex)>::empty());
                assert(flat_derivs(Seq::<(Address, UnhardenedIndex)>::empty()) == Seq::<u64>::empty());
                assert(seq![e].first() == e);
                assert(seq![e.0.id, e.1.index as u64] + Seq::<u64>::empty() =~= seq![e.0.id, e.1.index as u64]);
            }
            assert(out@ =~= o0 + flat_derivs(v@.take(i as int + 1)));
        }
        i += 1;
    }
    proof {
        assert(v@.take(v@.len() as int) =~= v@);
    }
}

fn enc_outpoints(v: &Vec<OutPoint>, out: &mut Vec<u64>)
    ensures
        final(out)@ == old(out)@ + flat_outpoints(v@),
{
    let ghost o0 = out@;
    let mut i: usize = 0;
    proof {
        assert(v@.take(0) =~= Seq::<OutPoint>::empty());
        assert(o0 + flat_outpoints(v@.take(0)) =~= o0);
    }
    while i < v.len()
        invariant
            i <= v@.len(),
            out@ == o0 + flat_outpoints(v@.take(i as int)),
        decreases v@.len() - i,
    {
        let e = v[i];
        out.push(e.txid.id);
        out.push(e.vout as u64);
        proof {
            assert(v@.take(i as int + 1) =~= v@.take(i as int) + seq![e]);
            lemma_flat_outpoints_append(v@.take(i as int), seq![e]);
            assert(flat_outpoints(seq![e]) =~= seq![e.txid.id, e.vout as u64]) by {
                assert(seq![e].drop_first() =~= Seq::<OutPoint>::empty());
                assert(flat_outpoints(Seq::<OutPoint>::empty()) == Seq::<u64>::empty());
                assert(seq![e].first() == e);
                assert(seq![e.txid.id, e.vout as u64] + Seq::<u64>::empty() =~= seq![e.txid.id, e.vout as u64]);
            }
            assert(out@ =~= o0 + flat_outpoints(v@.take(i as int + 1)));
        }
        i += 1;
    }
    proof {
        assert(v@.take(v@.len() as int) =~= v@);
    }
}

fn enc_utxos(v: &Vec<Utxo>, out: &mut Vec<u64>)
    ensures
        final(out)@ == old(out)@ + flat_utxos(v@),
{
    let ghost o0 = out@;
    let mut i: usize = 0;
    proof {
        assert(v@.take(0) =~= Seq::<Utxo>::empty());
        assert(o0 + flat_utxos(v@.take(0)) =~= o0);
    }
    while i < v.len()
        invariant
            i <= v@.len(),
            out@ == o0 + flat_utxos(v@.take(i as int)),
        decreases v@.len() - i,
    {
        let e = v[i];
        out.push(e.outpoint.txid.id);
        out.push(e.outpoint.vout as u64);
        out.push(e.amount);
        proof {
            assert(v@.take(i as int + 1) =~= v@.take(i as int) + seq![e]);
            lemma_flat_utxos_append(v@.take(i as int), seq![e]);
            let h = seq![e.outpoint.txid.id, e.outpoint.vout as u64, e.amount];
            assert(flat_utxos(seq![e]) =~= h) by {
                assert(seq![e].drop_first() =~= Seq::<Utxo>::empty());
                assert(flat_utxos(Seq::<Utxo>::empty()) == Seq::<u64>::empty());
                assert(seq![e].first() == e);
                assert(h + Seq::<u64>::empty() =~= h);
            }
            assert(out@ =~= o0 + flat_utxos(v@.take(i as int + 1)));
        }
        i += 1;
    }
    proof {
        assert(v@.take(v@.len() as int) =~= v@);
    }
}

fn enc_unspent(v: &Vec<(RgbContractId, Vec<Utxo>)>, out: &mut Vec<u64>)
    ensures
        final(out)@ == old(out)@ + flat_unspent(unspent_deep(v@)),
{
    let ghost o0 = out@;
    let mut i: usize = 0;
    proof {
        assert(unspent_deep(v@.take(0)) =~= Seq::<(RgbContractId, Seq<Utxo>)>::empty());
        assert(o0 + flat_unspent(unspent_deep(v@.take(0))) =~= o0);
    }
    while i < v.len()
        invariant
            i <= v@.len(),
            out@ == o0 + flat_unspent(unspent_deep(v@.take(i as int))),
        decreases v@.len() - i,
    {
        let key = v[i].0;
        out.push(key.id);
        out.push(v[i].1.len() as u64);
        enc_utxos(&v[i].1, out);
        proof {
            let e = (key, v@[i as int].1@);
            assert(unspent_deep(v@.take(i as int + 1)) =~= unspent_deep(v@.take(i as int))
                + seq![e]);
            lemma_flat_unspent_append(unspent_deep(v@.take(i as int)), seq![e]);
            let h = seq![e.0.id, e.1.len() as u64] + flat_utxos(e.1);
            assert(flat_unspent(seq![e]) =~= h) by {
                assert(seq![e].drop_first() =~= Seq::<(RgbContractId, Seq<Utxo>)>::empty());
                assert(flat_unspent(Seq::<(RgbContractId, Seq<Utxo>)>::empty()) == Seq::<u64>::empty());
                assert(seq![e].first() == e);
                assert(h + Seq::<u64>::empty() =~= h);
            }
            assert(out@ =~= o0 + flat_unspent(unspent_deep(v@.take(i as int + 1))));
        }
        i += 1;
    }
    proof {
        assert(v@.take(v@.len() as int) =~= v@);
        assert(unspent_deep(v@.take(v@.len() as int)) =~= unspent_deep(v@));
    }
}

fn enc_cc(cc: &ContractCache, out: &mut Vec<u64>)
    ensures
        final(out)@ == old(out)@ + flat_cc(cc.deep()),
{
    let ghost o0 = out@;
    out.push(cc.updated_height as u64);
    out.push(cc.used_address_derivations.len() as u64);
    enc_derivs(&cc.used_address_derivations, out);
    out.push(cc.utxo.len() as u64);
    enc_outpoints(&cc.utxo, out);
    out.push(cc.unspent.len() as u64);
    enc_unspent(&cc.unspent, out);
    proof {
        let v = cc.deep();
        assert(v.unspent =~= unspent_deep(cc.unspent@));
        assert(out@ =~= o0 + flat_cc(v));
    }
}

fn enc_blocks(v: &Vec<(BlockHash, u64)>, out: &mut Vec<u64>)
    ensures
        final(out)@ == old(out)@ + flat_blocks(v@),
{
    let ghost o0 = out@;
    let mut i: usize = 0;
    proof {
        assert(v@.take(0) =~= Seq::<(BlockHash, u64)>::empty());
        assert(o0 + flat_blocks(v@.take(0)) =~= o0);
    }
    while i < v.len()
        invariant
            i <= v@.len(),
            out@ == o0 + flat_blocks(v@.take(i as int)),
        decreases v@.len() - i,
    {
        let e = v[i];
        out.push(e.0.id);
        out.push(e.1);
        proof {
            assert(v@.take(i as int + 1) =~= v@.take(i as int) + seq![e]);
            lemma_flat_blocks_append(v@.take(i as int), seq![e]);
            assert(flat_blocks(seq![e]) =~= seq![e.0.id, e.1]) by {
                assert(seq![e].drop_first() =~= Seq::<(BlockHash, u64)>::empty());
                assert(flat_blocks(Seq::<(BlockHash, u64)>::empty()) == Seq::<u64>::empty());
                assert(seq![e].first() == e);
                assert(seq![e.0.id, e.1] + Seq::<u64>::empty() =~= seq![e.0.id, e.1]);
            }
            assert(out@ =~= o0 + flat_blocks(v@.take(i as int + 1)));
        }
        i += 1;
    }
    proof {
        assert(v@.take(v@.len() as int) =~= v@);
    }
}

fn enc_mine(v: &Vec<((u32, u16), Txid)>, out: &mut Vec<u64>)
    ensures
        final(out)@ == old(out)@ + flat_mine(v@),
{
    let ghost o0 = out@;
    let mut i: usize = 0;
    proof {
        assert(v@.take(0) =~= Seq::<((u32, u16), Txid)>::empty());
        assert(o0 + flat_mine(v@.take(0)) =~= o0);
    }
    while i < v.len()
        invariant
            i <= v@.len(),
            out@ == o0 + flat_mine(v@.take(i as int)),
        decreases v@.len() - i,
    {
        let e = v[i];
        out.push(e.0.0 as u64);
        out.push(e.0.1 as u64);
        out.push(e.1.id);
        proof {
            assert(v@.take(i as int + 1) =~= v@.take(i as int) + seq![e]);
            lemma_flat_mine_append(v@.take(i as int), seq![e]);
            let h = seq![e.0.0 as u64, e.0.1 as u64, e.1.id];
            assert(flat_mine(seq![e]) =~= h) by {
                assert(seq![e].drop_first() =~= Seq::<((u32, u16), Txid)>::empty());
                assert(flat_mine(Seq::<((u32, u16), Txid)>::empty()) == Seq::<u64>::empty());
                assert(seq![e].first() == e);
                assert(h + Seq::<u64>::empty() =~= h);
            }
            assert(out@ =~= o0 + flat_mine(v@.take(i as int + 1)));
        }
        i += 1;
    }
    proof {
        assert(v@.take(v@.len() as int) =~= v@);
    }
}

fn enc_body(b: &Vec<u8>, out: &mut Vec<u64>)
    ensures
        final(out)@ == old(out)@ + flat_body(b@),
{
    let ghost o0 = out@;
    let mut i: usize = 0;
    while i < b.len()
        invariant
            i <= b@.len(),
            out@.len() == o0.len() + i,
            forall|k: int| 0 <= k < o0.len() ==> out@[k] == o0[k],
            forall|k: int| 0 <= k < i ==> out@[o0.len() + k] == b@[k] as u64,
        decreases b@.len() - i,
    {
        out.push(b[i] as u64);
        i += 1;
    }
    proof {
        assert(out@ =~= o0 + flat_body(b@));
    }
}

/// The tx cache read entry-deep, as [`Cache::deep`] reads it.
pub open spec fn tx_deep(s: Seq<(Txid, Transaction)>) -> Seq<(Txid, Seq<u8>)> {
    Seq::new(s.len(), |i: int| (s[i].0, s[i].1.data@))
}

fn enc_txs(v: &Vec<(Txid, Transaction)>, out: &mut Vec<u64>)
    ensures
        final(out)@ == old(out)@ + flat_txs(tx_deep(v@)),
{
    let ghost o0 = out@;
    let mut i: usize = 0;
    proof {
        assert(tx_deep(v@.take(0)) =~= Seq::<(Txid, Seq<u8>)>::empty());
        assert(o0 + flat_txs(tx_deep(v@.take(0))) =~= o0);
    }
    while i < v.len()
        invariant
            i <= v@.len(),
            out@ == o0 + flat_txs(tx_deep(v@.take(i as int))),
        decreases v@.len() - i,
    {
        let key = v[i].0;
        out.push(key.id);
        out.push(v[i].1.data.len() as u64);
        enc_body(&v[i].1.data, out);
        proof {
            let e = (key, v@[i as int].1.data@);
            assert(tx_deep(v@.take(i as int + 1)) =~= tx_deep(v@.take(i as int)) + seq![e]);
            lemma_flat_txs_append(tx_deep(v@.take(i as int)), seq![e]);
            let h = seq![e.0.id, e.1.len() as u64] + flat_body(e.1);
            assert(flat_txs(seq![e]) =~= h) by {
                assert(seq![e].drop_first() =~= Seq::<(Txid, Seq<u8>)>::empty());
                assert(flat_txs(Seq::<(Txid, Seq<u8>)>::empty()) == Seq::<u64>::empty());
                assert(seq![e].first() == e);
                assert(h + Seq::<u64>::empty() =~= h);
            }
            assert(out@ =~= o0 + flat_txs(tx_deep(v@.take(i as int + 1))));
        }
        i += 1;
    }
    proof {
        assert(v@.take(v@.len() as int) =~= v@);
        assert(tx_deep(v@.take(v@.len() as int)) =~= tx_deep(v@));
    }
}

fn enc_descriptors(v: &Vec<(ContractId, ContractCache)>, out: &mut Vec<u64>)
    ensures
        final(out)@ == old(out)@ + flat_descriptors(
            Seq::new(v@.len(), |i: int| (v@[i].0, v@[i].1.deep())),
        ),
{
    let ghost o0 = out@;
    let ghost deep = Seq::new(v@.len(), |i: int| (v@[i].0, v@[i].1.deep()));
    let mut i: usize = 0;
    proof {
        assert(Seq::new(v@.take(0).len(), |k: int| (v@.take(0)[k].0, v@.take(0)[k].1.deep()))
            =~= Seq::<(ContractId, CcView)>::empty());
        assert(o0 + flat_descriptors(Seq::<(ContractId, CcView)>::empty()) =~= o0);
        assert(deep.take(0) =~= Seq::<(ContractId, CcView)>::empty());
    }
    while i < v.len()
        invariant
            i <= v@.len(),
            deep == Seq::new(v@.len(), |k: int| (v@[k].0, v@[k].1.deep())),
            out@ == o0 + flat_descriptors(deep.take(i as int)),
        decreases v@.len() - i,
    {
        let key = v[i].0;
        out.push(key.id);
        enc_cc(&v[i].1, out);
        proof {
            let e = (key, v@[i as int].1.deep());
            assert(deep.take(i as int + 1) =~= deep.take(i as int) + seq![e]);
            lemma_flat_descriptors_append(deep.take(i as int), seq![e]);
            let h = seq![e.0.id] + flat_cc(e.1);
            assert(flat_descriptors(seq![e]) =~= h) by {
                assert(seq![e].drop_first() =~= Seq::<(ContractId, CcView)>::empty());
                assert(flat_descriptors(Seq::<(ContractId, CcView)>::empty()) == Seq::<u64>::empty());
                assert(seq![e].first() == e);
                assert(h + Seq::<u64>::empty() =~= h);
            }
            assert(out@ =~= o0 + flat_descriptors(deep.take(i as int + 1)));
        }
        i += 1;
    }
    proof {
        assert(deep.take(deep.len() as int) =~= deep);
    }
}

impl Cache {
    /// Serializes the whole state in the compact binary encoding.
    pub fn to_bytes(&self) -> (r: Vec<u8>)
        ensures
            r@ == self.encode_spec(),
    {
        let mut ws: Vec<u64> = Vec::new();
        ws.push(self.known_height as u64);
        ws.push(self.descriptors.len() as u64);
        enc_descriptors(&self.descriptors, &mut ws);
        ws.push(self.block_info.len() as u64);
        enc_blocks(&self.block_info, &mut ws);
        ws.push(self.mine_info.len() as u64);
        enc_mine(&self.mine_info, &mut ws);
        ws.push(self.tx_cache.len() as u64);
        enc_txs(&self.tx_cache, &mut ws);
        proof {
            let v = self.deep();
            assert(v.descriptors =~= Seq::new(
                self.descriptors@.len(),
                |i: int| (self.descriptors@[i].0, self.descriptors@[i].1.deep()),
            ));
            assert(v.tx_cache =~= tx_deep(self.tx_cache@));
            assert(ws@ =~= flat_cache(v));
        }
        words_to_bytes(&ws)
    }
}

// ----- reading the words back -----
//
// Each decoder's contract ties it to the spec-level parser exactly: it
// succeeds with precisely the parsed value where the parser succeeds,
// and fails where the parser fails.  That is what lets the round trip
// proved of the parser reach the executable decoder.

fn dec_derivs(ws: &Vec<u64>, pos: usize, n: u64) -> (r: Option<(Vec<(Address, UnhardenedIndex)>, usize)>)
    requires
        pos <= ws@.len(),
    ensures
        match r {
            Some((v, p)) => pos <= p <= ws@.len() && parse_derivs(ws@, pos as int, n as nat)
                == Some((v@, p as int)),
            None => parse_derivs(ws@, pos as int, n as nat) is None,
        },
{
    let mut acc: Vec<(Address, UnhardenedIndex)> = Vec::new();
    let mut cur: usize = pos;
    let mut i: u64 = 0;
    while i < n
        invariant
            i <= n,
            pos <= cur <= ws@.len(),
            ({
                let full = parse_derivs(ws@, pos as int, n as nat);
                let rest = parse_derivs(ws@, cur as int, (n - i) as nat);
                match rest {
                    Some((tail, p)) => full == Some((acc@ + tail, p)),
                    None => full is None,
                }
            }),
        decreases n - i,
    {
        if ws.len() < 2 || cur > ws.len() - 2 {
            proof {
                assert(parse_derivs(ws@, cur as int, (n - i) as nat) is None);
            }
            return None;
        }
        let ix = ws[cur + 1];
        if ix > 0x7FFF_FFFF {
            proof {
                assert(parse_derivs(ws@, cur as int, (n - i) as nat) is None);
            }
            return None;
        }
        let e = (Address { id: ws[cur] }, UnhardenedIndex { index: ix as u32 });
        let ghost a0 = acc@;
        acc.push(e);
        proof {
            let rest = parse_derivs(ws@, cur as int, (n - i) as nat);
            let rest2 = parse_derivs(ws@, cur as int + 2, (n - i - 1) as nat);
            match rest2 {
                Some((t, p)) => {
                    assert(rest == Some((seq![e] + t, p)));
                    assert(a0 + (seq![e] + t) =~= acc@ + t);
                },
                None => {
                    assert(rest is None);
                },
            }
        }
        cur += 2;
        i += 1;
    }
    proof {
        assert(parse_derivs(ws@, cur as int, 0) == Some(
            (Seq::<(Address, UnhardenedIndex)>::empty(), cur as int),
        ));
        assert(acc@ + Seq::<(Address, UnhardenedIndex)>::empty() =~= acc@);
    }
    Some((acc, cur))
}

fn dec_outpoints(ws: &Vec<u64>, pos: usize, n: u64) -> (r: Option<(Vec<OutPoint>, usize)>)
    requires
        pos <= ws@.len(),
    ensures
        match r {
            Some((v, p)) => pos <= p <= ws@.len() && parse_outpoints(ws@, pos as int, n as nat)
                == Some((v@, p as int)),
            None => parse_outpoints(ws@, pos as int, n as nat) is None,
        },
{
    let mut acc: Vec<OutPoint> = Vec::new();
    let mut cur: usize = pos;
    let mut i: u64 = 0;
    while i < n
        invariant
            i <= n,
            pos <= cur <= ws@.len(),
            ({
                let full = parse_outpoints(ws@, pos as int, n as nat);
                let rest = parse_outpoints(ws@, cur as int, (n - i) as nat);
                match rest {
                    Some((tail, p)) => full == Some((acc@ + tail, p)),
                    None => full is None,
                }
            }),
        decreases n - i,
    {
        if ws.len() < 2 || cur > ws.len() - 2 {
            proof {
                assert(parse_outpoints(ws@, cur as int, (n - i) as nat) is None);
            }
            return None;
        }
        let vout = ws[cur + 1];
        if vout > 0xFFFF_FFFF {
            proof {
                assert(parse_outpoints(ws@, cur as int, (n - i) as nat) is None);
            }
            return None;
        }
        let e = OutPoint { txid: Txid { id: ws[cur] }, vout: vout as u32 };
        let ghost a0 = acc@;
        acc.push(e);
        proof {
            let rest = parse_outpoints(ws@, cur as int, (n - i) as nat);
            let rest2 = parse_outpoints(ws@, cur as int + 2, (n - i - 1) as nat);
            match rest2 {
                Some((t, p)) => {
                    assert(rest == Some((seq![e] + t, p)));
                    assert(a0 + (seq![e] + t) =~= acc@ + t);
                },
                None => {
                    assert(rest is None);
                },
            }
        }
        cur += 2;
        i += 1;
    }
    proof {
        assert(parse_outpoints(ws@, cur as int, 0) == Some((Seq::<OutPoint>::empty(), cur as int)));
        assert(acc@ + Seq::<OutPoint>::empty() =~= acc@);
    }
    Some((acc, cur))
}

fn dec_utxos(ws: &Vec<u64>, pos: usize, n: u64) -> (r: Option<(Vec<Utxo>, usize)>)
    requires
        pos <= ws@.len(),
    ensures
        match r {
            Some((v, p)) => pos <= p <= ws@.len() && parse_utxos(ws@, pos as int, n as nat)
                == Some((v@, p as int)),
            None => parse_utxos(ws@, pos as int, n as nat) is None,
        },
{
    let mut acc: Vec<Utxo> = Vec::new();
    let mut cur: usize = pos;
    let mut i: u64 = 0;
    while i < n
        invariant
            i <= n,
            pos <= cur <= ws@.len(),
            ({
                let full = parse_utxos(ws@, pos as int, n as nat);
                let rest = parse_utxos(ws@, cur as int, (n - i) as nat);
                match rest {
                    Some((tail, p)) => full == Some((acc@ + tail, p)),
                    None => full is None,
                }
            }),
        decreases n - i,
    {
        if ws.len() < 3 || cur > ws.len() - 3 {
            proof {
                assert(parse_utxos(ws@, cur as int, (n - i) as nat) is None);
            }
            return None;
        }
        let vout = ws[cur + 1];
        if vout > 0xFFFF_FFFF {
            proof {
                assert(parse_utxos(ws@, cur as int, (n - i) as nat) is None);
            }
            return None;
        }
        let e = Utxo {
            outpoint: OutPoint { txid: Txid { id: ws[cur] }, vout: vout as u32 },
            amount: ws[cur + 2],
        };
        let ghost a0 = acc@;
        acc.push(e);
        proof {
            let rest = parse_utxos(ws@, cur as int, (n - i) as nat);
            let rest2 = parse_utxos(ws@, cur as int + 3, (n - i - 1) as nat);
            match rest2 {
                Some((t, p)) => {
                    assert(rest == Some((seq![e] + t, p)));
                    assert(a0 + (seq![e] + t) =~= acc@ + t);
                },
                None => {
                    assert(rest is None);
                },
            }
        }
        cur += 3;
        i += 1;
    }
    proof {
        assert(parse_utxos(ws@, cur as int, 0) == Some((Seq::<Utxo>::empty(), cur as int)));
        assert(acc@ + Seq::<Utxo>::empty() =~= acc@);
    }
    Some((acc, cur))
}

fn dec_unspent(ws: &Vec<u64>, pos: usize, n: u64) -> (r: Option<
    (Vec<(RgbContractId, Vec<Utxo>)>, usize),
>)
    requires
        pos <= ws@.len(),
    ensures
        match r {
            Some((v, p)) => pos <= p <= ws@.len() && parse_unspent(ws@, pos as int, n as nat)
                == Some((unspent_deep(v@), p as int)),
            None => parse_unspent(ws@, pos as int, n as nat) is None,
        },
{
    let mut acc: Vec<(RgbContractId, Vec<Utxo>)> = Vec::new();
    let mut cur: usize = pos;
    let mut i: u64 = 0;
    proof {
        assert(unspent_deep(acc@) =~= Seq::<(RgbContractId, Seq<Utxo>)>::empty());
    }
    while i < n
        invariant
            i <= n,
            pos <= cur <= ws@.len(),
            ({
                let full = parse_unspent(ws@, pos as int, n as nat);
                let rest = parse_unspent(ws@, cur as int, (n - i) as nat);
                match rest {
                    Some((tail, p)) => full == Some((unspent_deep(acc@) + tail, p)),
                    None => full is None,
                }
            }),
        decreases n - i,
    {
        if ws.len() < 2 || cur > ws.len() - 2 {
            proof {
                assert(parse_unspent(ws@, cur as int, (n - i) as nat) is None);
            }
            return None;
        }
        let key = RgbContractId { id: ws[cur] };
        let count = ws[cur + 1];
        match dec_utxos(ws, cur + 2, count) {
            Some((us, p)) => {
                let ghost a0 = acc@;
                let ghost usv = us@;
                proof {
                    let rest = parse_unspent(ws@, cur as int, (n - i) as nat);
                    let rest2 = parse_unspent(ws@, p as int, (n - i - 1) as nat);
                    match rest2 {
                        Some((t, q)) => {
                            assert(rest == Some((seq![(key, usv)] + t, q)));
                        },
                        None => {
                            assert(rest is None);
                        },
                    }
                }
                acc.push((key, us));
                proof {
                    assert(unspent_deep(acc@) =~= unspent_deep(a0) + seq![(key, usv)]);
                    let rest2 = parse_unspent(ws@, p as int, (n - i - 1) as nat);
                    match rest2 {
                        Some((t, q)) => {
                            assert(unspent_deep(a0) + (seq![(key, usv)] + t) =~= unspent_deep(acc@)
                                + t);
                        },
                        None => {},
                    }
                }
                cur = p;
            },
            None => {
                proof {
                    assert(parse_unspent(ws@, cur as int, (n - i) as nat) is None);
                }
                return None;
            },
        }
        i += 1;
    }
    proof {
        assert(parse_unspent(ws@, cur as int, 0) == Some(
            (Seq::<(RgbContractId, Seq<Utxo>)>::empty(), cur as int),
        ));
        assert(unspent_deep(acc@) + Seq::<(RgbContractId, Seq<Utxo>)>::empty() =~= unspent_deep(
            acc@,
        ));
    }
    Some((acc, cur))
}

fn dec_cc(ws: &Vec<u64>, pos: usize) -> (r: Option<(ContractCache, usize)>)
    requires
        pos <= ws@.len(),
    ensures
        match r {
            Some((cc, p)) => pos <= p <= ws@.len() && parse_cc(ws@, pos as int) == Some(
                (cc.deep(), p as int),
            ),
            None => parse_cc(ws@, pos as int) is None,
        },
{
    if ws.len() < 2 || pos > ws.len() - 2 {
        return None;
    }
    let height = ws[pos];
    if height > 0xFFFF_FFFF {
        return None;
    }
    let (derivs, p1) = match dec_derivs(ws, pos + 2, ws[pos + 1]) {
        Some(x) => x,
        None => {
            return None;
        },
    };
    if p1 >= ws.len() {
        return None;
    }
    let (utxo, p2) = match dec_outpoints(ws, p1 + 1, ws[p1]) {
        Some(x) => x,
        None => {
            return None;
        },
    };
    if p2 >= ws.len() {
        return None;
    }
    let (unspent, p3) = match dec_unspent(ws, p2 + 1, ws[p2]) {
        Some(x) => x,
        None => {
            return None;
        },
    };
    let ghost v = CcView {
        updated_height: height as u32,
        derivs: derivs@,
        utxo: utxo@,
        unspent: unspent_deep(unspent@),
    };
    let cc = ContractCache {
        updated_height: height as u32,
        used_address_derivations: derivs,
        utxo,
        unspent,
    };
    proof {
        assert(parse_cc(ws@, pos as int) == Some((v, p3 as int)));
        assert(cc.deep().unspent =~= unspent_deep(cc.unspent@));
        assert(cc.deep() == v);
    }
    Some((cc, p3))
}

/// The descriptor list read entry-deep, as [`Cache::deep`] reads it.
pub open spec fn descriptors_deep(s: Seq<(ContractId, ContractCache)>) -> Seq<(ContractId, CcView)> {
    Seq::new(s.len(), |i: int| (s[i].0, s[i].1.deep()))
}

fn dec_descriptors(ws: &Vec<u64>, pos: usize, n: u64) -> (r: Option<
    (Vec<(ContractId, ContractCache)>, usize),
>)
    requires
        pos <= ws@.len(),
    ensures
        match r {
            Some((v, p)) => pos <= p <= ws@.len() && parse_descriptors(ws@, pos as int, n as nat)
                == Some((descriptors_deep(v@), p as int)),
            None => parse_descriptors(ws@, pos as int, n as nat) is None,
        },
{
    let mut acc: Vec<(ContractId, ContractCache)> = Vec::new();
    let mut cur: usize = pos;
    let mut i: u64 = 0;
    proof {
        assert(descriptors_deep(acc@) =~= Seq::<(ContractId, CcView)>::empty());
    }
    while i < n
        invariant
            i <= n,
            pos <= cur <= ws@.len(),
            ({
                let full = parse_descriptors(ws@, pos as int, n as nat);
                let rest = parse_descriptors(ws@, cur as int, (n - i) as nat);
                match rest {
                    Some((tail, p)) => full == Some((descriptors_deep(acc@) + tail, p)),
                    None => full is None,
                }
            }),
        decreases n - i,
    {
        if cur >= ws.len() {
            proof {
                assert(parse_descriptors(ws@, cur as int, (n - i) as nat) is None);
            }
            return None;
        }
        let key = ContractId { id: ws[cur] };
        match dec_cc(ws, cur + 1) {
            Some((cc, p)) => {
                let ghost a0 = acc@;
                let ghost ccv = cc.deep();
                proof {
                    let rest = parse_descriptors(ws@, cur as int, (n - i) as nat);
                    let rest2 = parse_descriptors(ws@, p as int, (n - i - 1) as nat);
                    match rest2 {
                        Some((t, q)) => {
                            assert(rest == Some((seq![(key, ccv)] + t, q)));
                        },
                        None => {
                            assert(rest is None);
                        },
                    }
                }
                acc.push((key, cc));
                proof {
                    assert(descriptors_deep(acc@) =~= descriptors_deep(a0) + seq![(key, ccv)]);
                    let rest2 = parse_descriptors(ws@, p as int, (n - i - 1) as nat);
                    match rest2 {
                        Some((t, q)) => {
                            assert(descriptors_deep(a0) + (seq![(key, ccv)] + t)
                                =~= descriptors_deep(acc@) + t);
                        },
                        None => {},
                    }
                }
                cur = p;
            },
            None => {
                proof {
                    assert(parse_descriptors(ws@, cur as int, (n - i) as nat) is None);
                }
                return None;
            },
        }
        i += 1;
    }
    proof {
        assert(parse_descriptors(ws@, cur as int, 0) == Some(
            (Seq::<(ContractId, CcView)>::empty(), cur as int),
        ));
        assert(descriptors_deep(acc@) + Seq::<(ContractId, CcView)>::empty() =~= descriptors_deep(
            acc@,
        ));
    }
    Some((acc, cur))
}

fn dec_blocks(ws: &Vec<u64>, pos: usize, n: u64) -> (r: Option<(Vec<(BlockHash, u64)>, usize)>)
    requires
        pos <= ws@.len(),
    ensures
        match r {
            Some((v, p)) => pos <= p <= ws@.len() && parse_blocks(ws@, pos as int, n as nat)
                == Some((v@, p as int)),
            None => parse_blocks(ws@, pos as int, n as nat) is None,
        },
{
    let mut acc: Vec<(BlockHash, u64)> = Vec::new();
    let mut cur: usize = pos;
    let mut i: u64 = 0;
    while i < n
        invariant
            i <= n,
            pos <= cur <= ws@.len(),
            ({
                let full = parse_blocks(ws@, pos as int, n as nat);
                let rest = parse_blocks(ws@, cur as int, (n - i) as nat);
                match rest {
                    Some((tail, p)) => full == Some((acc@ + tail, p)),
                    None => full is None,
                }
            }),
        decreases n - i,
    {
        if ws.len() < 2 || cur > ws.len() - 2 {
            proof {
                assert(parse_blocks(ws@, cur as int, (n - i) as nat) is None);
            }
            return None;
        }
        let e = (BlockHash { id: ws[cur] }, ws[cur + 1]);
        let ghost a0 = acc@;
        acc.push(e);
        proof {
            let rest = parse_blocks(ws@, cur as int, (n - i) as nat);
            let rest2 = parse_blocks(ws@, cur as int + 2, (n - i - 1) as nat);
            match rest2 {
                Some((t, p)) => {
                    assert(rest == Some((seq![e] + t, p)));
                    assert(a0 + (seq![e] + t) =~= acc@ + t);
                },
                None => {
                    assert(rest is None);
                },
            }
        }
        cur += 2;
        i += 1;
    }
    proof {
        assert(parse_blocks(ws@, cur as int, 0) == Some(
            (Seq::<(BlockHash, u64)>::empty(), cur as int),
        ));
        assert(acc@ + Seq::<(BlockHash, u64)>::empty() =~= acc@);
    }
    Some((acc, cur))
}

fn dec_mine(ws: &Vec<u64>, pos: usize, n: u64) -> (r: Option<(Vec<((u32, u16), Txid)>, usize)>)
    requires
        pos <= ws@.len(),
    ensures
        match r {
            Some((v, p)) => pos <= p <= ws@.len() && parse_mine(ws@, pos as int, n as nat) == Some(
                (v@, p as int),
            ),
            None => parse_mine(ws@, pos as int, n as nat) is None,
        },
{
    let mut acc: Vec<((u32, u16), Txid)> = Vec::new();
    let mut cur: usize = pos;
    let mut i: u64 = 0;
    while i < n
        invariant
            i <= n,
            pos <= cur <= ws@.len(),
            ({
                let full = parse_mine(ws@, pos as int, n as nat);
                let rest = parse_mine(ws@, cur as int, (n - i) as nat);
                match rest {
                    Some((tail, p)) => full == Some((acc@ + tail, p)),
                    None => full is None,
                }
            }),
        decreases n - i,
    {
        if ws.len() < 3 || cur > ws.len() - 3 {
            proof {
                assert(parse_mine(ws@, cur as int, (n - i) as nat) is None);
            }
            return None;
        }
        let h = ws[cur];
        let off = ws[cur + 1];
        if h > 0xFFFF_FFFF || off > 0xFFFF {
            proof {
                assert(parse_mine(ws@, cur as int, (n - i) as nat) is None);
            }
            return None;
        }
        let e = ((h as u32, off as u16), Txid { id: ws[cur + 2] });
        let ghost a0 = acc@;
        acc.push(e);
        proof {
            let rest = parse_mine(ws@, cur as int, (n - i) as nat);
            let rest2 = parse_mine(ws@, cur as int + 3, (n - i - 1) as nat);
            match rest2 {
                Some((t, p)) => {
                    assert(rest == Some((seq![e] + t, p)));
                    assert(a0 + (seq![e] + t) =~= acc@ + t);
                },
                None => {
                    assert(rest is None);
                },
            }
        }
        cur += 3;
        i += 1;
    }
    proof {
        assert(parse_mine(ws@, cur as int, 0) == Some(
            (Seq::<((u32, u16), Txid)>::empty(), cur as int),
        ));
        assert(acc@ + Seq::<((u32, u16), Txid)>::empty() =~= acc@);
    }
    Some((acc, cur))
}

fn dec_body(ws: &Vec<u64>, pos: usize, n: u64) -> (r: Option<(Vec<u8>, usize)>)
    requires
        pos <= ws@.len(),
    ensures
        match r {
            Some((v, p)) => pos <= p <= ws@.len() && parse_body(ws@, pos as int, n as nat) == Some(
                (v@, p as int),
            ),
            None => parse_body(ws@, pos as int, n as nat) is None,
        },
{
    let mut acc: Vec<u8> = Vec::new();
    let mut cur: usize = pos;
    let mut i: u64 = 0;
    while i < n
        invariant
            i <= n,
            pos <= cur <= ws@.len(),
            ({
                let full = parse_body(ws@, pos as int, n as nat);
                let rest = parse_body(ws@, cur as int, (n - i) as nat);
                match rest {
                    Some((tail, p)) => full == Some((acc@ + tail, p)),
                    None => full is None,
                }
            }),
        decreases n - i,
    {
        if cur >= ws.len() {
            proof {
                assert(parse_body(ws@, cur as int, (n - i) as nat) is None);
            }
            return None;
        }
        let b = ws[cur];
        if b > 0xFF {
            proof {
                assert(parse_body(ws@, cur as int, (n - i) as nat) is None);
            }
            return None;
        }
        let e = b as u8;
        let ghost a0 = acc@;
        acc.push(e);
        proof {
            let rest = parse_body(ws@, cur as int, (n - i) as nat);
            let rest2 = parse_body(ws@, cur as int + 1, (n - i - 1) as nat);
            match rest2 {
                Some((t, p)) => {
                    assert(rest == Some((seq![e] + t, p)));
                    assert(a0 + (seq![e] + t) =~= acc@ + t);
                },
                None => {
                    assert(rest is None);
                },
            }
        }
        cur += 1;
        i += 1;
    }
    proof {
        assert(parse_body(ws@, cur as int, 0) == Some((Seq::<u8>::empty(), cur as int)));
        assert(acc@ + Seq::<u8>::empty() =~= acc@);
    }
    Some((acc, cur))
}

fn dec_txs(ws: &Vec<u64>, pos: usize, n: u64) -> (r: Option<(Vec<(Txid, Transaction)>, usize)>)
    requires
        pos <= ws@.len(),
    ensures
        match r {
            Some((v, p)) => pos <= p <= ws@.len() && parse_txs(ws@, pos as int, n as nat) == Some(
                (tx_deep(v@), p as int),
            ),
            None => parse_txs(ws@, pos as int, n as nat) is None,
        },
{
    let mut acc: Vec<(Txid, Transaction)> = Vec::new();
    let mut cur: usize = pos;
    let mut i: u64 = 0;
    proof {
        assert(tx_deep(acc@) =~= Seq::<(Txid, Seq<u8>)>::empty());
    }
    while i < n
        invariant
            i <= n,
            pos <= cur <= ws@.len(),
            ({
                let full = parse_txs(ws@, pos as int, n as nat);
                let rest = parse_txs(ws@, cur as int, (n - i) as nat);
                match rest {
                    Some((tail, p)) => full == Some((tx_deep(acc@) + tail, p)),
                    None => full is None,
                }
            }),
        decreases n - i,
    {
        if ws.len() < 2 || cur > ws.len() - 2 {
            proof {
                assert(parse_txs(ws@, cur as int, (n - i) as nat) is None);
            }
            return None;
        }
        let key = Txid { id: ws[cur] };
        match dec_body(ws, cur + 2, ws[cur + 1]) {
            Some((data, p)) => {
                let ghost a0 = acc@;
                let ghost dv = data@;
                proof {
                    let rest = parse_txs(ws@, cur as int, (n - i) as nat);
                    let rest2 = parse_txs(ws@, p as int, (n - i - 1) as nat);
                    match rest2 {
                        Some((t, q)) => {
                            assert(rest == Some((seq![(key, dv)] + t, q)));
                        },
                        None => {
                            assert(rest is None);
                        },
                    }
                }
                acc.push((key, Transaction { data }));
                proof {
                    assert(tx_deep(acc@) =~= tx_deep(a0) + seq![(key, dv)]);
                    let rest2 = parse_txs(ws@, p as int, (n - i - 1) as nat);
                    match rest2 {
                        Some((t, q)) => {
                            assert(tx_deep(a0) + (seq![(key, dv)] + t) =~= tx_deep(acc@) + t);
                        },
                        None => {},
                    }
                }
                cur = p;
            },
            None => {
                proof {
                    assert(parse_txs(ws@, cur as int, (n - i) as nat) is None);
                }
                return None;
            },
        }
        i += 1;
    }
    proof {
        assert(parse_txs(ws@, cur as int, 0) == Some((Seq::<(Txid, Seq<u8>)>::empty(), cur as int)));
        assert(tx_deep(acc@) + Seq::<(Txid, Seq<u8>)>::empty() =~= tx_deep(acc@));
    }
    Some((acc, cur))
}

// ----- well-formedness of decoded state -----

fn derivs_unique(v: &Vec<(Address, UnhardenedIndex)>) -> (b: bool)
    ensures
        b == keys_unique(v@),
{
    let mut i: usize = 0;
    while i < v.len()
        invariant
            i <= v@.len(),
            forall|x: int, y: int| 0 <= x < y < i ==> v@[x].0 != v@[y].0,
        decreases v@.len() - i,
    {
        let mut j: usize = 0;
        while j < i
            invariant
                j <= i,
                i < v@.len(),
                forall|x: int, y: int| 0 <= x < y < i ==> v@[x].0 != v@[y].0,
                forall|x: int| 0 <= x < j ==> v@[x].0 != v@[i as int].0,
            decreases i - j,
        {
            if v[j].0 == v[i].0 {
                proof {
                    assert(v@[j as int].0 == v@[i as int].0);
                }
                return false;
            }
            j += 1;
        }
        i += 1;
    }
    true
}

fn outpoints_unique(v: &Vec<OutPoint>) -> (b: bool)
    ensures
        b == elems_unique(v@),
{
    let mut i: usize = 0;
    while i < v.len()
        invariant
            i <= v@.len(),
            forall|x: int, y: int| 0 <= x < y < i ==> v@[x] != v@[y],
        decreases v@.len() - i,
    {
        let mut j: usize = 0;
        while j < i
            invariant
                j <= i,
                i < v@.len(),
                forall|x: int, y: int| 0 <= x < y < i ==> v@[x] != v@[y],
                forall|x: int| 0 <= x < j ==> v@[x] != v@[i as int],
            decreases i - j,
        {
            if v[j] == v[i] {
                proof {
                    assert(v@[j as int] == v@[i as int]);
                }
                return false;
            }
            j += 1;
        }
        i += 1;
    }
    true
}

fn utxos_unique(v: &Vec<Utxo>) -> (b: bool)
    ensures
        b == elems_unique(v@),
{
    let mut i: usize = 0;
    while i < v.len()
        invariant
            i <= v@.len(),
            forall|x: int, y: int| 0 <= x < y < i ==> v@[x] != v@[y],
        decreases v@.len() - i,
    {
        let mut j: usize = 0;
        while j < i
            invariant
                j <= i,
                i < v@.len(),
                forall|x: int, y: int| 0 <= x < y < i ==> v@[x] != v@[y],
                forall|x: int| 0 <= x < j ==> v@[x] != v@[i as int],
            decreases i - j,
        {
            if v[j] == v[i] {
                proof {
                    assert(v@[j as int] == v@[i as int]);
                }
                return false;
            }
            j += 1;
        }
        i += 1;
    }
    true
}

fn rgb_unique(v: &Vec<(RgbContractId, Vec<Utxo>)>) -> (b: bool)
    ensures
        b == keys_unique(v@),
{
    let mut i: usize = 0;
    while i < v.len()
        invariant
            i <= v@.len(),
            forall|x: int, y: int| 0 <= x < y < i ==> v@[x].0 != v@[y].0,
        decreases v@.len() - i,
    {
        let mut j: usize = 0;
        while j < i
            invariant
                j <= i,
                i < v@.len(),
                forall|x: int, y: int| 0 <= x < y < i ==> v@[x].0 != v@[y].0,
                forall|x: int| 0 <= x < j ==> v@[x].0 != v@[i as int].0,
            decreases i - j,
        {
            if v[j].0 == v[i].0 {
                proof {
                    assert(v@[j as int].0 == v@[i as int].0);
                }
                return false;
            }
            j += 1;
        }
        i += 1;
    }
    true
}

fn cids_unique(v: &Vec<(ContractId, ContractCache)>) -> (b: bool)
    ensures
        b == keys_unique(v@),
{
    let mut i: usize = 0;
    while i < v.len()
        invariant
            i <= v@.len(),
            forall|x: int, y: int| 0 <= x < y < i ==> v@[x].0 != v@[y].0,
        decreases v@.len() - i,
    {
        let mut j: usize = 0;
        while j < i
            invariant
                j <= i,
                i < v@.len(),
                forall|x: int, y: int| 0 <= x < y < i ==> v@[x].0 != v@[y].0,
                forall|x: int| 0 <= x < j ==> v@[x].0 != v@[i as int].0,
            decreases i - j,
        {
            if v[j].0 == v[i].0 {
                proof {
                    assert(v@[j as int].0 == v@[i as int].0);
                }
                return false;
            }
            j += 1;
        }
        i += 1;
    }
    true
}

fn mine_unique(v: &Vec<((u32, u16), Txid)>) -> (b: bool)
    ensures
        b == keys_unique(v@),
{
    let mut i: usize = 0;
    while i < v.len()
        invariant
            i <= v@.len(),
            forall|x: int, y: int| 0 <= x < y < i ==> v@[x].0 != v@[y].0,
        decreases v@.len() - i,
    {
        let mut j: usize = 0;
        while j < i
            invariant
                j <= i,
                i < v@.len(),
                forall|x: int, y: int| 0 <= x < y < i ==> v@[x].0 != v@[y].0,
                forall|x: int| 0 <= x < j ==> v@[x].0 != v@[i as int].0,
            decreases i - j,
        {
            let a = v[j].0;
            let b = v[i].0;
            if a.0 == b.0 && a.1 == b.1 {
                proof {
                    assert(v@[j as int].0 == v@[i as int].0);
                }
                return false;
            }
            j += 1;
        }
        i += 1;
    }
    true
}

fn txs_unique(v: &Vec<(Txid, Transaction)>) -> (b: bool)
    ensures
        b == keys_unique(v@),
{
    let mut i: usize = 0;
    while i < v.len()
        invariant
            i <= v@.len(),
            forall|x: int, y: int| 0 <= x < y < i ==> v@[x].0 != v@[y].0,
        decreases v@.len() - i,
    {
        let mut j: usize = 0;
        while j < i
            invariant
                j <= i,
                i < v@.len(),
                forall|x: int, y: int| 0 <= x < y < i ==> v@[x].0 != v@[y].0,
                forall|x: int| 0 <= x < j ==> v@[x].0 != v@[i as int].0,
            decreases i - j,
        {
            if v[j].0 == v[i].0 {
                proof {
                    assert(v@[j as int].0 == v@[i as int].0);
                }
                return false;
            }
            j += 1;
        }
        i += 1;
    }
    true
}

impl ContractCache {
    /// Checks the record's structural invariant.
    pub fn well_formed(&self) -> (b: bool)
        ensures
            b == self.wf(),
    {
        if !derivs_unique(&self.used_address_derivations) {
            return false;
        }
        if self.used_address_derivations.len() > 0x7FFF_FFFF {
            return false;
        }
        let mut i: usize = 0;
        while i < self.used_address_derivations.len()
            invariant
                i <= self.used_address_derivations@.len(),
                forall|k: int|
                    0 <= k < i ==> (#[trigger] self.used_address_derivations@[k]).1.wf(),
            decreases self.used_address_derivations@.len() - i,
        {
            if self.used_address_derivations[i].1.index >= 0x8000_0000 {
                return false;
            }
            i += 1;
        }
        if !outpoints_unique(&self.utxo) {
            return false;
        }
        if !rgb_unique(&self.unspent) {
            return false;
        }
        let mut j: usize = 0;
        while j < self.unspent.len()
            invariant
                j <= self.unspent@.len(),
                forall|k: int| 0 <= k < j ==> elems_unique((#[trigger] self.unspent@[k]).1@),
            decreases self.unspent@.len() - j,
        {
            if !utxos_unique(&self.unspent[j].1) {
                return false;
            }
            j += 1;
        }
        true
    }
}

fn eq_bytes(a: &Vec<u8>, b: &Vec<u8>) -> (r: bool)
    ensures
        r == (a@ == b@),
{
    if a.len() != b.len() {
        return false;
    }
    let mut i: usize = 0;
    while i < a.len()
        invariant
            i <= a@.len(),
            a@.len() == b@.len(),
            forall|k: int| 0 <= k < i ==> a@[k] == b@[k],
        decreases a@.len() - i,
    {
        if a[i] != b[i] {
            return false;
        }
        i += 1;
    }
    proof {
        assert(a@ =~= b@);
    }
    true
}

impl Cache {
    /// Checks the whole state's structural invariant.
    pub fn well_formed(&self) -> (b: bool)
        ensures
            b == self.wf(),
    {
        if !cids_unique(&self.descriptors) {
            return false;
        }
        if !mine_unique(&self.mine_info) {
            return false;
        }
        if !txs_unique(&self.tx_cache) {
            return false;
        }
        let mut i: usize = 0;
        while i < self.descriptors.len()
            invariant
                i <= self.descriptors@.len(),
                forall|k: int| 0 <= k < i ==> (#[trigger] self.descriptors@[k]).1.wf(),
            decreases self.descriptors@.len() - i,
        {
            if !self.descriptors[i].1.well_formed() {
                return false;
            }
            i += 1;
        }
        true
    }

    /// Parses the words of a persisted file into a state, exactly as
    /// the specification-level parser reads them.
    fn decode_raw(b: &Vec<u8>) -> (r: Option<Cache>)
        ensures
            match r {
                Some(c) => Cache::decode_spec(b@) == Some(c.deep()),
                None => Cache::decode_spec(b@) is None,
            },
    {
        let ws = match bytes_to_words(b) {
            Some(w) => w,
            None => {
                return None;
            },
        };
        if ws.len() < 2 {
            proof {
                assert(parse_cache(ws@, 0) is None);
            }
            return None;
        }
        let height = ws[0];
        if height > 0xFFFF_FFFF {
            proof {
                assert(parse_cache(ws@, 0) is None);
            }
            return None;
        }
        let (descriptors, p1) = match dec_descriptors(&ws, 2, ws[1]) {
            Some(x) => x,
            None => {
                proof {
                    assert(parse_cache(ws@, 0) is None);
                }
                return None;
            },
        };
        if p1 >= ws.len() {
            proof {
                assert(parse_cache(ws@, 0) is None);
            }
            return None;
        }
        let (block_info, p2) = match dec_blocks(&ws, p1 + 1, ws[p1]) {
            Some(x) => x,
            None => {
                proof {
                    assert(parse_cache(ws@, 0) is None);
                }
                return None;
            },
        };
        if p2 >= ws.len() {
            proof {
                assert(parse_cache(ws@, 0) is None);
            }
            return None;
        }
        let (mine_info, p3) = match dec_mine(&ws, p2 + 1, ws[p2]) {
            Some(x) => x,
            None => {
                proof {
                    assert(parse_cache(ws@, 0) is None);
                }
                return None;
            },
        };
        if p3 >= ws.len() {
            proof {
                assert(parse_cache(ws@, 0) is None);
            }
            return None;
        }
        let (tx_cache, p4) = match dec_txs(&ws, p3 + 1, ws[p3]) {
            Some(x) => x,
            None => {
                proof {
                    assert(parse_cache(ws@, 0) is None);
                }
                return None;
            },
        };
        let ghost v = CacheView {
            known_height: height as u32,
            descriptors: descriptors_deep(descriptors@),
            block_info: block_info@,
            mine_info: mine_info@,
            tx_cache: tx_deep(tx_cache@),
        };
        proof {
            assert(parse_cache(ws@, 0) == Some((v, p4 as int)));
        }
        if p4 != ws.len() {
            return None;
        }
        let cache = Cache {
            known_height: height as u32,
            descriptors,
            block_info,
            mine_info,
            tx_cache,
        };
        proof {
            assert(cache.deep().descriptors =~= descriptors_deep(cache.descriptors@));
            assert(cache.deep().tx_cache =~= tx_deep(cache.tx_cache@));
            assert(cache.deep() == v);
        }
        Some(cache)
    }

    /// Decodes a persisted file.  Malformed data — a truncated file, an
    /// out-of-range field, trailing content, state breaking the
    /// structural invariant, or a file that is not the canonical
    /// encoding of the state it describes — is rejected, so
    /// initialization never starts from partially decoded state.  An
    /// accepted file is exactly the encoding of the returned state, and
    /// a file that parses to well-formed state whose canonical encoding
    /// it is — every file the encoder writes — is accepted.
    pub fn from_bytes(b: &Vec<u8>) -> (r: Result<Cache, Error>)
        ensures
            match r {
                Ok(c) => c.wf() && b@ == c.encode_spec() && Cache::decode_spec(b@) == Some(
                    c.deep(),
                ),
                Err(e) => e == Error::Decoding,
            },
            (match Cache::decode_spec(b@) {
                Some(v) => view_wf(v) && bytes_of(flat_cache(v)) == b@ ==> r is Ok,
                None => true,
            }),
    {
        let cache = match Self::decode_raw(b) {
            Some(c) => c,
            None => {
                return Err(Error::Decoding);
            },
        };
        if !cache.well_formed() {
            proof {
                lemma_wf_deep(cache);
            }
            return Err(Error::Decoding);
        }
        let reencoded = cache.to_bytes();
        if !eq_bytes(&reencoded, b) {
            return Err(Error::Decoding);
        }
        Ok(cache)
    }
}

/// The compact encoding is injective: two well-formed states with the
/// same encoding carry the same contents.  With [`lemma_roundtrip`] this
/// means a reopened cache file describes exactly the state whose
/// encoding was written.
pub proof fn lemma_encoding_injective(a: Cache, b: Cache)
    requires
        a.wf(),
        b.wf(),
        a.deep().bounded(),
        b.deep().bounded(),
        a.encode_spec() == b.encode_spec(),
    ensures
        a.deep() == b.deep(),
{
    lemma_roundtrip(a);
    lemma_roundtrip(b);
}

} // verus!
