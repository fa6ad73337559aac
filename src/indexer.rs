//! The storage engine's logic: what committing one block writes into the
//! three namespaces of the index, and how each spent input is resolved
//! through the cache of earlier outputs.
//!
//! The index is modelled as three maps from byte keys to byte values:
//! ADDRESS (the append-only flow log), CACHE (outputs by `tx_id|index`) and
//! META (the `last_height` cursor).
use crate::codec::{be_bytes, be_bytes_of, decimal, parse_u64, parse_u64_spec, push_all, push_decimal};
use crate::model::{
    address_flow_bytes, outpoint_bytes, parse_utxo, utxo_bytes, AddressFlow, AddressFlowView,
    Flow, IndexedTxid, OutPointView, SumTx, SumTxView, Utxo, UtxoView,
};
use vstd::prelude::*;

verus! {

/// Why a block could not be committed.
#[derive(Debug, Clone, PartialEq, Eq)]
pub enum IndexerError {
    /// The RocksDB store failed.
    RocksDbError(String),
    /// The sled store failed.
    SledError(String),
    /// A non-coinbase input spends an output that the cache does not hold.
    MissingUtxo(IndexedTxid),
    /// The cache holds text under the spent output's key that is not an output.
    CorruptUtxo(IndexedTxid),
    /// The stored `last_height` cursor is not decimal text of a `u64`.
    CorruptHeight,
}

impl IndexerError {
    /// Whether the error came from the store rather than from the index's contents.
    pub open spec fn is_storage(&self) -> bool {
        self is RocksDbError || self is SledError
    }
}

/// A block that cannot be committed, in the model: the first input whose
/// output the cache does not hold, or holds in a form that is not an output.
pub enum BlockFault {
    Missing(OutPointView),
    Corrupt(OutPointView),
}

/// The fault that an error of the engine reports, if it reports one.
pub open spec fn fault_of(e: IndexerError) -> Option<BlockFault> {
    match e {
        IndexerError::MissingUtxo(o) => Some(BlockFault::Missing(o@)),
        IndexerError::CorruptUtxo(o) => Some(BlockFault::Corrupt(o@)),
        _ => None,
    }
}

/// The contents of the three namespaces.
pub struct IndexState {
    pub address: Map<Seq<u8>, Seq<u8>>,
    pub cache: Map<Seq<u8>, Seq<u8>>,
    pub meta: Map<Seq<u8>, Seq<u8>>,
}

/// The key under which META keeps the cursor.
pub open spec fn last_height_key() -> Seq<u8> {
    seq![0x6cu8, 0x61, 0x73, 0x74, 0x5f, 0x68, 0x65, 0x69, 0x67, 0x68, 0x74]
}

/// The cursor that META holds: 0 when it holds none, nothing when it holds
/// text that is not a height.
pub open spec fn stored_height(meta: Map<Seq<u8>, Seq<u8>>) -> Option<u64> {
    if meta.contains_key(last_height_key()) {
        parse_u64_spec(meta[last_height_key()])
    } else {
        Some(0)
    }
}

/// Key/value pairs as byte sequences.
pub open spec fn pairs_view(s: Seq<(Vec<u8>, Vec<u8>)>) -> Seq<(Seq<u8>, Seq<u8>)> {
    s.map_values(|p: (Vec<u8>, Vec<u8>)| (p.0@, p.1@))
}

/// `m` after putting each pair in order; a later put of a key wins.
pub open spec fn apply_pairs(m: Map<Seq<u8>, Seq<u8>>, s: Seq<(Seq<u8>, Seq<u8>)>) -> Map<
    Seq<u8>,
    Seq<u8>,
>
    decreases s.len(),
{
    if s.len() == 0 {
        m
    } else {
        apply_pairs(m, s.drop_last()).insert(s.last().0, s.last().1)
    }
}

/// The CACHE entry for output `u` of transaction `txid`.
pub open spec fn cache_pair(txid: Seq<char>, u: UtxoView) -> (Seq<u8>, Seq<u8>) {
    (outpoint_bytes(OutPointView { tx_id: txid, index: u.index }), utxo_bytes(u))
}

/// The ADDRESS credit for output `u` of transaction `txid`.
pub open spec fn credit_pair(txid: Seq<char>, u: UtxoView) -> (Seq<u8>, Seq<u8>) {
    (
        address_flow_bytes(
            AddressFlowView { address: u.address, flow: Flow::O, tx_id: txid, utxo_index: u.index },
        ),
        be_bytes(u.value),
    )
}

/// The ADDRESS debit for input `o`, which spends output `u`.
pub open spec fn debit_pair(o: OutPointView, u: UtxoView) -> (Seq<u8>, Seq<u8>) {
    (
        address_flow_bytes(
            AddressFlowView { address: u.address, flow: Flow::I, tx_id: o.tx_id, utxo_index: o.index },
        ),
        be_bytes(u.value),
    )
}

pub open spec fn cache_pairs(t: SumTxView) -> Seq<(Seq<u8>, Seq<u8>)> {
    t.outs.map_values(|u: UtxoView| cache_pair(t.txid, u))
}

pub open spec fn credit_pairs(t: SumTxView) -> Seq<(Seq<u8>, Seq<u8>)> {
    t.outs.map_values(|u: UtxoView| credit_pair(t.txid, u))
}

/// The output that input `o` spends, read from cache contents `m`.
pub open spec fn resolve(m: Map<Seq<u8>, Seq<u8>>, o: OutPointView) -> Result<UtxoView, BlockFault> {
    let k = outpoint_bytes(o);
    if !m.contains_key(k) {
        Err(BlockFault::Missing(o))
    } else {
        match parse_utxo(m[k]) {
            Ok(u) => Ok(u),
            Err(_) => Err(BlockFault::Corrupt(o)),
        }
    }
}

/// The debits for inputs `ins`, all resolved against `m`; the first input
/// that does not resolve decides the fault.
pub open spec fn debit_pairs(m: Map<Seq<u8>, Seq<u8>>, ins: Seq<OutPointView>) -> Result<
    Seq<(Seq<u8>, Seq<u8>)>,
    BlockFault,
>
    decreases ins.len(),
{
    if ins.len() == 0 {
        Ok(seq![])
    } else {
        match debit_pairs(m, ins.drop_last()) {
            Err(f) => Err(f),
            Ok(p) => match resolve(m, ins.last()) {
                Err(f) => Err(f),
                Ok(u) => Ok(p.push(debit_pair(ins.last(), u))),
            },
        }
    }
}

/// The writes of a block whose transactions are `txs`, over cache contents
/// `m0`: the CACHE puts and the ADDRESS puts, in order. Each transaction puts
/// its outputs first; its inputs, unless it is a coinbase, are then resolved
/// against `m0` with every put so far applied.
pub open spec fn plan_txs(m0: Map<Seq<u8>, Seq<u8>>, txs: Seq<SumTxView>) -> Result<
    (Seq<(Seq<u8>, Seq<u8>)>, Seq<(Seq<u8>, Seq<u8>)>),
    BlockFault,
>
    decreases txs.len(),
{
    if txs.len() == 0 {
        Ok((seq![], seq![]))
    } else {
        match plan_txs(m0, txs.drop_last()) {
            Err(f) => Err(f),
            Ok((cw, aw)) => {
                let t = txs.last();
                let cw2 = cw + cache_pairs(t);
                let aw2 = aw + credit_pairs(t);
                if t.is_coinbase {
                    Ok((cw2, aw2))
                } else {
                    match debit_pairs(apply_pairs(m0, cw2), t.ins) {
                        Err(f) => Err(f),
                        Ok(d) => Ok((cw2, aw2 + d)),
                    }
                }
            },
        }
    }
}

/// The index after committing block `txs` at `height`, or the fault that
/// leaves it unchanged.
pub open spec fn commit_block(s: IndexState, height: u64, txs: Seq<SumTxView>) -> Result<
    IndexState,
    BlockFault,
> {
    match plan_txs(s.cache, txs) {
        Err(f) => Err(f),
        Ok((cw, aw)) => Ok(
            IndexState {
                address: apply_pairs(s.address, aw),
                cache: apply_pairs(s.cache, cw),
                meta: s.meta.insert(last_height_key(), decimal(height as nat)),
            },
        ),
    }
}

pub open spec fn txs_view(txs: Seq<SumTx>) -> Seq<SumTxView> {
    txs.map_values(|t: SumTx| t@)
}

/// The writes of one block, ready to be applied in one transaction.
pub struct BlockWrites {
    pub cache: Vec<(Vec<u8>, Vec<u8>)>,
    pub address: Vec<(Vec<u8>, Vec<u8>)>,
    pub meta: Vec<(Vec<u8>, Vec<u8>)>,
}

impl BlockWrites {
    /// The writes that commit block `txs` at `height` over cache contents `m`.
    pub open spec fn plans(&self, m: Map<Seq<u8>, Seq<u8>>, height: u64, txs: Seq<SumTxView>) -> bool {
        &&& plan_txs(m, txs) == Ok::<_, BlockFault>((pairs_view(self.cache@), pairs_view(self.address@)))
        &&& pairs_view(self.meta@) == seq![(last_height_key(), decimal(height as nat))]
    }
}

/// Where the engine reads the cache contents from before a block.
pub trait CacheSource {
    /// The cache contents.
    spec fn entries(&self) -> Map<Seq<u8>, Seq<u8>>;

    /// Whether a read may fail.
    spec fn fallible(&self) -> bool;

    /// The value under `key`, if there is one.
    fn read(&self, key: &Vec<u8>) -> (r: Result<Option<Vec<u8>>, IndexerError>)
        ensures
            match r {
                Ok(Some(v)) => self.entries().contains_key(key@) && self.entries()[key@] == v@,
                Ok(None) => !self.entries().contains_key(key@),
                Err(e) => e.is_storage() && self.fallible(),
            },
    ;
}

/// A storage backend of the index: it reports the cursor and commits one
/// block at a time, atomically.
pub trait Indexer: Sized {
    /// Whether the handle agrees with what it stores.
    spec fn wf(&self) -> bool;

    /// What the three namespaces hold.
    spec fn state(&self) -> IndexState;

    /// Commits block `sum_txs` at `height`: all of its writes and the new
    /// cursor, or nothing when an input does not resolve. Heights come in
    /// strictly increasing order.
    fn update_balance(&mut self, height: u64, sum_txs: &Vec<SumTx>) -> (r: Result<(), IndexerError>)
        requires
            old(self).wf(),
            stored_height(old(self).state().meta) is Some,
            height > stored_height(old(self).state().meta)->Some_0,
        ensures
            match r {
                Ok(()) => {
                    &&& final(self).wf()
                    &&& commit_block(old(self).state(), height, txs_view(sum_txs@)) == Ok::<
                        IndexState,
                        BlockFault,
                    >(final(self).state())
                },
                Err(e) => !e.is_storage() ==> {
                    &&& final(self).wf()
                    &&& final(self).state() == old(self).state()
                    &&& fault_of(e) is Some
                    &&& commit_block(old(self).state(), height, txs_view(sum_txs@)) == Err::<
                        IndexState,
                        BlockFault,
                    >(fault_of(e)->Some_0)
                },
            },
    ;

    /// The height of the last committed block; 0 before the first.
    fn get_last_height(&self) -> (h: u64)
        requires
            self.wf(),
        ensures
            stored_height(self.state().meta) == Some(h),
    ;

    /// Opens the store at `db_path`.
    fn new(num_cores: i32, db_path: &str) -> (r: Result<Self, IndexerError>)
        ensures
            r matches Ok(ix) ==> ix.wf(),
    ;
}

/// Cache entries read ahead of a block; later pairs win over earlier ones.
pub struct CacheSnapshot {
    pub entries: Vec<(Vec<u8>, Vec<u8>)>,
}

impl CacheSource for CacheSnapshot {
    open spec fn entries(&self) -> Map<Seq<u8>, Seq<u8>> {
        apply_pairs(Map::empty(), pairs_view(self.entries@))
    }

    open spec fn fallible(&self) -> bool {
        false
    }

    fn read(&self, key: &Vec<u8>) -> (r: Result<Option<Vec<u8>>, IndexerError>) {
        match find_last(&self.entries, key) {
            Some(i) => {
                proof {
                    lemma_apply_pairs_found(Map::empty(), pairs_view(self.entries@), key@, i as int);
                }
                Ok(Some(copy_bytes(&self.entries[i].1)))
            },
            None => {
                proof {
                    lemma_apply_pairs_absent(Map::empty(), pairs_view(self.entries@), key@);
                }
                Ok(None)
            },
        }
    }
}

/// Putting pairs puts the last pair of a key last.
pub proof fn lemma_apply_pairs_found(
    m: Map<Seq<u8>, Seq<u8>>,
    s: Seq<(Seq<u8>, Seq<u8>)>,
    k: Seq<u8>,
    i: int,
)
    requires
        0 <= i < s.len(),
        s[i].0 == k,
        forall|j: int| i < j < s.len() ==> #[trigger] s[j].0 != k,
    ensures
        apply_pairs(m, s).contains_key(k),
        apply_pairs(m, s)[k] == s[i].1,
    decreases s.len(),
{
    if i < s.len() - 1 {
        assert(s[s.len() - 1].0 != k);
        lemma_apply_pairs_found(m, s.drop_last(), k, i);
    }
}

/// Pairs that never name a key leave it as it was.
pub proof fn lemma_apply_pairs_absent(m: Map<Seq<u8>, Seq<u8>>, s: Seq<(Seq<u8>, Seq<u8>)>, k: Seq<u8>)
    requires
        forall|j: int| 0 <= j < s.len() ==> #[trigger] s[j].0 != k,
    ensures
        apply_pairs(m, s).contains_key(k) == m.contains_key(k),
        m.contains_key(k) ==> apply_pairs(m, s)[k] == m[k],
    decreases s.len(),
{
    if s.len() > 0 {
        assert(s[s.len() - 1].0 != k);
        lemma_apply_pairs_absent(m, s.drop_last(), k);
    }
}

/// Whether two byte strings are equal.
pub fn bytes_eq(a: &[u8], b: &[u8]) -> (r: bool)
    ensures
        r == (a@ == b@),
{
    if a.len() != b.len() {
        return false;
    }
    let mut i: usize = 0;
    while i < a.len()
        invariant
            a.len() == b.len(),
            i <= a.len(),
            forall|j: int| 0 <= j < i ==> a@[j] == b@[j],
        decreases a.len() - i,
    {
        if a[i] != b[i] {
            return false;
        }
        i += 1;
    }
    assert(a@ =~= b@);
    true
}

/// A copy of `v`.
pub fn copy_bytes(v: &Vec<u8>) -> (r: Vec<u8>)
    ensures
        r@ == v@,
{
    let mut out: Vec<u8> = Vec::new();
    push_all(&mut out, v.as_slice());
    assert(out@ =~= v@);
    out
}

/// The position of the last pair whose key is `key`.
pub fn find_last(pairs: &Vec<(Vec<u8>, Vec<u8>)>, key: &Vec<u8>) -> (r: Option<usize>)
    ensures
        match r {
            Some(i) => i < pairs.len() && pairs_view(pairs@)[i as int].0 == key@ && forall|j: int|
                i < j < pairs.len() ==> #[trigger] pairs_view(pairs@)[j].0 != key@,
            None => forall|j: int| 0 <= j < pairs.len() ==> #[trigger] pairs_view(pairs@)[j].0 != key@,
        },
{
    let mut i: usize = pairs.len();
    while i > 0
        invariant
            i <= pairs.len(),
            forall|j: int| i <= j < pairs.len() ==> #[trigger] pairs_view(pairs@)[j].0 != key@,
        decreases i,
    {
        i -= 1;
        if bytes_eq(pairs[i].0.as_slice(), key.as_slice()) {
            return Some(i);
        }
    }
    None
}

/// The META key `last_height`.
pub fn last_height_key_bytes() -> (r: Vec<u8>)
    ensures
        r@ == last_height_key(),
{
    let r = vec![0x6cu8, 0x61, 0x73, 0x74, 0x5f, 0x68, 0x65, 0x69, 0x67, 0x68, 0x74];
    assert(r@ =~= last_height_key());
    r
}

/// Reads the cursor that META holds under `last_height`, given the stored
/// value if there is one.
pub fn decode_height(stored: Option<&Vec<u8>>) -> (r: Result<u64, IndexerError>)
    ensures
        match stored {
            None => r == Ok::<u64, IndexerError>(0),
            Some(b) => match parse_u64_spec(b@) {
                Some(h) => r == Ok::<u64, IndexerError>(h),
                None => r == Err::<u64, IndexerError>(IndexerError::CorruptHeight),
            },
        },
{
    match stored {
        None => Ok(0),
        Some(b) => match parse_u64(b.as_slice()) {
            Some(h) => Ok(h),
            None => Err(IndexerError::CorruptHeight),
        },
    }
}

/// Reads an output's cache entry and debits its address for input `o`.
fn push_debit(
    address: &mut Vec<(Vec<u8>, Vec<u8>)>,
    o: &IndexedTxid,
    stored: Option<Vec<u8>>,
    m: Ghost<Map<Seq<u8>, Seq<u8>>>,
) -> (r: Result<(), IndexerError>)
    requires
        match stored {
            Some(v) => m@.contains_key(outpoint_bytes(o@)) && m@[outpoint_bytes(o@)] == v@,
            None => !m@.contains_key(outpoint_bytes(o@)),
        },
    ensures
        match resolve(m@, o@) {
            Ok(u) => r is Ok && pairs_view(final(address)@) == pairs_view(old(address)@).push(
                debit_pair(o@, u),
            ),
            Err(f) => r is Err && fault_of(r->Err_0) == Some(f),
        },
{
    let v = match stored {
        Some(v) => v,
        None => return Err(IndexerError::MissingUtxo(copy_outpoint(o))),
    };
    let u = match Utxo::from_bytes(v.as_slice()) {
        Ok(u) => u,
        Err(_) => return Err(IndexerError::CorruptUtxo(copy_outpoint(o))),
    };
    let key = AddressFlow {
        address: u.address,
        flow: Flow::I,
        tx_id: o.tx_id.clone(),
        utxo_index: o.index,
    }.to_bytes();
    address.push((key, be_bytes_of(u.value)));
    assert(pairs_view(address@) =~= pairs_view(old(address)@).push(debit_pair(o@, u@)));
    Ok(())
}

/// A copy of an output reference.
pub fn copy_outpoint(o: &IndexedTxid) -> (r: IndexedTxid)
    ensures
        r@ == o@,
{
    IndexedTxid { tx_id: o.tx_id.clone(), index: o.index }
}

/// Puts the outputs of `tx` into the CACHE writes and credits them in the
/// ADDRESS writes.
fn push_outputs(cw: &mut Vec<(Vec<u8>, Vec<u8>)>, aw: &mut Vec<(Vec<u8>, Vec<u8>)>, tx: &SumTx)
    ensures
        pairs_view(final(cw)@) == pairs_view(old(cw)@) + cache_pairs(tx@),
        pairs_view(final(aw)@) == pairs_view(old(aw)@) + credit_pairs(tx@),
{
    let ghost t = tx@;
    let ghost cw0 = pairs_view(cw@);
    let ghost aw0 = pairs_view(aw@);
    let mut j: usize = 0;
    while j < tx.outs.len()
        invariant
            j <= tx.outs.len(),
            t == tx@,
            pairs_view(cw@) == cw0 + cache_pairs(t).subrange(0, j as int),
            pairs_view(aw@) == aw0 + credit_pairs(t).subrange(0, j as int),
        decreases tx.outs.len() - j,
    {
        let u = &tx.outs[j];
        assert(t.outs[j as int] == u@);
        let ck = IndexedTxid { tx_id: tx.txid.clone(), index: u.index }.to_bytes();
        let cv = u.to_bytes();
        assert((ck@, cv@) == cache_pairs(t)[j as int]);
        let ghost c_before = pairs_view(cw@);
        cw.push((ck, cv));
        assert(pairs_view(cw@) =~= c_before.push(cache_pairs(t)[j as int]));
        let ak = AddressFlow {
            address: u.address.clone(),
            flow: Flow::O,
            tx_id: tx.txid.clone(),
            utxo_index: u.index,
        }.to_bytes();
        let av = be_bytes_of(u.value);
        assert((ak@, av@) == credit_pairs(t)[j as int]);
        let ghost a_before = pairs_view(aw@);
        aw.push((ak, av));
        assert(pairs_view(aw@) =~= a_before.push(credit_pairs(t)[j as int]));
        assert(cache_pairs(t).subrange(0, j + 1) =~= cache_pairs(t).subrange(0, j as int).push(
            cache_pairs(t)[j as int],
        ));
        assert(credit_pairs(t).subrange(0, j + 1) =~= credit_pairs(t).subrange(0, j as int).push(
            credit_pairs(t)[j as int],
        ));
        j += 1;
    }
    assert(cache_pairs(t).subrange(0, j as int) =~= cache_pairs(t));
    assert(credit_pairs(t).subrange(0, j as int) =~= credit_pairs(t));
}

/// Resolves each input of `tx` through the block's CACHE writes `cw`, then
/// through `cache`, and debits it in the ADDRESS writes.
fn push_inputs<C: CacheSource>(
    cache: &C,
    cw: &Vec<(Vec<u8>, Vec<u8>)>,
    aw: &mut Vec<(Vec<u8>, Vec<u8>)>,
    tx: &SumTx,
) -> (r: Result<(), IndexerError>)
    ensures
        match r {
            Ok(()) => exists|d: Seq<(Seq<u8>, Seq<u8>)>|
                {
                    &&& debit_pairs(apply_pairs(cache.entries(), pairs_view(cw@)), tx@.ins) == Ok::<
                        _,
                        BlockFault,
                    >(d)
                    &&& pairs_view(final(aw)@) == pairs_view(old(aw)@) + d
                },
            Err(e) => if e.is_storage() {
                cache.fallible()
            } else {
                exists|i: int|
                    0 <= i < tx@.ins.len() && debit_pairs(
                        apply_pairs(cache.entries(), pairs_view(cw@)),
                        #[trigger] tx@.ins.subrange(0, i),
                    ) is Ok && resolve(apply_pairs(cache.entries(), pairs_view(cw@)), tx@.ins[i])
                        == Err::<UtxoView, BlockFault>(fault_of(e)->Some_0) && fault_of(e) is Some
            },
        },
{
    let ghost t = tx@;
    let ghost m0 = cache.entries();
    let ghost m = apply_pairs(m0, pairs_view(cw@));
    let ghost aw0 = pairs_view(aw@);
    assert(t.ins.subrange(0, 0) =~= Seq::<OutPointView>::empty());
    assert(pairs_view(aw@).subrange(aw0.len() as int, aw@.len() as int) =~= Seq::<
        (Seq<u8>, Seq<u8>),
    >::empty());
    assert(aw0 =~= pairs_view(aw@).subrange(0, aw0.len() as int));
    let mut i: usize = 0;
    while i < tx.ins.len()
        invariant
            i <= tx.ins.len(),
            t == tx@,
            m0 == cache.entries(),
            m == apply_pairs(m0, pairs_view(cw@)),
            aw0.len() <= aw@.len(),
            aw0 == pairs_view(aw@).subrange(0, aw0.len() as int),
            debit_pairs(m, t.ins.subrange(0, i as int)) == Ok::<_, BlockFault>(
                pairs_view(aw@).subrange(aw0.len() as int, aw@.len() as int),
            ),
        decreases tx.ins.len() - i,
    {
        let o = &tx.ins[i];
        assert(t.ins[i as int] == o@);
        assert(t.ins.subrange(0, i + 1).drop_last() =~= t.ins.subrange(0, i as int));
        let key = o.to_bytes();
        let stored = match find_last(cw, &key) {
            Some(p) => {
                proof {
                    lemma_apply_pairs_found(m0, pairs_view(cw@), key@, p as int);
                }
                Some(copy_bytes(&cw[p].1))
            },
            None => {
                proof {
                    lemma_apply_pairs_absent(m0, pairs_view(cw@), key@);
                }
                match cache.read(&key) {
                    Ok(v) => v,
                    Err(e) => return Err(e),
                }
            },
        };
        let ghost before = pairs_view(aw@);
        match push_debit(aw, o, stored, Ghost(m)) {
            Ok(()) => {},
            Err(e) => {
                assert(debit_pairs(m, t.ins.subrange(0, i as int)) is Ok);
                return Err(e);
            },
        }
        assert(pairs_view(aw@).subrange(aw0.len() as int, aw@.len() as int) =~= before.subrange(
            aw0.len() as int,
            before.len() as int,
        ).push(pairs_view(aw@).last()));
        assert(aw0 =~= pairs_view(aw@).subrange(0, aw0.len() as int));
        i += 1;
    }
    assert(t.ins.subrange(0, i as int) =~= t.ins);
    assert(pairs_view(aw@) =~= aw0 + pairs_view(aw@).subrange(aw0.len() as int, aw@.len() as int));
    Ok(())
}

/// Computes the writes that commit block `sum_txs` at `height`: each
/// transaction's outputs go into CACHE and are credited in ADDRESS; then each
/// input of a non-coinbase transaction is resolved through the cache, as
/// `cache` held it before the block with this block's puts so far applied,
/// and debited in ADDRESS.
pub fn plan_block<C: CacheSource>(cache: &C, height: u64, sum_txs: &Vec<SumTx>) -> (r: Result<
    BlockWrites,
    IndexerError,
>)
    ensures
        match r {
            Ok(w) => w.plans(cache.entries(), height, txs_view(sum_txs@)),
            Err(e) => if e.is_storage() {
                cache.fallible()
            } else {
                fault_of(e) is Some && plan_txs(cache.entries(), txs_view(sum_txs@)) == Err::<
                    (Seq<(Seq<u8>, Seq<u8>)>, Seq<(Seq<u8>, Seq<u8>)>),
                    BlockFault,
                >(fault_of(e)->Some_0)
            },
        },
{
    let ghost m0 = cache.entries();
    let ghost all = txs_view(sum_txs@);
    let mut cw: Vec<(Vec<u8>, Vec<u8>)> = Vec::new();
    let mut aw: Vec<(Vec<u8>, Vec<u8>)> = Vec::new();
    assert(all.subrange(0, 0) =~= Seq::<SumTxView>::empty());
    assert(pairs_view(cw@) =~= Seq::<(Seq<u8>, Seq<u8>)>::empty());
    assert(pairs_view(aw@) =~= Seq::<(Seq<u8>, Seq<u8>)>::empty());
    let mut k: usize = 0;
    while k < sum_txs.len()
        invariant
            k <= sum_txs.len(),
            m0 == cache.entries(),
            all == txs_view(sum_txs@),
            plan_txs(m0, all.subrange(0, k as int)) == Ok::<_, BlockFault>(
                (pairs_view(cw@), pairs_view(aw@)),
            ),
        decreases sum_txs.len() - k,
    {
        let tx = &sum_txs[k];
        assert(all[k as int] == tx@);
        assert(all.subrange(0, k + 1).drop_last() =~= all.subrange(0, k as int));
        let ghost cw0 = pairs_view(cw@);
        push_outputs(&mut cw, &mut aw, tx);
        if !tx.is_coinbase {
            match push_inputs(cache, &cw, &mut aw, tx) {
                Ok(()) => {},
                Err(e) => {
                    proof {
                        if !e.is_storage() {
                            let i = choose|i: int|
                                0 <= i < tx@.ins.len() && debit_pairs(
                                    apply_pairs(m0, pairs_view(cw@)),
                                    #[trigger] tx@.ins.subrange(0, i),
                                ) is Ok && resolve(apply_pairs(m0, pairs_view(cw@)), tx@.ins[i])
                                    == Err::<UtxoView, BlockFault>(fault_of(e)->Some_0);
                            assert(cw0 + cache_pairs(all[k as int]) == pairs_view(cw@));
                            lemma_plan_fails_at(m0, all, k as int, i);
                        }
                    }
                    return Err(e);
                },
            }
        }
        k += 1;
    }
    assert(all.subrange(0, k as int) =~= all);
    let mut meta_value: Vec<u8> = Vec::new();
    push_decimal(&mut meta_value, height);
    let meta = vec![(last_height_key_bytes(), meta_value)];
    assert(pairs_view(meta@) =~= seq![(last_height_key(), decimal(height as nat))]);
    Ok(BlockWrites { cache: cw, address: aw, meta })
}

/// When input `i` of transaction `k` does not resolve, neither does the block.
proof fn lemma_plan_fails_at(m0: Map<Seq<u8>, Seq<u8>>, all: Seq<SumTxView>, k: int, i: int)
    requires
        0 <= k < all.len(),
        0 <= i < all[k].ins.len(),
        !all[k].is_coinbase,
        plan_txs(m0, all.subrange(0, k)) is Ok,
        ({
            let cw = plan_txs(m0, all.subrange(0, k))->Ok_0.0 + cache_pairs(all[k]);
            &&& debit_pairs(apply_pairs(m0, cw), all[k].ins.subrange(0, i)) is Ok
            &&& resolve(apply_pairs(m0, cw), all[k].ins[i]) is Err
        }),
    ensures
        plan_txs(m0, all) == Err::<(Seq<(Seq<u8>, Seq<u8>)>, Seq<(Seq<u8>, Seq<u8>)>), BlockFault>(
            resolve(
                apply_pairs(m0, plan_txs(m0, all.subrange(0, k))->Ok_0.0 + cache_pairs(all[k])),
                all[k].ins[i],
            )->Err_0,
        ),
{
    let cw = plan_txs(m0, all.subrange(0, k))->Ok_0.0 + cache_pairs(all[k]);
    let m = apply_pairs(m0, cw);
    let f = resolve(m, all[k].ins[i])->Err_0;
    lemma_debits_fail_from(m, all[k].ins, i);
    assert(all.subrange(0, k + 1).drop_last() =~= all.subrange(0, k));
    assert(all.subrange(0, k + 1).last() == all[k]);
    lemma_plan_fails_after(m0, all, k + 1, f);
}

/// Once the inputs up to `i` resolve and input `i` does not, the inputs fail there.
proof fn lemma_debits_fail_from(m: Map<Seq<u8>, Seq<u8>>, ins: Seq<OutPointView>, i: int)
    requires
        0 <= i < ins.len(),
        debit_pairs(m, ins.subrange(0, i)) is Ok,
        resolve(m, ins[i]) is Err,
    ensures
        debit_pairs(m, ins) == Err::<Seq<(Seq<u8>, Seq<u8>)>, BlockFault>(resolve(m, ins[i])->Err_0),
    decreases ins.len() - i,
{
    if i == ins.len() - 1 {
        assert(ins.drop_last() =~= ins.subrange(0, i));
    } else {
        assert(ins.drop_last().subrange(0, i) =~= ins.subrange(0, i));
        assert(ins.drop_last()[i] == ins[i]);
        lemma_debits_fail_from(m, ins.drop_last(), i);
    }
}

/// A fault in the first `n` transactions is the fault of the block.
proof fn lemma_plan_fails_after(m0: Map<Seq<u8>, Seq<u8>>, all: Seq<SumTxView>, n: int, f: BlockFault)
    requires
        0 < n <= all.len(),
        plan_txs(m0, all.subrange(0, n)) == Err::<
            (Seq<(Seq<u8>, Seq<u8>)>, Seq<(Seq<u8>, Seq<u8>)>),
            BlockFault,
        >(f),
    ensures
        plan_txs(m0, all) == Err::<(Seq<(Seq<u8>, Seq<u8>)>, Seq<(Seq<u8>, Seq<u8>)>), BlockFault>(f),
    decreases all.len() - n,
{
    if n == all.len() {
        assert(all.subrange(0, n) =~= all);
    } else {
        assert(all.drop_last().subrange(0, n) =~= all.subrange(0, n));
        lemma_plan_fails_after(m0, all.drop_last(), n, f);
    }
}

} // verus!
