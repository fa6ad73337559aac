//! A writer that keeps only the cursor and leaves the store to its caller:
//! the caller reads the cache entries that a block spends, hands them over,
//! and applies the writes that come back in one transaction of its store.
use crate::codec::parse_u64_spec;
use crate::indexer::{
    decode_height, fault_of, plan_block, plan_txs, txs_view, BlockFault, BlockWrites,
    CacheSnapshot, CacheSource, IndexerError,
};
use crate::model::{outpoint_bytes, OutPointView, SumTx, SumTxView};
use vstd::prelude::*;

verus! {

/// The cache keys that the inputs of the non-coinbase transactions of
/// `txs` spend, in order.
pub open spec fn spend_keys(txs: Seq<SumTxView>) -> Seq<Seq<u8>>
    decreases txs.len(),
{
    if txs.len() == 0 {
        seq![]
    } else {
        let t = txs.last();
        spend_keys(txs.drop_last()) + if t.is_coinbase {
            Seq::empty()
        } else {
            t.ins.map_values(|o: OutPointView| outpoint_bytes(o))
        }
    }
}

/// The writer of the address index, holding the height of the last block
/// it has planned.
pub struct AddressIndexer {
    last_height: u64,
}

impl AddressIndexer {
    /// The height of the last committed block.
    pub closed spec fn cursor(&self) -> u64 {
        self.last_height
    }

    /// A writer resuming from the cursor that META holds, given the stored
    /// value if there is one.
    pub fn new(stored_height: Option<Vec<u8>>) -> (r: Result<AddressIndexer, IndexerError>)
        ensures
            match stored_height {
                None => r matches Ok(ix) && ix.cursor() == 0,
                Some(b) => match parse_u64_spec(b@) {
                    Some(h) => r matches Ok(ix) && ix.cursor() == h,
                    None => r == Err::<AddressIndexer, IndexerError>(IndexerError::CorruptHeight),
                },
            },
    {
        let last_height = match decode_height(stored_height.as_ref()) {
            Ok(h) => h,
            Err(e) => return Err(e),
        };
        Ok(AddressIndexer { last_height })
    }

    /// The height of the last committed block; 0 before the first.
    pub fn get_last_height(&self) -> (h: u64)
        ensures
            h == self.cursor(),
    {
        self.last_height
    }

    /// The cache keys that block `sum_txs` reads: those of the outputs its
    /// non-coinbase inputs spend, in order.
    pub fn cache_keys(sum_txs: &Vec<SumTx>) -> (r: Vec<Vec<u8>>)
        ensures
            r@.map_values(|k: Vec<u8>| k@) == spend_keys(txs_view(sum_txs@)),
    {
        let ghost all = txs_view(sum_txs@);
        let mut keys: Vec<Vec<u8>> = Vec::new();
        let mut k: usize = 0;
        assert(all.subrange(0, 0) =~= Seq::<SumTxView>::empty());
        assert(keys@.map_values(|k: Vec<u8>| k@) =~= Seq::<Seq<u8>>::empty());
        while k < sum_txs.len()
            invariant
                k <= sum_txs.len(),
                all == txs_view(sum_txs@),
                keys@.map_values(|k: Vec<u8>| k@) == spend_keys(all.subrange(0, k as int)),
            decreases sum_txs.len() - k,
        {
            let tx = &sum_txs[k];
            assert(all[k as int] == tx@);
            assert(all.subrange(0, k + 1).drop_last() =~= all.subrange(0, k as int));
            let ghost before = keys@.map_values(|k: Vec<u8>| k@);
            let ghost own = if tx@.is_coinbase {
                Seq::<Seq<u8>>::empty()
            } else {
                tx@.ins.map_values(|o: OutPointView| outpoint_bytes(o))
            };
            if !tx.is_coinbase {
                let mut i: usize = 0;
                while i < tx.ins.len()
                    invariant
                        i <= tx.ins.len(),
                        !tx@.is_coinbase,
                        own == tx@.ins.map_values(|o: OutPointView| outpoint_bytes(o)),
                        keys@.map_values(|k: Vec<u8>| k@) == before + own.subrange(0, i as int),
                    decreases tx.ins.len() - i,
                {
                    assert(tx@.ins[i as int] == tx.ins[i as int]@);
                    let key = tx.ins[i].to_bytes();
                    assert(key@ == own[i as int]);
                    let ghost prev = keys@.map_values(|k: Vec<u8>| k@);
                    keys.push(key);
                    assert(keys@.map_values(|k: Vec<u8>| k@) =~= prev.push(own[i as int]));
                    assert(own.subrange(0, i + 1) =~= own.subrange(0, i as int).push(own[i as int]));
                    i += 1;
                    assert(keys@.map_values(|k: Vec<u8>| k@) =~= before + own.subrange(0, i as int));
                }
                assert(own.subrange(0, i as int) =~= own);
            } else {
                assert(before + own =~= before);
            }
            k += 1;
        }
        assert(all.subrange(0, k as int) =~= all);
        keys
    }

    /// Plans block `sum_txs` at `height` over the cache entries in `cache`,
    /// which holds what the store had under the block's cache keys: the
    /// writes to apply, or the first input that does not resolve. Heights
    /// come in strictly increasing order.
    pub fn update_balance(&mut self, height: u64, sum_txs: &Vec<SumTx>, cache: &CacheSnapshot) -> (r:
        Result<BlockWrites, IndexerError>)
        requires
            height > old(self).cursor(),
        ensures
            match r {
                Ok(w) => w.plans(cache.entries(), height, txs_view(sum_txs@)) && final(self).cursor()
                    == height,
                Err(e) => {
                    &&& final(self).cursor() == old(self).cursor()
                    &&& fault_of(e) is Some
                    &&& plan_txs(cache.entries(), txs_view(sum_txs@)) == Err::<
                        (Seq<(Seq<u8>, Seq<u8>)>, Seq<(Seq<u8>, Seq<u8>)>),
                        BlockFault,
                    >(fault_of(e)->Some_0)
                },
            },
    {
        match plan_block(cache, height, sum_txs) {
            Ok(w) => {
                self.last_height = height;
                Ok(w)
            },
            Err(e) => Err(e),
        }
    }
}

} // verus!
