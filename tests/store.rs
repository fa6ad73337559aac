use index_btc::address_indexer::AddressIndexer;
use index_btc::indexer::{CacheSnapshot, Indexer, IndexerError};
use std::collections::BTreeMap;
use index_btc::model::{IndexedTxid, SumTx, Utxo};
use index_btc::sleddb::SledDbIndexer;

type Entries = Vec<(Vec<u8>, Vec<u8>)>;

fn utxo(index: usize, address: &str, value: u64) -> Utxo {
    Utxo { index, address: address.to_string(), value }
}

fn outpoint(tx_id: &str, index: usize) -> IndexedTxid {
    IndexedTxid { tx_id: tx_id.to_string(), index }
}

fn coinbase(txid: &str, outs: Vec<Utxo>) -> SumTx {
    SumTx { is_coinbase: true, txid: txid.to_string(), ins: vec![outpoint("", 0xffff_ffff)], outs }
}

fn spend(txid: &str, ins: Vec<IndexedTxid>, outs: Vec<Utxo>) -> SumTx {
    SumTx { is_coinbase: false, txid: txid.to_string(), ins, outs }
}

fn pair(k: &[u8], v: &[u8]) -> (Vec<u8>, Vec<u8>) {
    (k.to_vec(), v.to_vec())
}

/// The contents of the three trees, read after the indexer is dropped.
fn dump(path: &str) -> (Entries, Entries, Entries) {
    let db = sled::open(path).unwrap();
    let read = |name: &str| -> Entries {
        db.open_tree(name)
            .unwrap()
            .iter()
            .map(|e| {
                let (k, v) = e.unwrap();
                (k.to_vec(), v.to_vec())
            })
            .collect()
    };
    (read("ADDRESS_CF"), read("CACHE_CF"), read("META_CF"))
}

fn db_path(dir: &tempfile::TempDir) -> String {
    dir.path().join("sled-db").to_str().unwrap().to_string()
}

#[test]
fn genesis_like_block() {
    let dir = tempfile::tempdir().unwrap();
    let path = db_path(&dir);
    {
        let mut ix = SledDbIndexer::new(4, &path).unwrap();
        assert_eq!(ix.get_last_height(), 0);
        ix.update_balance(1, &vec![coinbase("T0", vec![utxo(0, "A", 5_000_000_000)])]).unwrap();
        assert_eq!(ix.get_last_height(), 1);
    }
    let (address, cache, meta) = dump(&path);
    assert_eq!(cache, vec![pair(b"T0|0", b"0|A|5000000000")]);
    assert_eq!(address, vec![pair(b"A|O|T0|0", &5_000_000_000u64.to_be_bytes())]);
    assert_eq!(meta, vec![pair(b"last_height", b"1")]);
}

#[test]
fn same_block_spend() {
    let dir = tempfile::tempdir().unwrap();
    let path = db_path(&dir);
    {
        let mut ix = SledDbIndexer::new(4, &path).unwrap();
        let txs = vec![
            coinbase("T1", vec![utxo(0, "B", 1000)]),
            spend("T2", vec![outpoint("T1", 0)], vec![utxo(0, "C", 900)]),
        ];
        ix.update_balance(2, &txs).unwrap();
        assert_eq!(ix.get_last_height(), 2);
    }
    let (address, cache, meta) = dump(&path);
    assert_eq!(
        address,
        vec![
            pair(b"B|I|T1|0", &1000u64.to_be_bytes()),
            pair(b"B|O|T1|0", &1000u64.to_be_bytes()),
            pair(b"C|O|T2|0", &900u64.to_be_bytes()),
        ]
    );
    assert_eq!(cache, vec![pair(b"T1|0", b"0|B|1000"), pair(b"T2|0", b"0|C|900")]);
    assert_eq!(meta, vec![pair(b"last_height", b"2")]);
}

#[test]
fn missing_utxo_aborts_the_block() {
    let dir = tempfile::tempdir().unwrap();
    let path = db_path(&dir);
    let before;
    {
        let mut ix = SledDbIndexer::new(4, &path).unwrap();
        ix.update_balance(1, &vec![coinbase("T0", vec![utxo(0, "A", 50)])]).unwrap();
        drop(ix);
        before = dump(&path);
        let mut ix = SledDbIndexer::new(4, &path).unwrap();
        let txs = vec![
            coinbase("T1", vec![utxo(0, "B", 10)]),
            spend("T2", vec![outpoint("Tmiss", 0)], vec![utxo(0, "C", 9)]),
        ];
        let r = ix.update_balance(2, &txs);
        assert!(matches!(r, Err(IndexerError::MissingUtxo(o)) if o == outpoint("Tmiss", 0)));
        assert_eq!(ix.get_last_height(), 1);
    }
    assert_eq!(dump(&path), before);
}

fn chain(height: u64) -> Vec<SumTx> {
    let cb = format!("cb{}", height);
    let mut txs = vec![coinbase(&cb, vec![utxo(0, &format!("miner{}", height % 3), 50), utxo(1, "pool", 7)])];
    if height > 1 {
        let prev = format!("cb{}", height - 1);
        txs.push(spend(
            &format!("pay{}", height),
            vec![outpoint(&prev, 0), outpoint(&cb, 1)],
            vec![utxo(0, &format!("user{}", height), 55)],
        ));
    }
    txs
}

#[test]
fn resume_after_stop_matches_uninterrupted_run() {
    let dir = tempfile::tempdir().unwrap();
    let stopped = dir.path().join("stopped").to_str().unwrap().to_string();
    let straight = dir.path().join("straight").to_str().unwrap().to_string();
    {
        let mut ix = SledDbIndexer::new(4, &stopped).unwrap();
        for h in 1..=10 {
            ix.update_balance(h, &chain(h)).unwrap();
        }
    }
    {
        let mut ix = SledDbIndexer::new(4, &stopped).unwrap();
        assert_eq!(ix.get_last_height(), 10);
        let from = ix.get_last_height() + 1;
        assert_eq!(from, 11);
        for h in from..=20 {
            ix.update_balance(h, &chain(h)).unwrap();
        }
        assert_eq!(ix.get_last_height(), 20);
    }
    {
        let mut ix = SledDbIndexer::new(4, &straight).unwrap();
        for h in 1..=20 {
            ix.update_balance(h, &chain(h)).unwrap();
        }
    }
    assert_eq!(dump(&stopped), dump(&straight));
}

#[test]
fn cursor_is_last_committed_height() {
    let dir = tempfile::tempdir().unwrap();
    let path = db_path(&dir);
    {
        let mut ix = SledDbIndexer::new(4, &path).unwrap();
        for h in [3u64, 8, 21] {
            ix.update_balance(h, &vec![coinbase(&format!("c{}", h), vec![utxo(0, "A", h)])]).unwrap();
            assert_eq!(ix.get_last_height(), h);
        }
    }
    let ix = SledDbIndexer::new(4, &path).unwrap();
    assert_eq!(ix.get_last_height(), 21);
}

#[test]
fn corrupt_cursor_is_refused() {
    let dir = tempfile::tempdir().unwrap();
    let path = db_path(&dir);
    {
        let db = sled::open(&path).unwrap();
        db.open_tree("META_CF").unwrap().insert(b"last_height", b"ten".to_vec()).unwrap();
        db.flush().unwrap();
    }
    assert!(matches!(SledDbIndexer::new(4, &path), Err(IndexerError::CorruptHeight)));
}

#[test]
fn corrupt_cache_entry_is_reported() {
    let dir = tempfile::tempdir().unwrap();
    let path = db_path(&dir);
    {
        let db = sled::open(&path).unwrap();
        db.open_tree("CACHE_CF").unwrap().insert(b"T5|1", b"garbage".to_vec()).unwrap();
        db.flush().unwrap();
    }
    let mut ix = SledDbIndexer::new(4, &path).unwrap();
    let r = ix.update_balance(1, &vec![spend("T6", vec![outpoint("T5", 1)], vec![])]);
    assert!(matches!(r, Err(IndexerError::CorruptUtxo(o)) if o == outpoint("T5", 1)));
    assert_eq!(ix.get_last_height(), 0);
}

#[test]
fn outputs_and_spends_each_get_one_entry() {
    let dir = tempfile::tempdir().unwrap();
    let path = db_path(&dir);
    {
        let mut ix = SledDbIndexer::new(4, &path).unwrap();
        ix.update_balance(1, &vec![coinbase("T0", vec![utxo(0, "A", 30), utxo(1, "B", 20), utxo(2, "A", 10)])])
            .unwrap();
        ix.update_balance(2, &vec![spend("T1", vec![outpoint("T0", 2), outpoint("T0", 1)], vec![utxo(0, "C", 29)])])
            .unwrap();
    }
    let (address, _, _) = dump(&path);
    let credits_t0 = address.iter().filter(|(k, _)| k.ends_with(b"|O|T0|0") || k.ends_with(b"|O|T0|1") || k.ends_with(b"|O|T0|2")).count();
    assert_eq!(credits_t0, 3);
    let debit = |suffix: &[u8]| -> Vec<(Vec<u8>, Vec<u8>)> {
        address.iter().filter(|(k, _)| k.ends_with(suffix) && k.windows(3).any(|w| w == b"|I|")).cloned().collect()
    };
    assert_eq!(debit(b"|T0|2"), vec![pair(b"A|I|T0|2", &10u64.to_be_bytes())]);
    assert_eq!(debit(b"|T0|1"), vec![pair(b"B|I|T0|1", &20u64.to_be_bytes())]);
}

#[test]
fn independent_runs_store_identical_bytes() {
    let dir = tempfile::tempdir().unwrap();
    let a = dir.path().join("a").to_str().unwrap().to_string();
    let b = dir.path().join("b").to_str().unwrap().to_string();
    for path in [&a, &b] {
        let mut ix = SledDbIndexer::new(8, path).unwrap();
        for h in 1..=6 {
            ix.update_balance(h, &chain(h)).unwrap();
        }
    }
    assert_eq!(dump(&a), dump(&b));
}

#[test]
fn read_ahead_writer_matches_sled_backend() {
    let mut address: BTreeMap<Vec<u8>, Vec<u8>> = BTreeMap::new();
    let mut cache: BTreeMap<Vec<u8>, Vec<u8>> = BTreeMap::new();
    let mut meta: BTreeMap<Vec<u8>, Vec<u8>> = BTreeMap::new();
    let mut writer = AddressIndexer::new(None).unwrap();
    for h in 1..=8 {
        let txs = chain(h);
        let entries = AddressIndexer::cache_keys(&txs)
            .into_iter()
            .filter_map(|k| cache.get(&k).cloned().map(|v| (k, v)))
            .collect();
        let w = writer.update_balance(h, &txs, &CacheSnapshot { entries }).unwrap();
        cache.extend(w.cache);
        address.extend(w.address);
        meta.extend(w.meta);
    }
    assert_eq!(writer.get_last_height(), 8);

    let dir = tempfile::tempdir().unwrap();
    let path = db_path(&dir);
    {
        let mut ix = SledDbIndexer::new(4, &path).unwrap();
        for h in 1..=8 {
            ix.update_balance(h, &chain(h)).unwrap();
        }
    }
    let (sled_address, sled_cache, sled_meta) = dump(&path);
    assert_eq!(sled_address, address.into_iter().collect::<Entries>());
    assert_eq!(sled_cache, cache.into_iter().collect::<Entries>());
    assert_eq!(sled_meta, meta.into_iter().collect::<Entries>());
}

#[test]
fn unopenable_store_is_a_storage_error() {
    let file = tempfile::NamedTempFile::new().unwrap();
    let path = file.path().to_str().unwrap().to_string();
    assert!(matches!(SledDbIndexer::new(4, &path), Err(IndexerError::SledError(_))));
}
