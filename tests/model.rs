use index_btc::address_indexer::AddressIndexer;
use index_btc::codec::{be_bytes_of, parse_u64, parse_usize, push_decimal, split_fields_of};
use index_btc::indexer::{CacheSnapshot, IndexerError};
use index_btc::model::{AddressFlow, Flow, IndexedTxid, SumTx, Utxo, UtxoParseError};

fn utxo(index: usize, address: &str, value: u64) -> Utxo {
    Utxo { index, address: address.to_string(), value }
}

fn outpoint(tx_id: &str, index: usize) -> IndexedTxid {
    IndexedTxid { tx_id: tx_id.to_string(), index }
}

#[test]
fn utxo_text_form() {
    let u = utxo(0, "A", 5_000_000_000);
    assert_eq!(u.to_bytes(), b"0|A|5000000000".to_vec());
}

#[test]
fn utxo_round_trip() {
    for u in [
        utxo(0, "A", 5_000_000_000),
        utxo(7, "bc1qar0srrr7xfkvy5l643lydnw9re59gtzzwf5mdq", u64::MAX),
        utxo(usize::MAX, "OP_RETURN", 0),
        utxo(3, "", 1),
        utxo(2, "ünïcode", 12),
    ] {
        assert_eq!(Utxo::from_bytes(&u.to_bytes()), Ok(u));
    }
}

#[test]
fn utxo_with_separator_in_address_does_not_round_trip() {
    let u = utxo(1, "a|b", 2);
    assert_eq!(Utxo::from_bytes(&u.to_bytes()), Err(UtxoParseError::InvalidFormat));
}

#[test]
fn outpoint_round_trip() {
    let o = outpoint("4a5e1e4baab89f3a32518a88c31bc87f618f76673e2cc77ab2127b7afdeda33b", 0);
    assert_eq!(
        o.to_bytes(),
        b"4a5e1e4baab89f3a32518a88c31bc87f618f76673e2cc77ab2127b7afdeda33b|0".to_vec()
    );
    assert_eq!(IndexedTxid::from_bytes(&o.to_bytes()), Ok(o.clone()));
    assert_eq!(IndexedTxid::from_str("T1|12"), Ok(outpoint("T1", 12)));
}

#[test]
fn address_flow_round_trip() {
    let f = AddressFlow {
        address: "B".to_string(),
        flow: Flow::I,
        tx_id: "T1".to_string(),
        utxo_index: 0,
    };
    assert_eq!(f.to_bytes(), b"B|I|T1|0".to_vec());
    assert_eq!(AddressFlow::from_bytes(&f.to_bytes()), Ok(f.clone()));
    let g = AddressFlow { flow: Flow::O, utxo_index: 99, ..f };
    assert_eq!(AddressFlow::from_str("B|O|T1|99"), Ok(g));
}

#[test]
fn flow_tags() {
    assert_eq!(Flow::from_str("I"), Ok(Flow::I));
    assert_eq!(Flow::from_str("O"), Ok(Flow::O));
    assert_eq!(Flow::from_str("X"), Err(UtxoParseError::InvalidFormat));
    assert_eq!(Flow::from_str("II"), Err(UtxoParseError::InvalidFormat));
    assert_eq!(Flow::I.tag(), b'I');
    assert_eq!(Flow::O.tag(), b'O');
}

#[test]
fn parse_error_variants() {
    assert_eq!(Utxo::from_bytes(&[0xff, b'|', b'A', b'|', b'1']), Err(UtxoParseError::DecodingError));
    assert_eq!(Utxo::from_str("0|A"), Err(UtxoParseError::InvalidFormat));
    assert_eq!(Utxo::from_str("x|A|1"), Err(UtxoParseError::ParseInt));
    assert_eq!(Utxo::from_str("0|A|-1"), Err(UtxoParseError::ParseInt));
    assert_eq!(Utxo::from_str("0|A|18446744073709551616"), Err(UtxoParseError::ParseInt));
    assert_eq!(IndexedTxid::from_str("T1"), Err(UtxoParseError::InvalidFormat));
    assert_eq!(IndexedTxid::from_str("T1|"), Err(UtxoParseError::ParseInt));
    assert_eq!(AddressFlow::from_str("A|Z|T|0"), Err(UtxoParseError::InvalidFormat));
    assert_eq!(AddressFlow::from_str("A|O|T"), Err(UtxoParseError::InvalidFormat));
    assert_eq!(AddressFlow::from_str("A|O|T|q"), Err(UtxoParseError::ParseInt));
}

#[test]
fn decimal_text() {
    let mut out = Vec::new();
    push_decimal(&mut out, 0);
    assert_eq!(out, b"0".to_vec());
    let mut out = b"x".to_vec();
    push_decimal(&mut out, 5_000_000_000);
    assert_eq!(out, b"x5000000000".to_vec());
    assert_eq!(parse_u64(b"18446744073709551615"), Some(u64::MAX));
    assert_eq!(parse_u64(b"18446744073709551616"), None);
    assert_eq!(parse_u64(b"+42"), Some(42));
    assert_eq!(parse_u64(b"007"), Some(7));
    assert_eq!(parse_u64(b""), None);
    assert_eq!(parse_u64(b"+"), None);
    assert_eq!(parse_u64(b"-1"), None);
    assert_eq!(parse_u64(b"1 "), None);
    assert_eq!(parse_usize(b"12"), Some(12));
}

#[test]
fn split_on_separator() {
    assert_eq!(split_fields_of(b"a||b"), vec![b"a".to_vec(), vec![], b"b".to_vec()]);
    assert_eq!(split_fields_of(b""), vec![Vec::<u8>::new()]);
}

#[test]
fn big_endian_values() {
    assert_eq!(be_bytes_of(5_000_000_000), vec![0, 0, 0, 1, 0x2a, 0x05, 0xf2, 0x00]);
    assert_eq!(be_bytes_of(1000), vec![0, 0, 0, 0, 0, 0, 0x03, 0xe8]);
}

#[test]
fn writer_cursor_from_stored_value() {
    assert_eq!(AddressIndexer::new(None).unwrap().get_last_height(), 0);
    assert_eq!(AddressIndexer::new(Some(b"844566".to_vec())).unwrap().get_last_height(), 844566);
    assert!(matches!(AddressIndexer::new(Some(b"tall".to_vec())), Err(IndexerError::CorruptHeight)));
}

fn coinbase(txid: &str, outs: Vec<Utxo>) -> SumTx {
    SumTx { is_coinbase: true, txid: txid.to_string(), ins: vec![outpoint("", 0xffff_ffff)], outs }
}

fn spend(txid: &str, ins: Vec<IndexedTxid>, outs: Vec<Utxo>) -> SumTx {
    SumTx { is_coinbase: false, txid: txid.to_string(), ins, outs }
}

fn pair(k: &[u8], v: &[u8]) -> (Vec<u8>, Vec<u8>) {
    (k.to_vec(), v.to_vec())
}

#[test]
fn writer_plans_same_block_spend() {
    let mut ix = AddressIndexer::new(Some(b"1".to_vec())).unwrap();
    let txs = vec![
        coinbase("T1", vec![utxo(0, "B", 1000)]),
        spend("T2", vec![outpoint("T1", 0)], vec![utxo(0, "C", 900)]),
    ];
    assert_eq!(AddressIndexer::cache_keys(&txs), vec![b"T1|0".to_vec()]);
    let w = ix.update_balance(2, &txs, &CacheSnapshot { entries: vec![] }).unwrap();
    assert_eq!(w.cache, vec![pair(b"T1|0", b"0|B|1000"), pair(b"T2|0", b"0|C|900")]);
    assert_eq!(
        w.address,
        vec![
            pair(b"B|O|T1|0", &1000u64.to_be_bytes()),
            pair(b"C|O|T2|0", &900u64.to_be_bytes()),
            pair(b"B|I|T1|0", &1000u64.to_be_bytes()),
        ]
    );
    assert_eq!(w.meta, vec![pair(b"last_height", b"2")]);
    assert_eq!(ix.get_last_height(), 2);
}

#[test]
fn writer_reads_earlier_outputs_from_snapshot() {
    let mut ix = AddressIndexer::new(None).unwrap();
    let txs = vec![spend("T9", vec![outpoint("T1", 3)], vec![])];
    let snapshot = CacheSnapshot {
        entries: vec![pair(b"T1|3", b"3|old|1"), pair(b"T1|3", b"3|D|77")],
    };
    let w = ix.update_balance(5, &txs, &snapshot).unwrap();
    assert_eq!(w.address, vec![pair(b"D|I|T1|3", &77u64.to_be_bytes())]);
    assert!(w.cache.is_empty());
}

#[test]
fn writer_reports_missing_and_corrupt_outputs() {
    let mut ix = AddressIndexer::new(None).unwrap();
    let txs = vec![spend("T2", vec![outpoint("Tmiss", 0)], vec![utxo(0, "C", 1)])];
    let r = ix.update_balance(1, &txs, &CacheSnapshot { entries: vec![] });
    assert!(matches!(r, Err(IndexerError::MissingUtxo(o)) if o == outpoint("Tmiss", 0)));
    assert_eq!(ix.get_last_height(), 0);
    let bad = CacheSnapshot { entries: vec![pair(b"Tmiss|0", b"not an output")] };
    let r = ix.update_balance(1, &txs, &bad);
    assert!(matches!(r, Err(IndexerError::CorruptUtxo(o)) if o == outpoint("Tmiss", 0)));
    assert_eq!(ix.get_last_height(), 0);
}

#[test]
fn coinbase_inputs_are_not_resolved() {
    let mut ix = AddressIndexer::new(None).unwrap();
    let txs = vec![coinbase("T0", vec![utxo(0, "A", 5_000_000_000)])];
    assert!(AddressIndexer::cache_keys(&txs).is_empty());
    let w = ix.update_balance(1, &txs, &CacheSnapshot { entries: vec![] }).unwrap();
    assert_eq!(w.address, vec![pair(b"A|O|T0|0", &5_000_000_000u64.to_be_bytes())]);
}

#[test]
fn records_as_text() {
    assert_eq!(utxo(0, "A", 5_000_000_000).to_string(), "0|A|5000000000");
    assert_eq!(outpoint("T0", 0).to_string(), "T0|0");
    let f = AddressFlow {
        address: "C".to_string(),
        flow: Flow::O,
        tx_id: "T2".to_string(),
        utxo_index: 0,
    };
    assert_eq!(f.to_string(), "C|O|T2|0");
    assert_eq!(Flow::I.to_string(), "I");
    assert_eq!(Flow::O.to_string(), "O");
    assert_eq!(Utxo::from_str(&utxo(4, "ünï", 9).to_string()), Ok(utxo(4, "ünï", 9)));
}
