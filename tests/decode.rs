use index_btc::decode::{concat_chunks, decode_chunk, derive_address, synthetic_address, RawTx, TxOutput};
use index_btc::model::{IndexedTxid, SumTx, Utxo};
use sha2::Digest;

fn hex(s: &str) -> Vec<u8> {
    (0..s.len()).step_by(2).map(|i| u8::from_str_radix(&s[i..i + 2], 16).unwrap()).collect()
}

const GENESIS_KEY: &str = "04678afdb0fe5548271967f1a67130b7105cd6a828e03909a67962e0ea1f61deb649f6bc3f4cef38c4f35504e51ec112de5c384df7ba0b8d578a4c702b6bf11d5f";

fn p2pkh_script(hash: &[u8]) -> Vec<u8> {
    let mut s = vec![0x76, 0xa9, 0x14];
    s.extend_from_slice(hash);
    s.extend_from_slice(&[0x88, 0xac]);
    s
}

#[test]
fn standard_script_gets_its_address() {
    assert_eq!(derive_address(&p2pkh_script(&[0u8; 20])), "1111111111111111111114oLvT2");
}

#[test]
fn bare_p2pk_gets_the_p2pkh_address_of_its_key() {
    let mut script = vec![0x41];
    script.extend_from_slice(&hex(GENESIS_KEY));
    script.push(0xac);
    assert_eq!(derive_address(&script), "1A1zP1eP5QGefi2DMPTfTL5SLmv7DivfNa");
}

#[test]
fn op_return_output() {
    assert_eq!(derive_address(&vec![0x6a, 0x04, 0xde, 0xad, 0xbe, 0xef]), "OP_RETURN");
    assert_eq!(derive_address(&vec![0x6a]), "OP_RETURN");
}

#[test]
fn nonstandard_script_gets_hash_of_its_asm() {
    let script = vec![0x51, 0x52, 0x93];
    let text = bitcoin::Script::from_bytes(&script).to_string();
    let expected: String =
        sha2::Sha256::digest(text.as_bytes()).iter().map(|b| format!("{:02x}", b)).collect();
    let address = derive_address(&script);
    assert_eq!(address, expected);
    assert_eq!(address.len(), 64);
    assert!(address.chars().all(|c| c.is_ascii_digit() || ('a'..='f').contains(&c)));
}

#[test]
fn empty_script_still_gets_an_address() {
    let a = derive_address(&vec![]);
    assert_eq!(a.len(), 64);
    let expected: String = sha2::Sha256::digest(b"").iter().map(|b| format!("{:02x}", b)).collect();
    assert_eq!(a, expected);
}

#[test]
fn synthetic_address_is_lowercase_hex() {
    assert_eq!(synthetic_address(&vec![0xab, 0x01, 0xf0]), "ab01f0");
}

fn raw(txid: &str, coinbase: bool, ins: Vec<IndexedTxid>, scripts: Vec<(Vec<u8>, u64)>) -> RawTx {
    RawTx {
        txid: txid.to_string(),
        is_coinbase: coinbase,
        ins,
        outs: scripts.into_iter().map(|(script_pubkey, value)| TxOutput { script_pubkey, value }).collect(),
    }
}

#[test]
fn summary_of_transaction() {
    let tx = raw(
        "T7",
        false,
        vec![IndexedTxid { tx_id: "T1".to_string(), index: 2 }],
        vec![(p2pkh_script(&[0u8; 20]), 50), (vec![0x6a], 0)],
    );
    let s = SumTx::from(tx);
    assert_eq!(s.txid, "T7");
    assert!(!s.is_coinbase);
    assert_eq!(s.ins, vec![IndexedTxid { tx_id: "T1".to_string(), index: 2 }]);
    assert_eq!(
        s.outs,
        vec![
            Utxo { index: 0, address: "1111111111111111111114oLvT2".to_string(), value: 50 },
            Utxo { index: 1, address: "OP_RETURN".to_string(), value: 0 },
        ]
    );
}

fn block(n: usize) -> Vec<RawTx> {
    (0..n)
        .map(|i| {
            let mut hash = [0u8; 20];
            hash[..8].copy_from_slice(&(i as u64).to_be_bytes());
            let ins = if i == 0 {
                vec![]
            } else {
                vec![IndexedTxid { tx_id: format!("tx{}", i - 1), index: 0 }]
            };
            raw(
                &format!("tx{}", i),
                i == 0,
                ins,
                vec![(p2pkh_script(&hash), i as u64), (vec![0x51, (i % 7) as u8], 1)],
            )
        })
        .collect()
}

#[test]
fn chunked_decode_keeps_block_order() {
    let whole = decode_chunk(block(1000));
    assert_eq!(whole.len(), 1000);
    for parallelism in [1usize, 8] {
        let chunks: Vec<Vec<RawTx>> = block(1000).chunks(100).map(|c| c.to_vec()).collect();
        let mut decoded: Vec<Option<Vec<SumTx>>> = vec![None; chunks.len()];
        let order: Vec<usize> = if parallelism == 1 {
            (0..chunks.len()).collect()
        } else {
            (0..chunks.len()).rev().collect()
        };
        for i in order {
            decoded[i] = Some(decode_chunk(chunks[i].clone()));
        }
        let joined = concat_chunks(decoded.into_iter().map(|c| c.unwrap()).collect());
        assert_eq!(joined, whole);
    }
    for (i, tx) in whole.iter().enumerate() {
        assert_eq!(tx.txid, format!("tx{}", i));
    }
}
