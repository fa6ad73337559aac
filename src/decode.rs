//! The decoder: from a raw transaction to its summary, with an address for
//! every output.
//!
//! An output's address is the first of: its standard mainnet address; the
//! P2PKH address of the key of a bare P2PK script; `OP_RETURN` for a data
//! carrier; the lowercase hex SHA-256 of the script's asm text.
use crate::model::{IndexedTxid, OutPointView, SumTx, SumTxView, Utxo, UtxoView};
use sha2::Digest;
use vstd::prelude::*;
use vstd::utf8::*;

verus! {

/// An output of a raw transaction.
#[derive(Debug, Clone, PartialEq, Eq)]
pub struct TxOutput {
    pub script_pubkey: Vec<u8>,
    pub value: u64,
}

/// What the decoder reads of a transaction.
#[derive(Debug, Clone, PartialEq, Eq)]
pub struct RawTx {
    pub txid: String,
    pub is_coinbase: bool,
    pub ins: Vec<IndexedTxid>,
    pub outs: Vec<TxOutput>,
}

pub struct TxOutputView {
    pub script_pubkey: Seq<u8>,
    pub value: u64,
}

pub struct RawTxView {
    pub txid: Seq<char>,
    pub is_coinbase: bool,
    pub ins: Seq<OutPointView>,
    pub outs: Seq<TxOutputView>,
}

impl View for TxOutput {
    type V = TxOutputView;

    open spec fn view(&self) -> TxOutputView {
        TxOutputView { script_pubkey: self.script_pubkey@, value: self.value }
    }
}

impl View for RawTx {
    type V = RawTxView;

    open spec fn view(&self) -> RawTxView {
        RawTxView {
            txid: self.txid@,
            is_coinbase: self.is_coinbase,
            ins: self.ins@.map_values(|o: IndexedTxid| o@),
            outs: self.outs@.map_values(|o: TxOutput| o@),
        }
    }
}

/// The text of the standard mainnet address that pays to `script`, if any.
pub uninterp spec fn mainnet_address(script: Seq<u8>) -> Option<Seq<char>>;

/// The text of the mainnet P2PKH address of the key in bare P2PK `script`,
/// if it is one with a valid key.
pub uninterp spec fn p2pk_address(script: Seq<u8>) -> Option<Seq<char>>;

/// The asm text of `script`.
pub uninterp spec fn script_asm(script: Seq<u8>) -> Seq<char>;

/// The SHA-256 digest of `data`.
pub uninterp spec fn sha256(data: Seq<u8>) -> Seq<u8>;

/// The lowercase hex digit of a nibble.
pub open spec fn hex_digit(n: int) -> u8 {
    if n < 10 {
        (0x30 + n) as u8
    } else {
        (0x61 + n - 10) as u8
    }
}

/// Lowercase hex text of `b`, two digits per byte, high nibble first.
pub open spec fn hex_lower(b: Seq<u8>) -> Seq<u8>
    decreases b.len(),
{
    if b.len() == 0 {
        seq![]
    } else {
        hex_lower(b.drop_last()) + seq![hex_digit(b.last() as int / 16), hex_digit(b.last() as int % 16)]
    }
}

/// `OP_RETURN`, the address given to data-carrier outputs.
pub open spec fn op_return_text() -> Seq<char> {
    seq!['O', 'P', '_', 'R', 'E', 'T', 'U', 'R', 'N']
}

/// Whether `script` begins with `OP_RETURN`.
pub open spec fn is_op_return(script: Seq<u8>) -> bool {
    script.len() > 0 && script[0] == 0x6a
}

/// The address an output with `script` is indexed under.
pub open spec fn address_of(script: Seq<u8>) -> Seq<char> {
    match mainnet_address(script) {
        Some(a) => a,
        None => match p2pk_address(script) {
            Some(a) => a,
            None => if is_op_return(script) {
                op_return_text()
            } else {
                decode_utf8(hex_lower(sha256(encode_utf8(script_asm(script)))))
            },
        },
    }
}

/// The summary of output `j` of a transaction.
pub open spec fn utxo_of(j: int, o: TxOutputView) -> UtxoView {
    UtxoView { index: j as usize, address: address_of(o.script_pubkey), value: o.value }
}

/// The summary of a transaction.
pub open spec fn sum_tx_of(t: RawTxView) -> SumTxView {
    SumTxView {
        is_coinbase: t.is_coinbase,
        txid: t.txid,
        ins: t.ins,
        outs: t.outs.map(|j: int, o: TxOutputView| utxo_of(j, o)),
    }
}

/// Relies on `bitcoin::Address::from_script` with mainnet parameters, and on
/// the address's text form, which is never empty.
#[verifier::external_body]
fn standard_address(script: &Vec<u8>) -> (r: Option<String>)
    ensures
        match r {
            Some(s) => mainnet_address(script@) == Some(s@) && s@.len() > 0,
            None => mainnet_address(script@) is None,
        },
{
    let script = bitcoin::Script::from_bytes(script.as_slice());
    match bitcoin::Address::from_script(script, bitcoin::Network::Bitcoin) {
        Ok(address) => Some(address.to_string()),
        Err(_) => None,
    }
}

/// Relies on `bitcoin::Script::p2pk_public_key`, which yields the key of a
/// bare P2PK script when it is a valid key, and on `bitcoin::Address::p2pkh`
/// for that key on mainnet, whose text is never empty.
#[verifier::external_body]
fn p2pk_as_p2pkh(script: &Vec<u8>) -> (r: Option<String>)
    ensures
        match r {
            Some(s) => p2pk_address(script@) == Some(s@) && s@.len() > 0,
            None => p2pk_address(script@) is None,
        },
{
    let key = bitcoin::Script::from_bytes(script.as_slice()).p2pk_public_key()?;
    Some(bitcoin::Address::p2pkh(key, bitcoin::Network::Bitcoin).to_string())
}

/// Relies on `bitcoin::Script::is_op_return`: the first byte is `OP_RETURN` (0x6a).
#[verifier::external_body]
fn op_return(script: &Vec<u8>) -> (r: bool)
    ensures
        r == is_op_return(script@),
{
    bitcoin::Script::from_bytes(script.as_slice()).is_op_return()
}

/// Relies on the `Display` form of `bitcoin::Script`: its asm text.
#[verifier::external_body]
fn asm_text(script: &Vec<u8>) -> (r: String)
    ensures
        r@ == script_asm(script@),
{
    bitcoin::Script::from_bytes(script.as_slice()).to_string()
}

/// Relies on `sha2::Sha256::digest`: the 32-byte SHA-256 digest.
#[verifier::external_body]
fn sha256_digest(data: &[u8]) -> (r: Vec<u8>)
    ensures
        r@ == sha256(data@),
        r@.len() == 32,
{
    sha2::Sha256::digest(data).to_vec()
}

/// Relies on `base16::encode_lower`: two lowercase hex digits per byte.
#[verifier::external_body]
fn hex_encode(data: &Vec<u8>) -> (r: String)
    ensures
        encode_utf8(r@) == hex_lower(data@),
{
    base16::encode_lower(data)
}

proof fn lemma_hex_len(b: Seq<u8>)
    ensures
        hex_lower(b).len() == 2 * b.len(),
    decreases b.len(),
{
    if b.len() > 0 {
        lemma_hex_len(b.drop_last());
    }
}

/// The synthetic address of a script that no other rule names: the
/// lowercase hex of `digest`.
pub fn synthetic_address(digest: &Vec<u8>) -> (r: String)
    requires
        digest@.len() > 0,
    ensures
        r@ == decode_utf8(hex_lower(digest@)),
        r@.len() > 0,
{
    let r = hex_encode(digest);
    proof {
        encode_utf8_decode_utf8(r@);
        lemma_hex_len(digest@);
        if r@.len() == 0 {
            assert(encode_utf8(r@) =~= Seq::<u8>::empty());
        }
    }
    r
}

/// The address an output with `script` is indexed under; there is always one.
pub fn derive_address(script: &Vec<u8>) -> (r: String)
    ensures
        r@ == address_of(script@),
        r@.len() > 0,
{
    if let Some(a) = standard_address(script) {
        return a;
    }
    if let Some(a) = p2pk_as_p2pkh(script) {
        return a;
    }
    if op_return(script) {
        let r = "OP_RETURN".to_owned();
        proof {
            reveal_strlit("OP_RETURN");
            assert(r@ =~= op_return_text());
        }
        return r;
    }
    let text = asm_text(script);
    let digest = sha256_digest(text.as_str().as_bytes());
    synthetic_address(&digest)
}

impl SumTx {
    /// The summary of `tx`: its id, whether it is a coinbase, the outputs
    /// it spends, and each output with its position and address.
    pub fn from(tx: RawTx) -> (r: SumTx)
        ensures
            r@ == sum_tx_of(tx@),
    {
        let ghost t = tx@;
        let RawTx { txid, is_coinbase, ins, outs: raw_outs } = tx;
        let mut outs: Vec<Utxo> = Vec::new();
        let mut j: usize = 0;
        while j < raw_outs.len()
            invariant
                j <= raw_outs.len(),
                t.outs == raw_outs@.map_values(|o: TxOutput| o@),
                outs@.map_values(|u: Utxo| u@) == sum_tx_of(t).outs.subrange(0, j as int),
            decreases raw_outs.len() - j,
        {
            let o = &raw_outs[j];
            assert(t.outs[j as int] == o@);
            assert(sum_tx_of(t).outs[j as int] == utxo_of(j as int, o@));
            let address = derive_address(&o.script_pubkey);
            let u = Utxo { index: j, address, value: o.value };
            assert(u@ == utxo_of(j as int, o@));
            let ghost prev = outs@.map_values(|u: Utxo| u@);
            outs.push(u);
            assert(outs@.map_values(|u: Utxo| u@) =~= prev.push(utxo_of(j as int, o@)));
            assert(sum_tx_of(t).outs.subrange(0, j + 1) =~= sum_tx_of(t).outs.subrange(
                0,
                j as int,
            ).push(utxo_of(j as int, o@)));
            j += 1;
            assert(outs@.map_values(|u: Utxo| u@) =~= sum_tx_of(t).outs.subrange(0, j as int));
        }
        let r = SumTx { is_coinbase, txid, ins, outs };
        assert(r@.outs =~= sum_tx_of(t).outs);
        assert(r@.ins =~= sum_tx_of(t).ins);
        r
    }
}

/// The summaries of `txs`, in order.
pub open spec fn decode_seq(txs: Seq<RawTxView>) -> Seq<SumTxView> {
    txs.map_values(|t: RawTxView| sum_tx_of(t))
}

/// Decodes a run of transactions, keeping their order.
pub fn decode_chunk(txs: Vec<RawTx>) -> (r: Vec<SumTx>)
    ensures
        r@.map_values(|t: SumTx| t@) == decode_seq(txs@.map_values(|t: RawTx| t@)),
{
    let ghost all = txs@;
    let mut out: Vec<SumTx> = Vec::new();
    let mut rest = txs;
    while rest.len() > 0
        invariant
            out.len() + rest.len() == all.len(),
            rest@ == all.subrange(out.len() as int, all.len() as int),
            out@.map_values(|t: SumTx| t@) == decode_seq(
                all.subrange(0, out.len() as int).map_values(|t: RawTx| t@),
            ),
        decreases rest.len(),
    {
        let ghost k = out.len() as int;
        let tx = rest.remove(0);
        assert(tx == all[k]);
        let ghost tv = tx@;
        let sum = SumTx::from(tx);
        assert(sum@ == sum_tx_of(all[k]@));
        let ghost before = out@.map_values(|t: SumTx| t@);
        out.push(sum);
        assert(out@.map_values(|t: SumTx| t@) =~= before.push(sum_tx_of(all[k]@)));
        assert(all.subrange(0, out.len() as int).map_values(|t: RawTx| t@) =~= all.subrange(
            0,
            k,
        ).map_values(|t: RawTx| t@).push(all[k]@));
        assert(rest@ =~= all.subrange(out.len() as int, all.len() as int));
        assert(out@.map_values(|t: SumTx| t@) =~= decode_seq(
            all.subrange(0, out.len() as int).map_values(|t: RawTx| t@),
        ));
    }
    assert(all.subrange(0, out.len() as int) =~= all);
    out
}

/// The concatenation of `chunks`, in order.
pub open spec fn flatten_views(chunks: Seq<Seq<SumTxView>>) -> Seq<SumTxView>
    decreases chunks.len(),
{
    if chunks.len() == 0 {
        seq![]
    } else {
        flatten_views(chunks.drop_last()) + chunks.last()
    }
}

/// The summaries in a decoded chunk.
pub open spec fn chunk_view(c: Vec<SumTx>) -> Seq<SumTxView> {
    c@.map_values(|t: SumTx| t@)
}

/// Joins decoded chunks back into one run, keeping their order.
pub fn concat_chunks(chunks: Vec<Vec<SumTx>>) -> (r: Vec<SumTx>)
    ensures
        chunk_view(r) == flatten_views(chunks@.map_values(|c: Vec<SumTx>| chunk_view(c))),
{
    let ghost all = chunks@.map_values(|c: Vec<SumTx>| chunk_view(c));
    let mut out: Vec<SumTx> = Vec::new();
    let mut rest = chunks;
    let ghost n = rest.len() as int;
    let mut k: usize = 0;
    assert(all.subrange(0, 0) =~= Seq::<Seq<SumTxView>>::empty());
    assert(chunk_view(out) =~= Seq::<SumTxView>::empty());
    while rest.len() > 0
        invariant
            k + rest.len() == n,
            n == all.len(),
            n <= usize::MAX,
            forall|i: int| 0 <= i < rest.len() ==> chunk_view(#[trigger] rest@[i]) == all[k + i],
            chunk_view(out) == flatten_views(all.subrange(0, k as int)),
        decreases rest.len(),
    {
        assert(chunk_view(rest@[0]) == all[k + 0]);
        let ghost rest_before = rest@;
        let mut c = rest.remove(0);
        assert(c == rest_before[0]);
        out.append(&mut c);
        k += 1;
        assert(all.subrange(0, k as int).drop_last() =~= all.subrange(0, k - 1));
        assert(chunk_view(out) =~= flatten_views(all.subrange(0, k as int)));
        assert forall|i: int| 0 <= i < rest.len() implies chunk_view(#[trigger] rest@[i]) == all[k
            + i] by {
            assert(rest@[i] == rest_before[i + 1]);
            assert(chunk_view(rest_before[i + 1]) == all[(k - 1) + (i + 1)]);
        }
    }
    assert(all.subrange(0, k as int) =~= all);
    out
}

} // verus!
