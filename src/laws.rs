//! Properties of the index that hold across calls: the cursor after a run
//! of commits, resuming after a stop, and decoding in chunks.
use crate::address_indexer::spend_keys;
use crate::codec::{lemma_parse_decimal, lemma_split_len, split_fields, SEP};
use crate::decode::{decode_seq, flatten_views, RawTxView};
use crate::indexer::{
    apply_pairs, cache_pairs, commit_block, credit_pair, credit_pairs, debit_pair, debit_pairs,
    last_height_key, lemma_apply_pairs_absent, lemma_apply_pairs_found, plan_txs, resolve,
    stored_height, BlockFault, IndexState,
};
use crate::model::{
    address_flow_bytes, lemma_address_flow_round_trip, lemma_outpoint_round_trip, outpoint_bytes,
    parse_utxo, plain_field, AddressFlowView, Flow, OutPointView, SumTxView, UtxoView,
};
use vstd::prelude::*;
use vstd::utf8::*;

verus! {

/// The index after committing `blocks`, each a height and its
/// transactions, one after the other; the first fault stops the run.
pub open spec fn commit_all(s: IndexState, blocks: Seq<(u64, Seq<SumTxView>)>) -> Result<
    IndexState,
    BlockFault,
>
    decreases blocks.len(),
{
    if blocks.len() == 0 {
        Ok(s)
    } else {
        match commit_all(s, blocks.drop_last()) {
            Err(f) => Err(f),
            Ok(s1) => commit_block(s1, blocks.last().0, blocks.last().1),
        }
    }
}

/// Heights that strictly increase along the run.
pub open spec fn increasing(blocks: Seq<(u64, Seq<SumTxView>)>) -> bool {
    forall|i: int, j: int| 0 <= i < j < blocks.len() ==> blocks[i].0 < blocks[j].0
}

/// After a run of commits with increasing heights, the stored cursor is the
/// height of the last block, which is the greatest committed height.
pub proof fn lemma_cursor_is_max_height(s: IndexState, blocks: Seq<(u64, Seq<SumTxView>)>)
    requires
        blocks.len() > 0,
        increasing(blocks),
        commit_all(s, blocks) is Ok,
    ensures
        stored_height(commit_all(s, blocks)->Ok_0.meta) == Some(blocks.last().0),
        forall|i: int| 0 <= i < blocks.len() ==> #[trigger] blocks[i].0 <= blocks.last().0,
{
    let h = blocks.last().0;
    let s1 = commit_all(s, blocks.drop_last())->Ok_0;
    let s2 = commit_all(s, blocks)->Ok_0;
    assert(s2.meta == s1.meta.insert(last_height_key(), crate::codec::decimal(h as nat)));
    lemma_parse_decimal(h as nat);
    assert forall|i: int| 0 <= i < blocks.len() implies #[trigger] blocks[i].0 <= blocks.last().0 by {
        if i < blocks.len() - 1 {
            assert(blocks[i].0 < blocks[blocks.len() - 1].0);
        }
    }
}

/// Stopping after any block and committing the rest later ends in the
/// same index as one uninterrupted run.
pub proof fn lemma_resume_is_uninterrupted(
    s: IndexState,
    done: Seq<(u64, Seq<SumTxView>)>,
    rest: Seq<(u64, Seq<SumTxView>)>,
)
    requires
        commit_all(s, done) is Ok,
    ensures
        commit_all(s, done + rest) == commit_all(commit_all(s, done)->Ok_0, rest),
    decreases rest.len(),
{
    if rest.len() == 0 {
        assert(done + rest =~= done);
    } else {
        lemma_resume_is_uninterrupted(s, done, rest.drop_last());
        assert((done + rest).drop_last() =~= done + rest.drop_last());
        assert((done + rest).last() == rest.last());
    }
}

/// The concatenation of `chunks`, in order.
pub open spec fn flatten_raw(chunks: Seq<Seq<RawTxView>>) -> Seq<RawTxView>
    decreases chunks.len(),
{
    if chunks.len() == 0 {
        seq![]
    } else {
        flatten_raw(chunks.drop_last()) + chunks.last()
    }
}

/// Decoding a block in contiguous chunks and joining the results in chunk
/// order gives the summaries of decoding it whole, however it was cut.
pub proof fn lemma_chunked_decode(chunks: Seq<Seq<RawTxView>>)
    ensures
        flatten_views(chunks.map_values(|c: Seq<RawTxView>| decode_seq(c))) == decode_seq(
            flatten_raw(chunks),
        ),
    decreases chunks.len(),
{
    if chunks.len() > 0 {
        let d = chunks.map_values(|c: Seq<RawTxView>| decode_seq(c));
        lemma_chunked_decode(chunks.drop_last());
        assert(d.drop_last() =~= chunks.drop_last().map_values(|c: Seq<RawTxView>| decode_seq(c)));
        assert(decode_seq(flatten_raw(chunks)) =~= decode_seq(flatten_raw(chunks.drop_last()))
            + decode_seq(chunks.last()));
    } else {
        assert(decode_seq(flatten_raw(chunks)) =~= Seq::<SumTxView>::empty());
    }
}

/// A block as the decoder makes it: transaction ids and output addresses
/// hold no separator, transaction ids are distinct, and the outputs of each
/// transaction carry distinct positions.
pub open spec fn well_formed_block(txs: Seq<SumTxView>) -> bool {
    &&& forall|k: int| 0 <= k < txs.len() ==> plain_field(#[trigger] txs[k].txid)
    &&& forall|k: int, j: int|
        0 <= k < txs.len() && 0 <= j < txs[k].outs.len() ==> plain_field(
            #[trigger] txs[k].outs[j].address,
        )
    &&& forall|k1: int, k2: int| 0 <= k1 < k2 < txs.len() ==> #[trigger] txs[k1].txid != #[trigger] txs[k2].txid
    &&& forall|k: int, j1: int, j2: int|
        0 <= k < txs.len() && 0 <= j1 < j2 < txs[k].outs.len() ==> #[trigger] txs[k].outs[j1].index
            != #[trigger] txs[k].outs[j2].index
}

/// Putting `a` and then `b` is putting `a + b`.
pub proof fn lemma_apply_pairs_concat(
    m: Map<Seq<u8>, Seq<u8>>,
    a: Seq<(Seq<u8>, Seq<u8>)>,
    b: Seq<(Seq<u8>, Seq<u8>)>,
)
    ensures
        apply_pairs(m, a + b) == apply_pairs(apply_pairs(m, a), b),
    decreases b.len(),
{
    if b.len() == 0 {
        assert(a + b =~= a);
    } else {
        lemma_apply_pairs_concat(m, a, b.drop_last());
        assert((a + b).drop_last() =~= a + b.drop_last());
    }
}

/// Fields cut at separators hold none.
pub proof fn lemma_fields_plain(s: Seq<u8>)
    ensures
        forall|i: int| 0 <= i < split_fields(s).len() ==> !(#[trigger] split_fields(s)[i]).contains(SEP),
    decreases s.len(),
{
    lemma_split_len(s);
    if s.len() > 0 {
        let t = s.drop_last();
        lemma_fields_plain(t);
        lemma_split_len(t);
        let p = split_fields(t);
        assert forall|i: int| 0 <= i < split_fields(s).len() implies !(#[trigger] split_fields(
            s,
        )[i]).contains(SEP) by {
            if s.last() != SEP && i == p.len() - 1 {
                let f = split_fields(s)[i];
                assert(f == p[i].push(s.last()));
                if f.contains(SEP) {
                    let q = choose|q: int| 0 <= q < f.len() && f[q] == SEP;
                    if q < p[i].len() {
                        assert(p[i][q] == SEP);
                    }
                }
            } else if s.last() == SEP && i == p.len() {
                assert(split_fields(s)[i] =~= Seq::<u8>::empty());
            }
        }
    }
}

/// The address of an output read back from the cache holds no separator.
pub proof fn lemma_parsed_address_plain(b: Seq<u8>)
    requires
        parse_utxo(b) is Ok,
    ensures
        plain_field(parse_utxo(b)->Ok_0.address),
{
    let p = split_fields(b);
    lemma_fields_plain(b);
    assert(!p[1].contains(SEP));
    decode_utf8_encode_utf8(p[1]);
}

/// Two texts that each begin with a field and a separator agree on the field
/// when they are equal.
proof fn lemma_first_field(a1: Seq<u8>, a2: Seq<u8>, r1: Seq<u8>, r2: Seq<u8>)
    requires
        !a1.contains(SEP),
        !a2.contains(SEP),
        a1 + seq![SEP] + r1 == a2 + seq![SEP] + r2,
    ensures
        a1 == a2,
        r1 == r2,
{
    let x = a1 + seq![SEP] + r1;
    if a1.len() < a2.len() {
        assert(x[a1.len() as int] == SEP);
        assert(x[a1.len() as int] == a2[a1.len() as int]);
        assert(a2.contains(SEP));
    } else if a2.len() < a1.len() {
        assert(x[a2.len() as int] == SEP);
        assert(x[a2.len() as int] == a1[a2.len() as int]);
        assert(a1.contains(SEP));
    }
    assert(a1 =~= x.subrange(0, a1.len() as int));
    assert(a2 =~= x.subrange(0, a2.len() as int));
    assert(r1 =~= x.subrange(a1.len() as int + 1, x.len() as int));
    assert(r2 =~= x.subrange(a2.len() as int + 1, x.len() as int));
}

/// A credit key and a debit key never coincide.
pub proof fn lemma_credit_debit_keys_differ(c: AddressFlowView, d: AddressFlowView)
    requires
        c.flow == Flow::O,
        d.flow == Flow::I,
        plain_field(c.address),
        plain_field(d.address),
    ensures
        address_flow_bytes(c) != address_flow_bytes(d),
{
    let rc = seq![0x4fu8] + seq![SEP] + encode_utf8(c.tx_id) + seq![SEP] + crate::codec::decimal(
        c.utxo_index as nat,
    );
    let rd = seq![0x49u8] + seq![SEP] + encode_utf8(d.tx_id) + seq![SEP] + crate::codec::decimal(
        d.utxo_index as nat,
    );
    assert(address_flow_bytes(c) =~= encode_utf8(c.address) + seq![SEP] + rc);
    assert(address_flow_bytes(d) =~= encode_utf8(d.address) + seq![SEP] + rd);
    if address_flow_bytes(c) == address_flow_bytes(d) {
        lemma_first_field(encode_utf8(c.address), encode_utf8(d.address), rc, rd);
        assert(rc[0] == rd[0]);
    }
}

/// Distinct keys of the address index whose text fields hold no separator
/// are distinct bytes.
pub proof fn lemma_flow_keys_differ(f1: AddressFlowView, f2: AddressFlowView)
    requires
        f1 != f2,
        plain_field(f1.address),
        plain_field(f1.tx_id),
        plain_field(f2.address),
        plain_field(f2.tx_id),
    ensures
        address_flow_bytes(f1) != address_flow_bytes(f2),
{
    lemma_address_flow_round_trip(f1);
    lemma_address_flow_round_trip(f2);
}

/// Each debit that resolving `ins` against `m` yields is the debit of its
/// input for the output it resolves to.
pub proof fn lemma_debits_shape(m: Map<Seq<u8>, Seq<u8>>, ins: Seq<OutPointView>)
    requires
        debit_pairs(m, ins) is Ok,
    ensures
        debit_pairs(m, ins)->Ok_0.len() == ins.len(),
        forall|i: int|
            0 <= i < ins.len() ==> resolve(m, #[trigger] ins[i]) is Ok && debit_pairs(m, ins)->Ok_0[i]
                == debit_pair(ins[i], resolve(m, ins[i])->Ok_0),
    decreases ins.len(),
{
    if ins.len() > 0 {
        lemma_debits_shape(m, ins.drop_last());
        assert forall|i: int| 0 <= i < ins.len() implies resolve(m, #[trigger] ins[i]) is Ok
            && debit_pairs(m, ins)->Ok_0[i] == debit_pair(ins[i], resolve(m, ins[i])->Ok_0) by {
            if i < ins.len() - 1 {
                assert(ins.drop_last()[i] == ins[i]);
            }
        }
    }
}

/// No debit that resolving `ins` against `m` yields has the key of a credit.
proof fn lemma_debits_miss_credit(m: Map<Seq<u8>, Seq<u8>>, ins: Seq<OutPointView>, c: AddressFlowView)
    requires
        debit_pairs(m, ins) is Ok,
        c.flow == Flow::O,
        plain_field(c.address),
    ensures
        forall|i: int|
            0 <= i < debit_pairs(m, ins)->Ok_0.len() ==> (#[trigger] debit_pairs(m, ins)->Ok_0[i]).0
                != address_flow_bytes(c),
{
    lemma_debits_shape(m, ins);
    let d = debit_pairs(m, ins)->Ok_0;
    assert forall|i: int| 0 <= i < d.len() implies (#[trigger] d[i]).0 != address_flow_bytes(c) by {
        let o = ins[i];
        assert(resolve(m, o) is Ok);
        let u = resolve(m, o)->Ok_0;
        lemma_parsed_address_plain(m[crate::model::outpoint_bytes(o)]);
        let f = AddressFlowView { address: u.address, flow: Flow::I, tx_id: o.tx_id, utxo_index: o.index };
        lemma_credit_debit_keys_differ(c, f);
    }
}

/// The credit of output `j` of transaction `t`.
pub open spec fn credit_key_of(t: SumTxView, j: int) -> AddressFlowView {
    AddressFlowView {
        address: t.outs[j].address,
        flow: Flow::O,
        tx_id: t.txid,
        utxo_index: t.outs[j].index,
    }
}

/// After the ADDRESS writes of a well-formed block, every output of every
/// transaction holds its credit.
proof fn lemma_credit_written(
    m0: Map<Seq<u8>, Seq<u8>>,
    txs: Seq<SumTxView>,
    a: Map<Seq<u8>, Seq<u8>>,
    k: int,
    j: int,
)
    requires
        well_formed_block(txs),
        plan_txs(m0, txs) is Ok,
        0 <= k < txs.len(),
        0 <= j < txs[k].outs.len(),
    ensures
        apply_pairs(a, plan_txs(m0, txs)->Ok_0.1).contains_key(
            credit_pair(txs[k].txid, txs[k].outs[j]).0,
        ),
        apply_pairs(a, plan_txs(m0, txs)->Ok_0.1)[credit_pair(txs[k].txid, txs[k].outs[j]).0]
            == credit_pair(txs[k].txid, txs[k].outs[j]).1,
    decreases txs.len(),
{
    let n = txs.len() as int;
    let prev = txs.drop_last();
    let t = txs.last();
    let (cwp, awp) = plan_txs(m0, prev)->Ok_0;
    let cr = credit_pairs(t);
    let d: Seq<(Seq<u8>, Seq<u8>)> = if t.is_coinbase {
        seq![]
    } else {
        debit_pairs(apply_pairs(m0, cwp + cache_pairs(t)), t.ins)->Ok_0
    };
    let aw = plan_txs(m0, txs)->Ok_0.1;
    assert(aw =~= awp + cr + d);
    let c = credit_pair(txs[k].txid, txs[k].outs[j]);
    let ck = credit_key_of(txs[k], j);
    assert(c.0 == address_flow_bytes(ck));
    lemma_apply_pairs_concat(a, awp + cr, d);
    lemma_apply_pairs_concat(a, awp, cr);
    assert(forall|i: int| 0 <= i < d.len() ==> #[trigger] d[i].0 != c.0) by {
        if !t.is_coinbase {
            lemma_debits_miss_credit(apply_pairs(m0, cwp + cache_pairs(t)), t.ins, ck);
        }
    }
    if k < n - 1 {
        assert(well_formed_block(prev)) by {
            assert forall|k1: int, k2: int| 0 <= k1 < k2 < prev.len() implies #[trigger] prev[k1].txid
                != #[trigger] prev[k2].txid by {
                assert(txs[k1].txid != txs[k2].txid);
            }
        }
        assert(prev[k] == txs[k]);
        lemma_credit_written(m0, prev, a, k, j);
        assert forall|i: int| 0 <= i < cr.len() implies #[trigger] cr[i].0 != c.0 by {
            let f = credit_key_of(t, i);
            assert(cr[i] == credit_pair(t.txid, t.outs[i]));
            assert(cr[i].0 == address_flow_bytes(f));
            assert(txs[k].txid != txs[n - 1].txid);
            lemma_flow_keys_differ(ck, f);
        }
        lemma_apply_pairs_absent(apply_pairs(a, awp), cr, c.0);
        lemma_apply_pairs_absent(apply_pairs(a, awp + cr), d, c.0);
    } else {
        assert(cr[j] == c);
        assert forall|i: int| j < i < cr.len() implies #[trigger] cr[i].0 != c.0 by {
            let f = credit_key_of(t, i);
            assert(cr[i] == credit_pair(t.txid, t.outs[i]));
            assert(cr[i].0 == address_flow_bytes(f));
            assert(t.outs[j].index != t.outs[i].index);
            lemma_flow_keys_differ(ck, f);
        }
        lemma_apply_pairs_found(apply_pairs(a, awp), cr, c.0, j);
        lemma_apply_pairs_absent(apply_pairs(a, awp + cr), d, c.0);
    }
}

/// In a committed well-formed block, every output of every transaction has
/// its credit in ADDRESS, under `address|O|txid|index`, holding its value;
/// the outputs of one transaction have distinct credit keys, so a
/// transaction with `n` outputs has `n` of them.
pub proof fn lemma_block_credits(s: IndexState, height: u64, txs: Seq<SumTxView>, k: int, j: int)
    requires
        well_formed_block(txs),
        commit_block(s, height, txs) is Ok,
        0 <= k < txs.len(),
        0 <= j < txs[k].outs.len(),
    ensures
        commit_block(s, height, txs)->Ok_0.address.contains_key(
            credit_pair(txs[k].txid, txs[k].outs[j]).0,
        ),
        commit_block(s, height, txs)->Ok_0.address[credit_pair(txs[k].txid, txs[k].outs[j]).0]
            == credit_pair(txs[k].txid, txs[k].outs[j]).1,
        forall|j2: int|
            0 <= j2 < txs[k].outs.len() && j2 != j ==> credit_pair(txs[k].txid, txs[k].outs[j]).0
                != #[trigger] credit_pair(txs[k].txid, txs[k].outs[j2]).0,
{
    lemma_credit_written(s.cache, txs, s.address, k, j);
    assert forall|j2: int|
        0 <= j2 < txs[k].outs.len() && j2 != j implies credit_pair(txs[k].txid, txs[k].outs[j]).0
        != #[trigger] credit_pair(txs[k].txid, txs[k].outs[j2]).0 by {
        if j < j2 {
            assert(txs[k].outs[j].index != txs[k].outs[j2].index);
        } else {
            assert(txs[k].outs[j2].index != txs[k].outs[j].index);
        }
        lemma_flow_keys_differ(credit_key_of(txs[k], j), credit_key_of(txs[k], j2));
    }
}

/// The spends of a block as a valid chain has them: spent transaction ids
/// hold no separator, no input spends an output of a later transaction of
/// the block, and no output is spent twice in the block.
pub open spec fn well_formed_spends(txs: Seq<SumTxView>) -> bool {
    &&& forall|k: int, i: int|
        0 <= k < txs.len() && 0 <= i < txs[k].ins.len() ==> plain_field(#[trigger] txs[k].ins[i].tx_id)
    &&& forall|k: int, i: int, k2: int|
        0 <= k < k2 < txs.len() && 0 <= i < txs[k].ins.len() ==> #[trigger] txs[k].ins[i].tx_id
            != #[trigger] txs[k2].txid
    &&& forall|k1: int, i1: int, k2: int, i2: int|
        0 <= k1 < txs.len() && 0 <= i1 < txs[k1].ins.len() && 0 <= k2 < txs.len() && 0 <= i2
            < txs[k2].ins.len() && !txs[k1].is_coinbase && !txs[k2].is_coinbase && (k1 != k2 || i1
            != i2) ==> #[trigger] txs[k1].ins[i1] != #[trigger] txs[k2].ins[i2]
}

/// The cache as transaction `k` of block `txs` reads it: the cache before
/// the block with the outputs of transactions `0..=k` put.
pub open spec fn spend_cache(m0: Map<Seq<u8>, Seq<u8>>, txs: Seq<SumTxView>, k: int) -> Map<
    Seq<u8>,
    Seq<u8>,
> {
    apply_pairs(m0, plan_txs(m0, txs.subrange(0, k))->Ok_0.0 + cache_pairs(txs[k]))
}

proof fn lemma_well_formed_prefix(txs: Seq<SumTxView>)
    requires
        txs.len() > 0,
        well_formed_block(txs),
        well_formed_spends(txs),
    ensures
        well_formed_block(txs.drop_last()),
        well_formed_spends(txs.drop_last()),
{
    let prev = txs.drop_last();
    assert forall|k1: int, k2: int| 0 <= k1 < k2 < prev.len() implies #[trigger] prev[k1].txid
        != #[trigger] prev[k2].txid by {
        assert(txs[k1].txid != txs[k2].txid);
    }
    assert forall|k: int, i: int, k2: int|
        0 <= k < k2 < prev.len() && 0 <= i < prev[k].ins.len() implies #[trigger] prev[k].ins[i].tx_id
        != #[trigger] prev[k2].txid by {
        assert(txs[k].ins[i].tx_id != txs[k2].txid);
    }
    assert forall|k1: int, i1: int, k2: int, i2: int|
        0 <= k1 < prev.len() && 0 <= i1 < prev[k1].ins.len() && 0 <= k2 < prev.len() && 0 <= i2
            < prev[k2].ins.len() && !prev[k1].is_coinbase && !prev[k2].is_coinbase && (k1 != k2
            || i1 != i2) implies #[trigger] prev[k1].ins[i1] != #[trigger] prev[k2].ins[i2] by {
        assert(txs[k1].ins[i1] != txs[k2].ins[i2]);
    }
}

/// The debits of two different spends have different keys.
proof fn lemma_debit_keys_differ(o1: OutPointView, u1: UtxoView, o2: OutPointView, u2: UtxoView)
    requires
        o1 != o2,
        plain_field(o1.tx_id),
        plain_field(o2.tx_id),
        plain_field(u1.address),
        plain_field(u2.address),
    ensures
        debit_pair(o1, u1).0 != debit_pair(o2, u2).0,
{
    let f1 = AddressFlowView { address: u1.address, flow: Flow::I, tx_id: o1.tx_id, utxo_index: o1.index };
    let f2 = AddressFlowView { address: u2.address, flow: Flow::I, tx_id: o2.tx_id, utxo_index: o2.index };
    assert(f1 != f2);
    lemma_flow_keys_differ(f1, f2);
}

/// After the ADDRESS writes of a well-formed block, every spend holds its debit.
proof fn lemma_debit_written(
    m0: Map<Seq<u8>, Seq<u8>>,
    txs: Seq<SumTxView>,
    a: Map<Seq<u8>, Seq<u8>>,
    k: int,
    i: int,
)
    requires
        well_formed_block(txs),
        well_formed_spends(txs),
        plan_txs(m0, txs) is Ok,
        0 <= k < txs.len(),
        !txs[k].is_coinbase,
        0 <= i < txs[k].ins.len(),
    ensures
        resolve(spend_cache(m0, txs, k), txs[k].ins[i]) is Ok,
        ({
            let d = debit_pair(txs[k].ins[i], resolve(spend_cache(m0, txs, k), txs[k].ins[i])->Ok_0);
            &&& apply_pairs(a, plan_txs(m0, txs)->Ok_0.1).contains_key(d.0)
            &&& apply_pairs(a, plan_txs(m0, txs)->Ok_0.1)[d.0] == d.1
        }),
    decreases txs.len(),
{
    let n = txs.len() as int;
    let prev = txs.drop_last();
    let t = txs.last();
    let (cwp, awp) = plan_txs(m0, prev)->Ok_0;
    let cr = credit_pairs(t);
    let mt = apply_pairs(m0, cwp + cache_pairs(t));
    let dl: Seq<(Seq<u8>, Seq<u8>)> = if t.is_coinbase {
        seq![]
    } else {
        debit_pairs(mt, t.ins)->Ok_0
    };
    let aw = plan_txs(m0, txs)->Ok_0.1;
    assert(aw =~= awp + cr + dl);
    lemma_apply_pairs_concat(a, awp + cr, dl);
    lemma_apply_pairs_concat(a, awp, cr);
    lemma_well_formed_prefix(txs);
    assert(prev =~= txs.subrange(0, n - 1));
    let o = txs[k].ins[i];
    if k < n - 1 {
        assert(prev[k] == txs[k]);
        assert(prev.subrange(0, k) =~= txs.subrange(0, k));
        assert(spend_cache(m0, prev, k) == spend_cache(m0, txs, k));
        lemma_debit_written(m0, prev, a, k, i);
        let u = resolve(spend_cache(m0, txs, k), o)->Ok_0;
        let dk = debit_pair(o, u);
        lemma_parsed_address_plain(spend_cache(m0, txs, k)[outpoint_bytes(o)]);
        assert forall|q: int| 0 <= q < cr.len() implies #[trigger] cr[q].0 != dk.0 by {
            assert(cr[q] == credit_pair(t.txid, t.outs[q]));
            assert(cr[q].0 == address_flow_bytes(credit_key_of(t, q)));
            lemma_credit_debit_keys_differ(
                credit_key_of(t, q),
                AddressFlowView { address: u.address, flow: Flow::I, tx_id: o.tx_id, utxo_index: o.index },
            );
        }
        assert forall|q: int| 0 <= q < dl.len() implies #[trigger] dl[q].0 != dk.0 by {
            lemma_debits_shape(mt, t.ins);
            let o2 = t.ins[q];
            let u2 = resolve(mt, o2)->Ok_0;
            assert(txs[n - 1].ins[q] == o2);
            assert(o != o2);
            lemma_parsed_address_plain(mt[outpoint_bytes(o2)]);
            lemma_debit_keys_differ(o, u, o2, u2);
        }
        lemma_apply_pairs_absent(apply_pairs(a, awp), cr, dk.0);
        lemma_apply_pairs_absent(apply_pairs(a, awp + cr), dl, dk.0);
    } else {
        assert(spend_cache(m0, txs, k) == mt);
        lemma_debits_shape(mt, t.ins);
        let u = resolve(mt, o)->Ok_0;
        let dk = debit_pair(o, u);
        assert(dl[i] == dk);
        lemma_parsed_address_plain(mt[outpoint_bytes(o)]);
        assert forall|q: int| i < q < dl.len() implies #[trigger] dl[q].0 != dk.0 by {
            let o2 = t.ins[q];
            let u2 = resolve(mt, o2)->Ok_0;
            assert(o != o2);
            lemma_parsed_address_plain(mt[outpoint_bytes(o2)]);
            lemma_debit_keys_differ(o, u, o2, u2);
        }
        lemma_apply_pairs_found(apply_pairs(a, awp + cr), dl, dk.0, i);
    }
}

/// The cache after a well-formed block still holds, under a spent output's
/// key, what the spending transaction read there.
proof fn lemma_spent_entry_kept(m0: Map<Seq<u8>, Seq<u8>>, txs: Seq<SumTxView>, k: int, i: int)
    requires
        well_formed_block(txs),
        well_formed_spends(txs),
        plan_txs(m0, txs) is Ok,
        0 <= k < txs.len(),
        0 <= i < txs[k].ins.len(),
        spend_cache(m0, txs, k).contains_key(outpoint_bytes(txs[k].ins[i])),
    ensures
        apply_pairs(m0, plan_txs(m0, txs)->Ok_0.0).contains_key(outpoint_bytes(txs[k].ins[i])),
        apply_pairs(m0, plan_txs(m0, txs)->Ok_0.0)[outpoint_bytes(txs[k].ins[i])] == spend_cache(
            m0,
            txs,
            k,
        )[outpoint_bytes(txs[k].ins[i])],
    decreases txs.len(),
{
    let n = txs.len() as int;
    let prev = txs.drop_last();
    let t = txs.last();
    let cwp = plan_txs(m0, prev)->Ok_0.0;
    let cw = plan_txs(m0, txs)->Ok_0.0;
    assert(cw =~= cwp + cache_pairs(t));
    assert(prev =~= txs.subrange(0, n - 1));
    let o = txs[k].ins[i];
    let key = outpoint_bytes(o);
    if k < n - 1 {
        lemma_well_formed_prefix(txs);
        assert(prev[k] == txs[k]);
        assert(prev.subrange(0, k) =~= txs.subrange(0, k));
        assert(spend_cache(m0, prev, k) == spend_cache(m0, txs, k));
        lemma_spent_entry_kept(m0, prev, k, i);
        lemma_apply_pairs_concat(m0, cwp, cache_pairs(t));
        let cp = cache_pairs(t);
        assert forall|q: int| 0 <= q < cp.len() implies #[trigger] cp[q].0 != key by {
            let o2 = OutPointView { tx_id: t.txid, index: t.outs[q].index };
            assert(cp[q].0 == outpoint_bytes(o2));
            assert(txs[k].ins[i].tx_id != txs[n - 1].txid);
            lemma_outpoint_round_trip(o);
            lemma_outpoint_round_trip(o2);
        }
        lemma_apply_pairs_absent(apply_pairs(m0, cwp), cp, key);
    } else {
        assert(spend_cache(m0, txs, k) == apply_pairs(m0, cw));
    }
}

/// In a committed well-formed block, every input of every non-coinbase
/// transaction has its debit in ADDRESS, under
/// `address|I|prev_txid|prev_index` with the address of the output it
/// spends, holding that output's value; the cache still holds that output
/// under `prev_txid|prev_index`; and no other spend of the block has the
/// same debit key.
pub proof fn lemma_block_debits(s: IndexState, height: u64, txs: Seq<SumTxView>, k: int, i: int)
    requires
        well_formed_block(txs),
        well_formed_spends(txs),
        commit_block(s, height, txs) is Ok,
        0 <= k < txs.len(),
        !txs[k].is_coinbase,
        0 <= i < txs[k].ins.len(),
    ensures
        ({
            let o = txs[k].ins[i];
            let after = commit_block(s, height, txs)->Ok_0;
            &&& after.cache.contains_key(outpoint_bytes(o))
            &&& parse_utxo(after.cache[outpoint_bytes(o)]) is Ok
            &&& after.address.contains_key(debit_pair(o, parse_utxo(after.cache[outpoint_bytes(o)])->Ok_0).0)
            &&& after.address[debit_pair(o, parse_utxo(after.cache[outpoint_bytes(o)])->Ok_0).0]
                == debit_pair(o, parse_utxo(after.cache[outpoint_bytes(o)])->Ok_0).1
        }),
        forall|k2: int, i2: int|
            0 <= k2 < txs.len() && !txs[k2].is_coinbase && 0 <= i2 < txs[k2].ins.len() && (k2 != k
                || i2 != i) ==> debit_pair(
                txs[k].ins[i],
                resolve(spend_cache(s.cache, txs, k), txs[k].ins[i])->Ok_0,
            ).0 != debit_pair(
                #[trigger] txs[k2].ins[i2],
                resolve(spend_cache(s.cache, txs, k2), txs[k2].ins[i2])->Ok_0,
            ).0,
{
    let m0 = s.cache;
    let o = txs[k].ins[i];
    lemma_debit_written(m0, txs, s.address, k, i);
    let m = spend_cache(m0, txs, k);
    lemma_spent_entry_kept(m0, txs, k, i);
    assert forall|k2: int, i2: int|
        0 <= k2 < txs.len() && !txs[k2].is_coinbase && 0 <= i2 < txs[k2].ins.len() && (k2 != k || i2
            != i) implies debit_pair(
        txs[k].ins[i],
        resolve(spend_cache(s.cache, txs, k), txs[k].ins[i])->Ok_0,
    ).0 != debit_pair(
        #[trigger] txs[k2].ins[i2],
        resolve(spend_cache(s.cache, txs, k2), txs[k2].ins[i2])->Ok_0,
    ).0 by {
        lemma_debit_written(m0, txs, s.address, k2, i2);
        let m2 = spend_cache(m0, txs, k2);
        lemma_parsed_address_plain(m[outpoint_bytes(o)]);
        lemma_parsed_address_plain(m2[outpoint_bytes(txs[k2].ins[i2])]);
        assert(txs[k].ins[i] != txs[k2].ins[i2]);
        lemma_debit_keys_differ(o, resolve(m, o)->Ok_0, txs[k2].ins[i2], resolve(m2, txs[k2].ins[i2])->Ok_0);
    }
}

/// Whether `m1` and `m2` hold the same, or nothing, under each of `keys`.
pub open spec fn agree_on(m1: Map<Seq<u8>, Seq<u8>>, m2: Map<Seq<u8>, Seq<u8>>, keys: Seq<Seq<u8>>) -> bool {
    forall|i: int|
        0 <= i < keys.len() ==> (m1.contains_key(#[trigger] keys[i]) == m2.contains_key(keys[i]) && (
        m1.contains_key(keys[i]) ==> m1[keys[i]] == m2[keys[i]]))
}

proof fn lemma_apply_pairs_agree(
    m1: Map<Seq<u8>, Seq<u8>>,
    m2: Map<Seq<u8>, Seq<u8>>,
    s: Seq<(Seq<u8>, Seq<u8>)>,
    k: Seq<u8>,
)
    requires
        m1.contains_key(k) == m2.contains_key(k),
        m1.contains_key(k) ==> m1[k] == m2[k],
    ensures
        apply_pairs(m1, s).contains_key(k) == apply_pairs(m2, s).contains_key(k),
        apply_pairs(m1, s).contains_key(k) ==> apply_pairs(m1, s)[k] == apply_pairs(m2, s)[k],
    decreases s.len(),
{
    if s.len() > 0 {
        lemma_apply_pairs_agree(m1, m2, s.drop_last(), k);
    }
}

proof fn lemma_debits_agree(m1: Map<Seq<u8>, Seq<u8>>, m2: Map<Seq<u8>, Seq<u8>>, ins: Seq<OutPointView>)
    requires
        forall|i: int|
            0 <= i < ins.len() ==> (m1.contains_key(outpoint_bytes(#[trigger] ins[i]))
                == m2.contains_key(outpoint_bytes(ins[i])) && (m1.contains_key(outpoint_bytes(ins[i]))
                ==> m1[outpoint_bytes(ins[i])] == m2[outpoint_bytes(ins[i])])),
    ensures
        debit_pairs(m1, ins) == debit_pairs(m2, ins),
    decreases ins.len(),
{
    if ins.len() > 0 {
        lemma_debits_agree(m1, m2, ins.drop_last());
        assert(ins.last() == ins[ins.len() - 1]);
    }
}

/// What a block writes depends on the cache before it only under the keys
/// that its inputs spend: two caches that agree there give the same writes,
/// or the same fault.
pub proof fn lemma_plan_reads_only_spend_keys(
    m1: Map<Seq<u8>, Seq<u8>>,
    m2: Map<Seq<u8>, Seq<u8>>,
    txs: Seq<SumTxView>,
)
    requires
        agree_on(m1, m2, spend_keys(txs)),
    ensures
        plan_txs(m1, txs) == plan_txs(m2, txs),
    decreases txs.len(),
{
    if txs.len() > 0 {
        let prev = txs.drop_last();
        let t = txs.last();
        let own: Seq<Seq<u8>> = if t.is_coinbase {
            Seq::empty()
        } else {
            t.ins.map_values(|o: OutPointView| outpoint_bytes(o))
        };
        assert(spend_keys(txs) == spend_keys(prev) + own);
        assert(agree_on(m1, m2, spend_keys(prev))) by {
            assert forall|i: int| 0 <= i < spend_keys(prev).len() implies (m1.contains_key(
                #[trigger] spend_keys(prev)[i],
            ) == m2.contains_key(spend_keys(prev)[i]) && (m1.contains_key(spend_keys(prev)[i])
                ==> m1[spend_keys(prev)[i]] == m2[spend_keys(prev)[i]])) by {
                assert(spend_keys(txs)[i] == spend_keys(prev)[i]);
            }
        }
        lemma_plan_reads_only_spend_keys(m1, m2, prev);
        if !t.is_coinbase && plan_txs(m1, prev) is Ok {
            let cw2 = plan_txs(m1, prev)->Ok_0.0 + cache_pairs(t);
            assert forall|i: int| 0 <= i < t.ins.len() implies (apply_pairs(m1, cw2).contains_key(
                outpoint_bytes(#[trigger] t.ins[i]),
            ) == apply_pairs(m2, cw2).contains_key(outpoint_bytes(t.ins[i])) && (apply_pairs(
                m1,
                cw2,
            ).contains_key(outpoint_bytes(t.ins[i])) ==> apply_pairs(m1, cw2)[outpoint_bytes(t.ins[i])]
                == apply_pairs(m2, cw2)[outpoint_bytes(t.ins[i])])) by {
                let j = spend_keys(prev).len() + i;
                assert(own[i] == outpoint_bytes(t.ins[i]));
                assert(spend_keys(txs)[j] == outpoint_bytes(t.ins[i]));
                lemma_apply_pairs_agree(m1, m2, cw2, outpoint_bytes(t.ins[i]));
            }
            lemma_debits_agree(apply_pairs(m1, cw2), apply_pairs(m2, cw2), t.ins);
        }
    }
}

} // verus!
