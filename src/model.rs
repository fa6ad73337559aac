//! The records that the decoder produces and the storage engine writes:
//! outputs (`Utxo`), references to earlier outputs (`IndexedTxid`), flow
//! directions and address-index keys, with their stored text forms.
use crate::codec::{
    decimal, lemma_ascii_valid_utf8, lemma_decimal_digits, lemma_decimal_valid_utf8,
    lemma_parse_decimal, lemma_split_join, lemma_split_single, parse_u64, parse_u64_spec,
    parse_unsigned, parse_usize, parse_usize_spec, push_all, push_decimal, split_fields,
    split_fields_of, utf8_text, SEP,
};
use vstd::prelude::*;
use vstd::utf8::*;

verus! {

/// Why stored text could not be read back as a record.
#[derive(Debug, Clone, Copy, PartialEq, Eq, Structural)]
pub enum UtxoParseError {
    /// The bytes are not UTF-8 text.
    DecodingError,
    /// A number field is not unsigned decimal text that fits its type.
    ParseInt,
    /// Wrong number of `|`-separated fields, or an unknown flow tag.
    InvalidFormat,
}

/// Direction of a value flow in the address index.
#[derive(Debug, Clone, Copy, PartialEq, Eq, Structural)]
pub enum Flow {
    /// An input: the address is debited.
    I,
    /// An output: the address is credited.
    O,
}

/// An output as the cache stores it.
#[derive(Debug, Clone, PartialEq, Eq)]
pub struct Utxo {
    pub index: usize,
    pub address: String,
    pub value: u64,
}

/// A reference to output `index` of transaction `tx_id`.
#[derive(Debug, Clone, PartialEq, Eq)]
pub struct IndexedTxid {
    pub tx_id: String,
    pub index: usize,
}

/// A key of the address index.
#[derive(Debug, Clone, PartialEq, Eq)]
pub struct AddressFlow {
    pub address: String,
    pub flow: Flow,
    pub tx_id: String,
    pub utxo_index: usize,
}

/// The summary of one transaction that the storage engine consumes.
#[derive(Debug, Clone, PartialEq, Eq)]
pub struct SumTx {
    pub is_coinbase: bool,
    pub txid: String,
    pub ins: Vec<IndexedTxid>,
    pub outs: Vec<Utxo>,
}

pub struct UtxoView {
    pub index: usize,
    pub address: Seq<char>,
    pub value: u64,
}

pub struct OutPointView {
    pub tx_id: Seq<char>,
    pub index: usize,
}

pub struct AddressFlowView {
    pub address: Seq<char>,
    pub flow: Flow,
    pub tx_id: Seq<char>,
    pub utxo_index: usize,
}

pub struct SumTxView {
    pub is_coinbase: bool,
    pub txid: Seq<char>,
    pub ins: Seq<OutPointView>,
    pub outs: Seq<UtxoView>,
}

impl View for Utxo {
    type V = UtxoView;

    open spec fn view(&self) -> UtxoView {
        UtxoView { index: self.index, address: self.address@, value: self.value }
    }
}

impl View for IndexedTxid {
    type V = OutPointView;

    open spec fn view(&self) -> OutPointView {
        OutPointView { tx_id: self.tx_id@, index: self.index }
    }
}

impl View for AddressFlow {
    type V = AddressFlowView;

    open spec fn view(&self) -> AddressFlowView {
        AddressFlowView {
            address: self.address@,
            flow: self.flow,
            tx_id: self.tx_id@,
            utxo_index: self.utxo_index,
        }
    }
}

impl View for SumTx {
    type V = SumTxView;

    open spec fn view(&self) -> SumTxView {
        SumTxView {
            is_coinbase: self.is_coinbase,
            txid: self.txid@,
            ins: self.ins@.map_values(|o: IndexedTxid| o@),
            outs: self.outs@.map_values(|u: Utxo| u@),
        }
    }
}

/// Text that can stand as one field: its bytes hold no separator.
pub open spec fn plain_field(s: Seq<char>) -> bool {
    !encode_utf8(s).contains(SEP)
}

/// The tag byte of a flow: `I` or `O`.
pub open spec fn flow_tag(f: Flow) -> u8 {
    match f {
        Flow::I => 0x49,
        Flow::O => 0x4f,
    }
}

/// `index|address|value`: the cache's value for an output.
pub open spec fn utxo_bytes(u: UtxoView) -> Seq<u8> {
    decimal(u.index as nat) + seq![SEP] + encode_utf8(u.address) + seq![SEP] + decimal(
        u.value as nat,
    )
}

/// `tx_id|index`: the cache's key for an output.
pub open spec fn outpoint_bytes(o: OutPointView) -> Seq<u8> {
    encode_utf8(o.tx_id) + seq![SEP] + decimal(o.index as nat)
}

/// `address|flow|tx_id|index`: a key of the address index.
pub open spec fn address_flow_bytes(a: AddressFlowView) -> Seq<u8> {
    encode_utf8(a.address) + seq![SEP] + seq![flow_tag(a.flow)] + seq![SEP] + encode_utf8(a.tx_id)
        + seq![SEP] + decimal(a.utxo_index as nat)
}

/// A flow tag read back.
pub open spec fn parse_flow(b: Seq<u8>) -> Result<Flow, UtxoParseError> {
    if b == seq![0x49u8] {
        Ok(Flow::I)
    } else if b == seq![0x4fu8] {
        Ok(Flow::O)
    } else {
        Err(UtxoParseError::InvalidFormat)
    }
}

/// The cache's value for an output read back.
pub open spec fn parse_utxo(b: Seq<u8>) -> Result<UtxoView, UtxoParseError> {
    let p = split_fields(b);
    if !valid_utf8(b) {
        Err(UtxoParseError::DecodingError)
    } else if p.len() != 3 {
        Err(UtxoParseError::InvalidFormat)
    } else {
        match (parse_usize_spec(p[0]), parse_u64_spec(p[2])) {
            (Some(index), Some(value)) => if valid_utf8(p[1]) {
                Ok(UtxoView { index, address: decode_utf8(p[1]), value })
            } else {
                Err(UtxoParseError::DecodingError)
            },
            _ => Err(UtxoParseError::ParseInt),
        }
    }
}

/// The cache's key for an output read back.
pub open spec fn parse_outpoint(b: Seq<u8>) -> Result<OutPointView, UtxoParseError> {
    let p = split_fields(b);
    if !valid_utf8(b) {
        Err(UtxoParseError::DecodingError)
    } else if p.len() != 2 {
        Err(UtxoParseError::InvalidFormat)
    } else {
        match parse_usize_spec(p[1]) {
            Some(index) => if valid_utf8(p[0]) {
                Ok(OutPointView { tx_id: decode_utf8(p[0]), index })
            } else {
                Err(UtxoParseError::DecodingError)
            },
            None => Err(UtxoParseError::ParseInt),
        }
    }
}

/// A key of the address index read back.
pub open spec fn parse_address_flow(b: Seq<u8>) -> Result<AddressFlowView, UtxoParseError> {
    let p = split_fields(b);
    if !valid_utf8(b) {
        Err(UtxoParseError::DecodingError)
    } else if p.len() != 4 {
        Err(UtxoParseError::InvalidFormat)
    } else {
        match parse_flow(p[1]) {
            Err(e) => Err(e),
            Ok(flow) => match parse_usize_spec(p[3]) {
                None => Err(UtxoParseError::ParseInt),
                Some(utxo_index) => if valid_utf8(p[0]) && valid_utf8(p[2]) {
                    Ok(
                        AddressFlowView {
                            address: decode_utf8(p[0]),
                            flow,
                            tx_id: decode_utf8(p[2]),
                            utxo_index,
                        },
                    )
                } else {
                    Err(UtxoParseError::DecodingError)
                },
            },
        }
    }
}

proof fn lemma_text_field(s: Seq<char>)
    requires
        plain_field(s),
    ensures
        split_fields(encode_utf8(s)) == seq![encode_utf8(s)],
        valid_utf8(encode_utf8(s)),
        decode_utf8(encode_utf8(s)) == s,
{
    lemma_split_single(encode_utf8(s));
    encode_utf8_valid_utf8(s);
    encode_utf8_decode_utf8(s);
}

proof fn lemma_number_field(n: nat)
    ensures
        split_fields(decimal(n)) == seq![decimal(n)],
        valid_utf8(decimal(n)),
        parse_unsigned(decimal(n)) == Some(n),
{
    lemma_decimal_digits(n);
    lemma_split_single(decimal(n));
    lemma_decimal_valid_utf8(n);
    lemma_parse_decimal(n);
}

proof fn lemma_sep_valid_utf8()
    ensures
        valid_utf8(seq![SEP]),
{
    lemma_ascii_valid_utf8(seq![SEP]);
}

/// An output's stored text reads back as the same output, when its address
/// holds no separator.
pub proof fn lemma_utxo_round_trip(u: UtxoView)
    requires
        plain_field(u.address),
    ensures
        parse_utxo(utxo_bytes(u)) == Ok::<UtxoView, UtxoParseError>(u),
{
    let i = decimal(u.index as nat);
    let a = encode_utf8(u.address);
    let v = decimal(u.value as nat);
    lemma_number_field(u.index as nat);
    lemma_number_field(u.value as nat);
    lemma_text_field(u.address);
    lemma_sep_valid_utf8();
    lemma_split_join(i, a);
    lemma_split_join(i + seq![SEP] + a, v);
    assert(split_fields(utxo_bytes(u)) =~= seq![i, a, v]);
    valid_utf8_concat(i, seq![SEP]);
    valid_utf8_concat(i + seq![SEP], a);
    valid_utf8_concat(i + seq![SEP] + a, seq![SEP]);
    valid_utf8_concat(i + seq![SEP] + a + seq![SEP], v);
}

/// An output reference's stored key reads back as the same reference, when
/// its transaction id holds no separator.
pub proof fn lemma_outpoint_round_trip(o: OutPointView)
    requires
        plain_field(o.tx_id),
    ensures
        parse_outpoint(outpoint_bytes(o)) == Ok::<OutPointView, UtxoParseError>(o),
{
    let t = encode_utf8(o.tx_id);
    let i = decimal(o.index as nat);
    lemma_number_field(o.index as nat);
    lemma_text_field(o.tx_id);
    lemma_sep_valid_utf8();
    lemma_split_join(t, i);
    assert(split_fields(outpoint_bytes(o)) =~= seq![t, i]);
    valid_utf8_concat(t, seq![SEP]);
    valid_utf8_concat(t + seq![SEP], i);
}

/// An address-index key reads back as the same key, when its address and
/// transaction id hold no separator.
pub proof fn lemma_address_flow_round_trip(f: AddressFlowView)
    requires
        plain_field(f.address),
        plain_field(f.tx_id),
    ensures
        parse_address_flow(address_flow_bytes(f)) == Ok::<AddressFlowView, UtxoParseError>(f),
{
    let a = encode_utf8(f.address);
    let g = seq![flow_tag(f.flow)];
    let t = encode_utf8(f.tx_id);
    let i = decimal(f.utxo_index as nat);
    lemma_number_field(f.utxo_index as nat);
    lemma_text_field(f.address);
    lemma_text_field(f.tx_id);
    lemma_sep_valid_utf8();
    assert(!g.contains(SEP)) by {
        if g.contains(SEP) {
            let k = choose|k: int| 0 <= k < g.len() && g[k] == SEP;
            assert(k == 0);
        }
    }
    lemma_split_single(g);
    lemma_ascii_valid_utf8(g);
    lemma_split_join(a, g);
    lemma_split_join(a + seq![SEP] + g, t);
    lemma_split_join(a + seq![SEP] + g + seq![SEP] + t, i);
    assert(split_fields(address_flow_bytes(f)) =~= seq![a, g, t, i]);
    valid_utf8_concat(a, seq![SEP]);
    valid_utf8_concat(a + seq![SEP], g);
    valid_utf8_concat(a + seq![SEP] + g, seq![SEP]);
    valid_utf8_concat(a + seq![SEP] + g + seq![SEP], t);
    valid_utf8_concat(a + seq![SEP] + g + seq![SEP] + t, seq![SEP]);
    valid_utf8_concat(a + seq![SEP] + g + seq![SEP] + t + seq![SEP], i);
    assert(g =~= seq![0x49u8] || g =~= seq![0x4fu8]);
}

/// Appends the UTF-8 bytes of `s` to `out`.
pub fn push_text(out: &mut Vec<u8>, s: &String)
    ensures
        final(out)@ == old(out)@ + encode_utf8(s@),
{
    push_all(out, s.as_str().as_bytes());
}

/// The stored text of a record read as a string: the bytes are valid UTF-8
/// whenever they are.
fn text_of(b: &Vec<u8>) -> (r: String)
    requires
        valid_utf8(b@),
    ensures
        encode_utf8(r@) == b@,
{
    match utf8_text(b.as_slice()) {
        Some(s) => {
            proof {
                decode_utf8_encode_utf8(b@);
            }
            s
        },
        None => {
            // unreachable: `b` is valid UTF-8
            proof {
                assert(!valid_utf8(b@));
            }
            String::new()
        },
    }
}

proof fn lemma_join_valid(a: Seq<u8>, b: Seq<u8>)
    requires
        valid_utf8(a),
        valid_utf8(b),
    ensures
        valid_utf8(a + seq![SEP] + b),
{
    lemma_sep_valid_utf8();
    valid_utf8_concat(a, seq![SEP]);
    valid_utf8_concat(a + seq![SEP], b);
}

/// Reads one text field.
fn text_field(b: &Vec<u8>) -> (r: Option<String>)
    ensures
        match r {
            Some(s) => valid_utf8(b@) && s@ == decode_utf8(b@),
            None => !valid_utf8(b@),
        },
{
    utf8_text(b.as_slice())
}

impl Flow {
    /// The tag byte of this flow.
    pub fn tag(&self) -> (r: u8)
        ensures
            r == flow_tag(*self),
    {
        match self {
            Flow::I => 0x49,
            Flow::O => 0x4f,
        }
    }

    /// The tag as text: `I` or `O`.
    pub fn to_string(&self) -> (r: String)
        ensures
            encode_utf8(r@) == seq![flow_tag(*self)],
    {
        let b = vec![self.tag()];
        proof {
            lemma_ascii_valid_utf8(b@);
        }
        text_of(&b)
    }

    /// Reads a flow tag.
    pub fn from_bytes(b: &[u8]) -> (r: Result<Flow, UtxoParseError>)
        ensures
            r == parse_flow(b@),
    {
        if b.len() == 1 && b[0] == 0x49 {
            assert(b@ =~= seq![0x49u8]);
            Ok(Flow::I)
        } else if b.len() == 1 && b[0] == 0x4f {
            assert(b@ =~= seq![0x4fu8]);
            Ok(Flow::O)
        } else {
            Err(UtxoParseError::InvalidFormat)
        }
    }

    /// Reads a flow tag from text.
    pub fn from_str(s: &str) -> (r: Result<Flow, UtxoParseError>)
        ensures
            r == parse_flow(encode_utf8(s@)),
    {
        Flow::from_bytes(s.as_bytes())
    }
}

impl Utxo {
    /// The stored text `index|address|value`.
    pub fn to_bytes(&self) -> (r: Vec<u8>)
        ensures
            r@ == utxo_bytes(self@),
    {
        let mut out: Vec<u8> = Vec::new();
        push_decimal(&mut out, self.index as u64);
        out.push(SEP);
        push_text(&mut out, &self.address);
        out.push(SEP);
        push_decimal(&mut out, self.value);
        assert(out@ =~= utxo_bytes(self@));
        out
    }

    /// The stored text `index|address|value` as a string.
    pub fn to_string(&self) -> (r: String)
        ensures
            encode_utf8(r@) == utxo_bytes(self@),
    {
        let b = self.to_bytes();
        proof {
            lemma_decimal_valid_utf8(self.index as nat);
            lemma_decimal_valid_utf8(self.value as nat);
            encode_utf8_valid_utf8(self.address@);
            lemma_join_valid(decimal(self.index as nat), encode_utf8(self.address@));
            lemma_join_valid(
                decimal(self.index as nat) + seq![SEP] + encode_utf8(self.address@),
                decimal(self.value as nat),
            );
        }
        text_of(&b)
    }

    /// Reads the stored text of an output.
    pub fn from_bytes(b: &[u8]) -> (r: Result<Utxo, UtxoParseError>)
        ensures
            match r {
                Ok(u) => parse_utxo(b@) == Ok::<UtxoView, UtxoParseError>(u@),
                Err(e) => parse_utxo(b@) == Err::<UtxoView, UtxoParseError>(e),
            },
    {
        if utf8_text(b).is_none() {
            return Err(UtxoParseError::DecodingError);
        }
        let parts = split_fields_of(b);
        assert(parts@.map_values(|f: Vec<u8>| f@).len() == parts.len());
        if parts.len() != 3 {
            return Err(UtxoParseError::InvalidFormat);
        }
        assert(parts@.map_values(|f: Vec<u8>| f@)[0] == parts[0]@);
        assert(parts@.map_values(|f: Vec<u8>| f@)[1] == parts[1]@);
        assert(parts@.map_values(|f: Vec<u8>| f@)[2] == parts[2]@);
        let index = match parse_usize(parts[0].as_slice()) {
            Some(i) => i,
            None => return Err(UtxoParseError::ParseInt),
        };
        let value = match parse_u64(parts[2].as_slice()) {
            Some(v) => v,
            None => return Err(UtxoParseError::ParseInt),
        };
        match text_field(&parts[1]) {
            Some(address) => Ok(Utxo { index, address, value }),
            None => Err(UtxoParseError::DecodingError),
        }
    }

    /// Reads the stored text of an output from a string.
    pub fn from_str(s: &str) -> (r: Result<Utxo, UtxoParseError>)
        ensures
            match r {
                Ok(u) => parse_utxo(encode_utf8(s@)) == Ok::<UtxoView, UtxoParseError>(u@),
                Err(e) => parse_utxo(encode_utf8(s@)) == Err::<UtxoView, UtxoParseError>(e),
            },
    {
        Utxo::from_bytes(s.as_bytes())
    }
}

impl IndexedTxid {
    /// The cache key `tx_id|index`.
    pub fn to_bytes(&self) -> (r: Vec<u8>)
        ensures
            r@ == outpoint_bytes(self@),
    {
        let mut out: Vec<u8> = Vec::new();
        push_text(&mut out, &self.tx_id);
        out.push(SEP);
        push_decimal(&mut out, self.index as u64);
        assert(out@ =~= outpoint_bytes(self@));
        out
    }

    /// The cache key `tx_id|index` as a string.
    pub fn to_string(&self) -> (r: String)
        ensures
            encode_utf8(r@) == outpoint_bytes(self@),
    {
        let b = self.to_bytes();
        proof {
            lemma_decimal_valid_utf8(self.index as nat);
            encode_utf8_valid_utf8(self.tx_id@);
            lemma_join_valid(encode_utf8(self.tx_id@), decimal(self.index as nat));
        }
        text_of(&b)
    }

    /// Reads a cache key.
    pub fn from_bytes(b: &[u8]) -> (r: Result<IndexedTxid, UtxoParseError>)
        ensures
            match r {
                Ok(o) => parse_outpoint(b@) == Ok::<OutPointView, UtxoParseError>(o@),
                Err(e) => parse_outpoint(b@) == Err::<OutPointView, UtxoParseError>(e),
            },
    {
        if utf8_text(b).is_none() {
            return Err(UtxoParseError::DecodingError);
        }
        let parts = split_fields_of(b);
        assert(parts@.map_values(|f: Vec<u8>| f@).len() == parts.len());
        if parts.len() != 2 {
            return Err(UtxoParseError::InvalidFormat);
        }
        assert(parts@.map_values(|f: Vec<u8>| f@)[0] == parts[0]@);
        assert(parts@.map_values(|f: Vec<u8>| f@)[1] == parts[1]@);
        let index = match parse_usize(parts[1].as_slice()) {
            Some(i) => i,
            None => return Err(UtxoParseError::ParseInt),
        };
        match text_field(&parts[0]) {
            Some(tx_id) => Ok(IndexedTxid { tx_id, index }),
            None => Err(UtxoParseError::DecodingError),
        }
    }

    /// Reads a cache key from a string.
    pub fn from_str(s: &str) -> (r: Result<IndexedTxid, UtxoParseError>)
        ensures
            match r {
                Ok(o) => parse_outpoint(encode_utf8(s@)) == Ok::<OutPointView, UtxoParseError>(o@),
                Err(e) => parse_outpoint(encode_utf8(s@)) == Err::<OutPointView, UtxoParseError>(e),
            },
    {
        IndexedTxid::from_bytes(s.as_bytes())
    }
}

impl AddressFlow {
    /// The address-index key `address|flow|tx_id|utxo_index`.
    pub fn to_bytes(&self) -> (r: Vec<u8>)
        ensures
            r@ == address_flow_bytes(self@),
    {
        let mut out: Vec<u8> = Vec::new();
        push_text(&mut out, &self.address);
        out.push(SEP);
        out.push(self.flow.tag());
        out.push(SEP);
        push_text(&mut out, &self.tx_id);
        out.push(SEP);
        push_decimal(&mut out, self.utxo_index as u64);
        assert(out@ =~= address_flow_bytes(self@));
        out
    }

    /// The address-index key `address|flow|tx_id|utxo_index` as a string.
    pub fn to_string(&self) -> (r: String)
        ensures
            encode_utf8(r@) == address_flow_bytes(self@),
    {
        let b = self.to_bytes();
        proof {
            let a = encode_utf8(self.address@);
            let g = seq![flow_tag(self.flow)];
            let t = encode_utf8(self.tx_id@);
            let i = decimal(self.utxo_index as nat);
            lemma_decimal_valid_utf8(self.utxo_index as nat);
            encode_utf8_valid_utf8(self.address@);
            encode_utf8_valid_utf8(self.tx_id@);
            lemma_ascii_valid_utf8(g);
            lemma_join_valid(a, g);
            lemma_join_valid(a + seq![SEP] + g, t);
            lemma_join_valid(a + seq![SEP] + g + seq![SEP] + t, i);
        }
        text_of(&b)
    }

    /// Reads an address-index key.
    pub fn from_bytes(b: &[u8]) -> (r: Result<AddressFlow, UtxoParseError>)
        ensures
            match r {
                Ok(a) => parse_address_flow(b@) == Ok::<AddressFlowView, UtxoParseError>(a@),
                Err(e) => parse_address_flow(b@) == Err::<AddressFlowView, UtxoParseError>(e),
            },
    {
        if utf8_text(b).is_none() {
            return Err(UtxoParseError::DecodingError);
        }
        let parts = split_fields_of(b);
        assert(parts@.map_values(|f: Vec<u8>| f@).len() == parts.len());
        if parts.len() != 4 {
            return Err(UtxoParseError::InvalidFormat);
        }
        assert(parts@.map_values(|f: Vec<u8>| f@)[0] == parts[0]@);
        assert(parts@.map_values(|f: Vec<u8>| f@)[1] == parts[1]@);
        assert(parts@.map_values(|f: Vec<u8>| f@)[2] == parts[2]@);
        assert(parts@.map_values(|f: Vec<u8>| f@)[3] == parts[3]@);
        let flow = match Flow::from_bytes(parts[1].as_slice()) {
            Ok(f) => f,
            Err(e) => return Err(e),
        };
        let utxo_index = match parse_usize(parts[3].as_slice()) {
            Some(i) => i,
            None => return Err(UtxoParseError::ParseInt),
        };
        let address = match text_field(&parts[0]) {
            Some(a) => a,
            None => return Err(UtxoParseError::DecodingError),
        };
        match text_field(&parts[2]) {
            Some(tx_id) => Ok(AddressFlow { address, flow, tx_id, utxo_index }),
            None => Err(UtxoParseError::DecodingError),
        }
    }

    /// Reads an address-index key from a string.
    pub fn from_str(s: &str) -> (r: Result<AddressFlow, UtxoParseError>)
        ensures
            match r {
                Ok(a) => parse_address_flow(encode_utf8(s@)) == Ok::<AddressFlowView, UtxoParseError>(
                    a@,
                ),
                Err(e) => parse_address_flow(encode_utf8(s@)) == Err::<
                    AddressFlowView,
                    UtxoParseError,
                >(e),
            },
    {
        AddressFlow::from_bytes(s.as_bytes())
    }
}

} // verus!
