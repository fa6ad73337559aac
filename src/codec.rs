//! Byte-level text encodings shared by the stored keys and values: decimal
//! numbers, `|`-separated fields and big-endian satoshi amounts.
use vstd::prelude::*;
use vstd::utf8::*;

verus! {

/// The field separator `|`.
pub const SEP: u8 = 0x7c;

/// The sign that std's unsigned parsing accepts in front of the digits.
pub const PLUS: u8 = 0x2b;

pub open spec fn is_digit(b: u8) -> bool {
    0x30 <= b <= 0x39
}

/// Decimal text of `n`, most significant digit first, without leading zeros.
pub open spec fn decimal(n: nat) -> Seq<u8>
    decreases n,
{
    if n < 10 {
        seq![(0x30 + n) as u8]
    } else {
        decimal(n / 10).push((0x30 + n % 10) as u8)
    }
}

/// The value of a run of decimal digits.
pub open spec fn digits_value(s: Seq<u8>) -> nat
    decreases s.len(),
{
    if s.len() == 0 {
        0
    } else {
        digits_value(s.drop_last()) * 10 + (s.last() - 0x30) as nat
    }
}

pub open spec fn all_digits(s: Seq<u8>) -> bool {
    forall|i: int| 0 <= i < s.len() ==> is_digit(#[trigger] s[i])
}

/// The digits of an unsigned number as std reads them: one leading `+` is dropped.
pub open spec fn unsigned_digits(s: Seq<u8>) -> Seq<u8> {
    if s.len() > 0 && s[0] == PLUS {
        s.drop_first()
    } else {
        s
    }
}

/// The number that `s` denotes as unsigned decimal text, if it is one.
pub open spec fn parse_unsigned(s: Seq<u8>) -> Option<nat> {
    let d = unsigned_digits(s);
    if d.len() > 0 && all_digits(d) {
        Some(digits_value(d))
    } else {
        None
    }
}

/// `s` read as a `u64`, as `u64::from_str` reads it.
pub open spec fn parse_u64_spec(s: Seq<u8>) -> Option<u64> {
    match parse_unsigned(s) {
        Some(v) => if v <= u64::MAX {
            Some(v as u64)
        } else {
            None
        },
        None => None,
    }
}

/// `s` read as a `usize`, as `usize::from_str` reads it.
pub open spec fn parse_usize_spec(s: Seq<u8>) -> Option<usize> {
    match parse_unsigned(s) {
        Some(v) => if v <= usize::MAX {
            Some(v as usize)
        } else {
            None
        },
        None => None,
    }
}

/// `s` cut at every separator; text without a separator is one field.
pub open spec fn split_fields(s: Seq<u8>) -> Seq<Seq<u8>>
    decreases s.len(),
{
    if s.len() == 0 {
        seq![Seq::empty()]
    } else {
        let p = split_fields(s.drop_last());
        if s.last() == SEP {
            p.push(Seq::empty())
        } else {
            p.update(p.len() - 1, p.last().push(s.last()))
        }
    }
}

/// The eight bytes of `v`, most significant first.
pub open spec fn be_bytes(v: u64) -> Seq<u8> {
    seq![
        (v >> 56u64) as u8,
        (v >> 48u64) as u8,
        (v >> 40u64) as u8,
        (v >> 32u64) as u8,
        (v >> 24u64) as u8,
        (v >> 16u64) as u8,
        (v >> 8u64) as u8,
        v as u8,
    ]
}

pub proof fn lemma_decimal_digits(n: nat)
    ensures
        decimal(n).len() > 0,
        all_digits(decimal(n)),
        decimal(n)[0] != PLUS,
        !decimal(n).contains(SEP),
        digits_value(decimal(n)) == n,
    decreases n,
{
    if n >= 10 {
        lemma_decimal_digits(n / 10);
        let d = decimal(n);
        assert(d.drop_last() =~= decimal(n / 10));
        assert(d.last() == (0x30 + n % 10) as u8);
        assert(n == (n / 10) * 10 + n % 10);
        assert(digits_value(d) == digits_value(d.drop_last()) * 10 + (d.last() - 0x30) as nat);
        assert forall|i: int| 0 <= i < d.len() implies is_digit(#[trigger] d[i]) by {
            if i < d.len() - 1 {
                assert(d[i] == decimal(n / 10)[i]);
            }
        }
        if d.contains(SEP) {
            let i = choose|i: int| 0 <= i < d.len() && d[i] == SEP;
            assert(is_digit(d[i]));
        }
    } else {
        let d = decimal(n);
        assert(d.drop_last() =~= Seq::<u8>::empty());
        assert(digits_value(d) == digits_value(d.drop_last()) * 10 + (d.last() - 0x30) as nat);
        if d.contains(SEP) {
            let i = choose|i: int| 0 <= i < d.len() && d[i] == SEP;
            assert(i == 0);
        }
    }
}

/// Decimal text reads back as the number it was made from.
pub proof fn lemma_parse_decimal(n: nat)
    ensures
        parse_unsigned(decimal(n)) == Some(n),
{
    lemma_decimal_digits(n);
}

proof fn lemma_digits_value_prefix(s: Seq<u8>, k: int)
    requires
        0 <= k <= s.len(),
    ensures
        digits_value(s.subrange(0, k)) <= digits_value(s),
    decreases s.len() - k,
{
    if k < s.len() {
        lemma_digits_value_prefix(s, k + 1);
        assert(s.subrange(0, k + 1).drop_last() =~= s.subrange(0, k));
    } else {
        assert(s.subrange(0, k) =~= s);
    }
}

pub proof fn lemma_split_len(s: Seq<u8>)
    ensures
        split_fields(s).len() >= 1,
    decreases s.len(),
{
    if s.len() > 0 {
        lemma_split_len(s.drop_last());
    }
}

/// Text without a separator is a single field.
pub proof fn lemma_split_single(s: Seq<u8>)
    requires
        !s.contains(SEP),
    ensures
        split_fields(s) == seq![s],
    decreases s.len(),
{
    if s.len() == 0 {
        assert(s =~= Seq::<u8>::empty());
        assert(split_fields(s) =~= seq![s]);
    } else {
        let t = s.drop_last();
        assert(!t.contains(SEP)) by {
            if t.contains(SEP) {
                let i = choose|i: int| 0 <= i < t.len() && t[i] == SEP;
                assert(s[i] == SEP);
            }
        }
        lemma_split_single(t);
        assert(s[s.len() - 1] != SEP);
        assert(split_fields(t) == seq![t]);
        assert(split_fields(s) == seq![t].update(0, t.push(s.last())));
        assert(t.push(s.last()) =~= s);
        assert(split_fields(s) =~= seq![s]);
    }
}

/// Joining two texts with a separator joins their fields.
pub proof fn lemma_split_join(a: Seq<u8>, b: Seq<u8>)
    ensures
        split_fields(a + seq![SEP] + b) == split_fields(a) + split_fields(b),
    decreases b.len(),
{
    let s = a + seq![SEP] + b;
    lemma_split_len(a);
    if b.len() == 0 {
        assert(s.drop_last() =~= a);
        assert(split_fields(s) =~= split_fields(a) + split_fields(b));
    } else {
        let b1 = b.drop_last();
        lemma_split_join(a, b1);
        lemma_split_len(b1);
        assert(s.drop_last() =~= a + seq![SEP] + b1);
        assert(s.last() == b.last());
        assert(split_fields(s) =~= split_fields(a) + split_fields(b));
    }
}

/// Appends the decimal text of `n` to `out`.
pub fn push_decimal(out: &mut Vec<u8>, n: u64)
    ensures
        final(out)@ == old(out)@ + decimal(n as nat),
    decreases n,
{
    if n >= 10 {
        push_decimal(out, n / 10);
    }
    out.push((0x30 + n % 10) as u8);
    proof {
        if n >= 10 {
            assert(final(out)@ =~= old(out)@ + decimal(n as nat));
        } else {
            assert(final(out)@ =~= old(out)@ + decimal(n as nat));
        }
    }
}

/// Appends all of `src` to `out`.
pub fn push_all(out: &mut Vec<u8>, src: &[u8])
    ensures
        final(out)@ == old(out)@ + src@,
{
    let ghost start = out@;
    let mut i: usize = 0;
    while i < src.len()
        invariant
            i <= src.len(),
            out@ == start + src@.subrange(0, i as int),
        decreases src.len() - i,
    {
        out.push(src[i]);
        i += 1;
        assert(out@ =~= start + src@.subrange(0, i as int));
    }
    assert(src@.subrange(0, i as int) =~= src@);
}

/// Reads unsigned decimal text, accepting what std's unsigned `from_str` accepts.
pub fn parse_u64(s: &[u8]) -> (r: Option<u64>)
    ensures
        r == parse_u64_spec(s@),
{
    let start: usize = if s.len() > 0 && s[0] == PLUS {
        1
    } else {
        0
    };
    let ghost d = unsigned_digits(s@);
    assert(d =~= s@.subrange(start as int, s@.len() as int));
    if start >= s.len() {
        return None;
    }
    let mut acc: u64 = 0;
    let mut i: usize = start;
    while i < s.len()
        invariant
            start <= i <= s.len(),
            d == unsigned_digits(s@),
            d =~= s@.subrange(start as int, s@.len() as int),
            all_digits(d.subrange(0, i - start)),
            acc == digits_value(d.subrange(0, i - start)),
        decreases s.len() - i,
    {
        let b = s[i];
        if b < 0x30 || b > 0x39 {
            assert(d[i - start] == b);
            assert(!all_digits(d));
            return None;
        }
        let digit: u64 = (b - 0x30) as u64;
        let ghost k = (i - start) as int;
        assert(d.subrange(0, k + 1).drop_last() =~= d.subrange(0, k));
        assert(d.subrange(0, k + 1).last() == b);
        assert(digits_value(d.subrange(0, k + 1)) == acc * 10 + digit);
        if acc > (u64::MAX - digit) / 10 {
            assert(digits_value(d.subrange(0, k + 1)) > u64::MAX) by (nonlinear_arith)
                requires
                    digits_value(d.subrange(0, k + 1)) == acc * 10 + digit,
                    acc > (u64::MAX - digit) / 10,
                    digit <= 9,
            ;
            proof {
                lemma_digits_value_prefix(d, k + 1);
            }
            return None;
        }
        assert(acc * 10 + digit <= u64::MAX) by (nonlinear_arith)
            requires
                acc <= (u64::MAX - digit) / 10,
                digit <= 9,
        ;
        acc = acc * 10 + digit;
        i += 1;
        assert forall|j: int| 0 <= j < k + 1 implies is_digit(#[trigger] d.subrange(0, k + 1)[j]) by {
            if j < k {
                assert(d.subrange(0, k + 1)[j] == d.subrange(0, k)[j]);
            }
        }
    }
    assert(d.subrange(0, (i - start) as int) =~= d);
    Some(acc)
}

/// Reads unsigned decimal text as a `usize`, accepting what std's `from_str` accepts.
pub fn parse_usize(s: &[u8]) -> (r: Option<usize>)
    ensures
        r == parse_usize_spec(s@),
{
    match parse_u64(s) {
        Some(v) => {
            if v as u128 <= usize::MAX as u128 {
                Some(v as usize)
            } else {
                None
            }
        },
        None => {
            proof {
                if let Some(v) = parse_unsigned(s@) {
                    assert(v > u64::MAX);
                }
            }
            None
        },
    }
}

/// Cuts `s` at every separator.
pub fn split_fields_of(s: &[u8]) -> (r: Vec<Vec<u8>>)
    ensures
        r@.map_values(|f: Vec<u8>| f@) == split_fields(s@),
{
    let mut parts: Vec<Vec<u8>> = Vec::new();
    let mut cur: Vec<u8> = Vec::new();
    let mut i: usize = 0;
    while i < s.len()
        invariant
            i <= s.len(),
            parts@.map_values(|f: Vec<u8>| f@).push(cur@) == split_fields(s@.subrange(0, i as int)),
        decreases s.len() - i,
    {
        let ghost before = s@.subrange(0, i as int);
        proof {
            lemma_split_len(before);
        }
        let b = s[i];
        if b == SEP {
            let done = cur;
            parts.push(done);
            cur = Vec::new();
        } else {
            cur.push(b);
        }
        i += 1;
        let ghost after = s@.subrange(0, i as int);
        assert(after.drop_last() =~= before);
        assert(parts@.map_values(|f: Vec<u8>| f@).push(cur@) =~= split_fields(after));
    }
    assert(s@.subrange(0, i as int) =~= s@);
    parts.push(cur);
    assert(parts@.map_values(|f: Vec<u8>| f@) =~= split_fields(s@));
    parts
}

/// The eight big-endian bytes of `v`.
pub fn be_bytes_of(v: u64) -> (r: Vec<u8>)
    ensures
        r@ == be_bytes(v),
{
    let r = vec![
        #[verifier::truncate] ((v >> 56u64) as u8),
        #[verifier::truncate] ((v >> 48u64) as u8),
        #[verifier::truncate] ((v >> 40u64) as u8),
        #[verifier::truncate] ((v >> 32u64) as u8),
        #[verifier::truncate] ((v >> 24u64) as u8),
        #[verifier::truncate] ((v >> 16u64) as u8),
        #[verifier::truncate] ((v >> 8u64) as u8),
        #[verifier::truncate] (v as u8),
    ];
    assert(r@ =~= be_bytes(v));
    r
}

/// Bytes below 0x80 are each a character of their own, so such text is valid UTF-8.
pub proof fn lemma_ascii_valid_utf8(b: Seq<u8>)
    requires
        forall|i: int| 0 <= i < b.len() ==> #[trigger] b[i] < 0x80,
    ensures
        valid_utf8(b),
{
    assert(b.subrange(0, 0) =~= Seq::<u8>::empty());
    assert forall|i: int| 0 <= 0 <= i < b.len() <= b.len() implies #[trigger] is_leading_byte_width_1(
        b[i],
    ) by {
        assert(b[i] < 0x80);
    }
    partial_valid_utf8_extend_ascii_block(b, 0, b.len() as int);
    assert(b.subrange(0, b.len() as int) =~= b);
}

pub proof fn lemma_decimal_valid_utf8(n: nat)
    ensures
        valid_utf8(decimal(n)),
{
    lemma_decimal_digits(n);
    let d = decimal(n);
    assert forall|i: int| 0 <= i < d.len() implies #[trigger] d[i] < 0x80 by {
        assert(is_digit(d[i]));
    }
    lemma_ascii_valid_utf8(d);
}

/// Relies on `String::from_utf8`: it accepts exactly the byte strings that are
/// valid UTF-8, and the string it returns holds the characters they encode.
#[verifier::external_body]
pub fn utf8_text(b: &[u8]) -> (r: Option<String>)
    ensures
        match r {
            Some(s) => valid_utf8(b@) && s@ == decode_utf8(b@),
            None => !valid_utf8(b@),
        },
{
    String::from_utf8(b.to_vec()).ok()
}

} // verus!
