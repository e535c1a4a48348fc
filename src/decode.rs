//! The recursive-descent decoder, proved against a grammar of the format.
//!
//! Policy: integers and string lengths must be minimal decimals (no leading
//! zeros, no `-0`), integers must fit in 64 bits, a repeated dictionary key
//! keeps its last value, and dictionary entries come out in ascending key
//! order whatever order the input gave them in.
use vstd::prelude::*;
use crate::encode::{DIGIT_ZERO, MINUS, COLON, TAG_INT, TAG_LIST, TAG_DICT, TAG_END};
use crate::error::BencodeError;
use crate::value::{BValue, BencodeDict, BencodeElement, StringorByteArray, dict_insert, view_list};

verus! {

/// The deepest nesting of lists and dictionaries that `decode_bencode_element` accepts.
pub const MAX_DEPTH: usize = 512;

pub const I64_MAX_MAGNITUDE: u64 = 9223372036854775807;

pub const I64_MIN_MAGNITUDE: u64 = 9223372036854775808;

pub open spec fn is_digit(c: u8) -> bool {
    DIGIT_ZERO <= c && c <= DIGIT_ZERO + 9
}

/// A decimal without superfluous characters: one or more digits, and no
/// leading zero unless the text is `0` itself.
pub open spec fn canonical_nat_text(t: Seq<u8>) -> bool {
    &&& t.len() > 0
    &&& forall|i: int| 0 <= i < t.len() ==> is_digit(#[trigger] t[i])
    &&& (t[0] != DIGIT_ZERO || t.len() == 1)
}

/// The number that a string of decimal digits denotes.
pub open spec fn digits_value(t: Seq<u8>) -> nat
    decreases t.len(),
{
    if t.len() == 0 {
        0
    } else {
        digits_value(t.drop_last()) * 10 + (t.last() - DIGIT_ZERO) as nat
    }
}

/// The integer that the text between `i` and `e` stands for, if it is a
/// minimal decimal that fits in 64 bits: `-0` and leading zeros are refused.
pub open spec fn int_text_value(t: Seq<u8>) -> Option<int> {
    if t.len() > 0 && t[0] == MINUS {
        let m = t.drop_first();
        if canonical_nat_text(m) && digits_value(m) > 0 && digits_value(m) <= I64_MIN_MAGNITUDE {
            Some(-(digits_value(m) as int))
        } else {
            None
        }
    } else if canonical_nat_text(t) && digits_value(t) <= I64_MAX_MAGNITUDE {
        Some(digits_value(t) as int)
    } else {
        None
    }
}

/// The first index at or after `i` that holds `c`, or `b.len()` if none does.
pub open spec fn find_byte(b: Seq<u8>, i: int, c: u8) -> int
    decreases b.len() - i,
{
    if i < 0 || i >= b.len() {
        b.len() as int
    } else if b[i] == c {
        i
    } else {
        find_byte(b, i + 1, c)
    }
}

/// An integer `i<decimal>e` that starts at `pos`: its value and the offset after it.
pub open spec fn parse_integer(b: Seq<u8>, pos: int) -> Result<(BValue, int), BencodeError> {
    let e = find_byte(b, pos + 1, TAG_END);
    if e >= b.len() {
        Err(BencodeError::UnterminatedInteger(pos as usize))
    } else {
        match int_text_value(b.subrange(pos + 1, e)) {
            Some(v) => Ok((BValue::Int(v), e + 1)),
            None => Err(BencodeError::MalformedInteger(pos as usize)),
        }
    }
}

/// A byte string `<length>:<bytes>` that starts at `pos`.
pub open spec fn parse_string(b: Seq<u8>, pos: int) -> Result<(BValue, int), BencodeError> {
    let c = find_byte(b, pos, COLON);
    if c >= b.len() {
        Err(BencodeError::UnterminatedString(pos as usize))
    } else if !canonical_nat_text(b.subrange(pos, c)) {
        Err(BencodeError::MalformedStringLength(pos as usize))
    } else {
        let n = digits_value(b.subrange(pos, c));
        if n > b.len() - (c + 1) {
            Err(BencodeError::UnterminatedString(pos as usize))
        } else {
            Ok((BValue::Bytes(b.subrange(c + 1, c + 1 + n)), c + 1 + n))
        }
    }
}

/// The value that starts at `pos`, with `depth` more levels of lists and
/// dictionaries allowed: the value and the offset after it.
pub open spec fn parse(b: Seq<u8>, pos: int, depth: nat) -> Result<(BValue, int), BencodeError>
    decreases depth, 0nat, 0nat,
{
    if pos < 0 || pos >= b.len() {
        Err(BencodeError::UnknownTag(pos as usize))
    } else if b[pos] == TAG_INT {
        parse_integer(b, pos)
    } else if is_digit(b[pos]) {
        parse_string(b, pos)
    } else if b[pos] == TAG_LIST {
        if depth == 0 {
            Err(BencodeError::RecursionLimitExceeded(pos as usize))
        } else {
            match parse_items(b, pos + 1, (depth - 1) as nat, Seq::empty()) {
                Ok((s, p)) => Ok((BValue::List(s), p)),
                Err(e) => Err(e),
            }
        }
    } else if b[pos] == TAG_DICT {
        if depth == 0 {
            Err(BencodeError::RecursionLimitExceeded(pos as usize))
        } else {
            match parse_entries(b, pos + 1, (depth - 1) as nat, Seq::empty()) {
                Ok((d, p)) => Ok((BValue::Dict(d), p)),
                Err(e) => Err(e),
            }
        }
    } else {
        Err(BencodeError::UnknownTag(pos as usize))
    }
}

/// The items of a list from `pos` to its closing `e`, after those in `acc`.
pub open spec fn parse_items(b: Seq<u8>, pos: int, depth: nat, acc: Seq<BValue>) -> Result<
    (Seq<BValue>, int),
    BencodeError,
>
    decreases depth, 1nat, b.len() - pos,
{
    if pos < 0 || pos >= b.len() {
        Err(BencodeError::UnterminatedList(pos as usize))
    } else if b[pos] == TAG_END {
        Ok((acc, pos + 1))
    } else {
        match parse(b, pos, depth) {
            Err(e) => Err(e),
            Ok((v, p)) => if p <= pos || p > b.len() {
                Err(BencodeError::UnterminatedList(pos as usize))
            } else {
                parse_items(b, p, depth, acc.push(v))
            },
        }
    }
}

/// The entries of a dictionary from `pos` to its closing `e`, inserted in
/// turn into `acc`: a later value for a key overwrites an earlier one.
pub open spec fn parse_entries(
    b: Seq<u8>,
    pos: int,
    depth: nat,
    acc: Seq<(Seq<u8>, BValue)>,
) -> Result<(Seq<(Seq<u8>, BValue)>, int), BencodeError>
    decreases depth, 1nat, b.len() - pos,
{
    if pos < 0 || pos >= b.len() {
        Err(BencodeError::UnterminatedDict(pos as usize))
    } else if b[pos] == TAG_END {
        Ok((acc, pos + 1))
    } else {
        match parse(b, pos, depth) {
            Err(e) => Err(e),
            Ok((k, p)) => if !(k is Bytes) {
                Err(BencodeError::NonStringDictKey(pos as usize))
            } else if p <= pos || p >= b.len() {
                Err(BencodeError::UnterminatedDict(p as usize))
            } else if b[p] == TAG_END {
                Err(BencodeError::OddDictEntryCount(p as usize))
            } else {
                match parse(b, p, depth) {
                    Err(e) => Err(e),
                    Ok((v, q)) => if q <= p || q > b.len() {
                        Err(BencodeError::UnterminatedDict(p as usize))
                    } else {
                        parse_entries(b, q, depth, dict_insert(acc, k->Bytes_0, v))
                    },
                }
            },
        }
    }
}

/// What decoding the whole of `b` gives: one value, with nothing after it.
pub open spec fn decode_spec(b: Seq<u8>, max_depth: nat) -> Result<BValue, BencodeError> {
    match parse(b, 0, max_depth) {
        Err(e) => Err(e),
        Ok((v, p)) => if p == b.len() {
            Ok(v)
        } else {
            Err(BencodeError::TrailingBytes(p as usize))
        },
    }
}


proof fn lemma_digits_value_prefix(t: Seq<u8>, k: int)
    requires
        0 <= k <= t.len(),
        forall|i: int| 0 <= i < t.len() ==> is_digit(#[trigger] t[i]),
    ensures
        digits_value(t.subrange(0, k)) <= digits_value(t),
    decreases t.len(),
{
    if k < t.len() {
        let u = t.drop_last();
        assert(t.subrange(0, k) =~= u.subrange(0, k));
        lemma_digits_value_prefix(u, k);
    } else {
        assert(t.subrange(0, k) =~= t);
    }
}

/// The first offset at or after `from` that holds `c`, or `b.len()`.
fn find_byte_from(b: &[u8], from: usize, c: u8) -> (r: usize)
    requires
        from <= b.len(),
    ensures
        r as int == find_byte(b@, from as int, c),
{
    let mut i: usize = from;
    while i < b.len()
        invariant
            from <= i <= b.len(),
            find_byte(b@, from as int, c) == find_byte(b@, i as int, c),
        decreases b.len() - i,
    {
        if b[i] == c {
            return i;
        }
        i = i + 1;
    }
    i
}

/// Whether `b[start..end]` is a decimal without superfluous characters.
fn is_canonical_nat(b: &[u8], start: usize, end: usize) -> (r: bool)
    requires
        start <= end <= b.len(),
    ensures
        r == canonical_nat_text(b@.subrange(start as int, end as int)),
{
    let ghost t = b@.subrange(start as int, end as int);
    if start == end {
        return false;
    }
    let mut i: usize = start;
    while i < end
        invariant
            start <= i <= end,
            end <= b.len(),
            t == b@.subrange(start as int, end as int),
            forall|j: int| 0 <= j < i - start ==> is_digit(#[trigger] t[j]),
        decreases end - i,
    {
        if b[i] < DIGIT_ZERO || b[i] > DIGIT_ZERO + 9 {
            assert(t[i - start] == b@[i as int]);
            return false;
        }
        assert(t[i - start] == b@[i as int]);
        i = i + 1;
    }
    assert(t[0] == b@[start as int]);
    b[start] != DIGIT_ZERO || end - start == 1
}

/// The value of the digits `b[start..end]` if it is at most `limit`.
fn parse_decimal(b: &[u8], start: usize, end: usize, limit: u64) -> (r: Option<u64>)
    requires
        start <= end <= b.len(),
        forall|i: int| start <= i < end ==> is_digit(#[trigger] b@[i]),
    ensures
        match r {
            Some(v) => v as nat == digits_value(b@.subrange(start as int, end as int)) && v <= limit,
            None => digits_value(b@.subrange(start as int, end as int)) > limit,
        },
{
    let ghost t = b@.subrange(start as int, end as int);
    let mut v: u64 = 0;
    let mut i: usize = start;
    assert(b@.subrange(start as int, start as int) =~= Seq::<u8>::empty());
    while i < end
        invariant
            start <= i <= end,
            end <= b.len(),
            t == b@.subrange(start as int, end as int),
            forall|i: int| start <= i < end ==> is_digit(#[trigger] b@[i]),
            v as nat == digits_value(b@.subrange(start as int, i as int)),
            v <= limit,
        decreases end - i,
    {
        let d: u64 = (b[i] - DIGIT_ZERO) as u64;
        let ghost next = b@.subrange(start as int, i + 1);
        proof {
            assert(next.drop_last() =~= b@.subrange(start as int, i as int));
            assert(digits_value(next) == v * 10 + d);
            assert forall|j: int| 0 <= j < t.len() implies is_digit(#[trigger] t[j]) by {
                assert(t[j] == b@[start + j]);
            }
            assert(t.subrange(0, i + 1 - start) =~= next);
        }
        if d > limit || v > (limit - d) / 10 {
            proof {
                if d <= limit {
                    let q = (limit - d) / 10;
                    assert(v * 10 + d > limit) by (nonlinear_arith)
                        requires
                            v > q,
                            q == (limit - d) / 10,
                            d <= limit,
                    ;
                }
                lemma_digits_value_prefix(t, i + 1 - start);
            }
            return None;
        }
        proof {
            let q = (limit - d) / 10;
            assert(v * 10 + d <= limit) by (nonlinear_arith)
                requires
                    v <= q,
                    q == (limit - d) / 10,
                    d <= limit,
            ;
        }
        v = v * 10 + d;
        i = i + 1;
    }
    Some(v)
}

/// Decodes the integer `i<decimal>e` that starts at `pos`: the offset after
/// it and its value.
fn decode_bencode_integer(b: &[u8], pos: usize) -> (r: Result<(usize, i64), BencodeError>)
    requires
        pos < b.len(),
    ensures
        match parse_integer(b@, pos as int) {
            Ok((v, p)) => r matches Ok((q, i)) && q as int == p && v == BValue::Int(i as int),
            Err(e) => r == Err::<(usize, i64), BencodeError>(e),
        },
        r matches Ok((q, _)) ==> pos < q <= b.len(),
{
    let e = find_byte_from(b, pos + 1, TAG_END);
    if e >= b.len() {
        return Err(BencodeError::UnterminatedInteger(pos));
    }
    let ghost t = b@.subrange(pos + 1, e as int);
    proof {
        lemma_find_byte_bounds(b@, pos + 1, TAG_END);
    }
    if pos + 1 < e && b[pos + 1] == MINUS {
        proof {
            assert(t[0] == b@[pos + 1]);
            assert(t.drop_first() =~= b@.subrange(pos + 2, e as int));
        }
        if !is_canonical_nat(b, pos + 2, e) {
            return Err(BencodeError::MalformedInteger(pos));
        }
        proof {
            let m = b@.subrange(pos + 2, e as int);
            assert forall|i: int| pos + 2 <= i < e implies is_digit(#[trigger] b@[i]) by {
                assert(m[i - pos - 2] == b@[i]);
            }
        }
        match parse_decimal(b, pos + 2, e, I64_MIN_MAGNITUDE) {
            None => Err(BencodeError::MalformedInteger(pos)),
            Some(m) => {
                if m == 0 {
                    Err(BencodeError::MalformedInteger(pos))
                } else if m == I64_MIN_MAGNITUDE {
                    Ok((e + 1, i64::MIN))
                } else {
                    Ok((e + 1, -(m as i64)))
                }
            },
        }
    } else {
        proof {
            if pos + 1 < e {
                assert(t[0] == b@[pos + 1]);
            }
        }
        if !is_canonical_nat(b, pos + 1, e) {
            return Err(BencodeError::MalformedInteger(pos));
        }
        proof {
            assert forall|i: int| pos + 1 <= i < e implies is_digit(#[trigger] b@[i]) by {
                assert(t[i - pos - 1] == b@[i]);
            }
        }
        match parse_decimal(b, pos + 1, e, I64_MAX_MAGNITUDE) {
            None => Err(BencodeError::MalformedInteger(pos)),
            Some(m) => Ok((e + 1, m as i64)),
        }
    }
}

pub(crate) proof fn lemma_find_byte_bounds(b: Seq<u8>, i: int, c: u8)
    ensures
        find_byte(b, i, c) <= b.len(),
        0 <= i <= b.len() ==> i <= find_byte(b, i, c),
        find_byte(b, i, c) < b.len() ==> b[find_byte(b, i, c)] == c,
    decreases b.len() - i,
{
    if 0 <= i < b.len() && b[i] != c {
        lemma_find_byte_bounds(b, i + 1, c);
    }
}


/// Decodes the byte string `<length>:<bytes>` that starts at `pos`: the
/// offset after it and its bytes.
fn decode_bencode_string(b: &[u8], pos: usize) -> (r: Result<(usize, StringorByteArray), BencodeError>)
    requires
        pos < b.len(),
    ensures
        match parse_string(b@, pos as int) {
            Ok((v, p)) => r matches Ok((q, s)) && q as int == p && v == BValue::Bytes(s@),
            Err(e) => r == Err::<(usize, StringorByteArray), BencodeError>(e),
        },
        r matches Ok((q, _)) ==> pos < q <= b.len(),
{
    let c = find_byte_from(b, pos, COLON);
    if c >= b.len() {
        return Err(BencodeError::UnterminatedString(pos));
    }
    proof {
        lemma_find_byte_bounds(b@, pos as int, COLON);
    }
    if !is_canonical_nat(b, pos, c) {
        return Err(BencodeError::MalformedStringLength(pos));
    }
    proof {
        let t = b@.subrange(pos as int, c as int);
        assert forall|i: int| pos <= i < c implies is_digit(#[trigger] b@[i]) by {
            assert(t[i - pos] == b@[i]);
        }
    }
    let room: usize = b.len() - (c + 1);
    match parse_decimal(b, pos, c, room as u64) {
        None => Err(BencodeError::UnterminatedString(pos)),
        Some(n) => {
            let n: usize = n as usize;
            let bytes = vstd::slice::slice_to_vec(&b[c + 1..c + 1 + n]);
            Ok((c + 1 + n, StringorByteArray::NotStringAble(bytes)))
        },
    }
}

/// Decodes the value that starts at `pos`, with `depth` more levels of
/// lists and dictionaries allowed: the offset after it and the value.
fn decoder_internal(b: &[u8], pos: usize, depth: usize) -> (r: Result<(usize, BencodeElement), BencodeError>)
    requires
        pos <= b.len(),
    ensures
        match parse(b@, pos as int, depth as nat) {
            Ok((v, p)) => r matches Ok((q, e)) && q as int == p && e@ == v,
            Err(err) => r == Err::<(usize, BencodeElement), BencodeError>(err),
        },
        r matches Ok((q, _)) ==> pos < q <= b.len(),
    decreases depth,
{
    if pos >= b.len() {
        return Err(BencodeError::UnknownTag(pos));
    }
    let tag = b[pos];
    if tag == TAG_INT {
        match decode_bencode_integer(b, pos) {
            Ok((q, i)) => Ok((q, BencodeElement::BencodeInteger(i))),
            Err(e) => Err(e),
        }
    } else if DIGIT_ZERO <= tag && tag <= DIGIT_ZERO + 9 {
        match decode_bencode_string(b, pos) {
            Ok((q, s)) => Ok((q, BencodeElement::BencodeString(s))),
            Err(e) => Err(e),
        }
    } else if tag == TAG_LIST {
        if depth == 0 {
            return Err(BencodeError::RecursionLimitExceeded(pos));
        }
        let ghost d = (depth - 1) as nat;
        let mut res: Vec<BencodeElement> = Vec::new();
        let mut i: usize = pos + 1;
        loop
            invariant
                pos < i <= b.len(),
                depth > 0,
                d == depth - 1,
                parse(b@, pos as int, depth as nat) == (match parse_items(b@, i as int, d, view_list(res@)) {
                    Ok((s, p)) => Ok((BValue::List(s), p)),
                    Err(e) => Err(e),
                }),
            decreases b.len() - i,
        {
            if i >= b.len() {
                return Err(BencodeError::UnterminatedList(i));
            }
            if b[i] == TAG_END {
                return Ok((i + 1, BencodeElement::BencodeList(res)));
            }
            match decoder_internal(b, i, depth - 1) {
                Err(e) => {
                    return Err(e);
                },
                Ok((q, e)) => {
                    let ghost before = res@;
                    res.push(e);
                    proof {
                        assert(res@.drop_last() =~= before);
                    }
                    i = q;
                },
            }
        }
    } else if tag == TAG_DICT {
        if depth == 0 {
            return Err(BencodeError::RecursionLimitExceeded(pos));
        }
        let ghost d = (depth - 1) as nat;
        let mut res = BencodeDict::new();
        let mut i: usize = pos + 1;
        loop
            invariant
                pos < i <= b.len(),
                depth > 0,
                d == depth - 1,
                parse(b@, pos as int, depth as nat) == (match parse_entries(b@, i as int, d, res@) {
                    Ok((s, p)) => Ok((BValue::Dict(s), p)),
                    Err(e) => Err(e),
                }),
            decreases b.len() - i,
        {
            if i >= b.len() {
                return Err(BencodeError::UnterminatedDict(i));
            }
            if b[i] == TAG_END {
                return Ok((i + 1, BencodeElement::BencodeDict(res)));
            }
            match decoder_internal(b, i, depth - 1) {
                Err(e) => {
                    return Err(e);
                },
                Ok((q, k)) => {
                    let key = match k {
                        BencodeElement::BencodeString(s) => s.into_bytes(),
                        _ => {
                            return Err(BencodeError::NonStringDictKey(i));
                        },
                    };
                    if q >= b.len() {
                        return Err(BencodeError::UnterminatedDict(q));
                    }
                    if b[q] == TAG_END {
                        return Err(BencodeError::OddDictEntryCount(q));
                    }
                    match decoder_internal(b, q, depth - 1) {
                        Err(e) => {
                            return Err(e);
                        },
                        Ok((q2, v)) => {
                            res.insert(key, v);
                            i = q2;
                        },
                    }
                },
            }
        }
    } else {
        Err(BencodeError::UnknownTag(pos))
    }
}

/// Decodes the whole of `bytes` as one value, allowing at most `max_depth`
/// levels of nested lists and dictionaries.
pub fn decode_with_limit(bytes: &[u8], max_depth: usize) -> (r: Result<BencodeElement, BencodeError>)
    ensures
        match decode_spec(bytes@, max_depth as nat) {
            Ok(v) => r matches Ok(e) && e@ == v,
            Err(err) => r == Err::<BencodeElement, BencodeError>(err),
        },
        r matches Ok(e) ==> e@.canonical() && e@.depth() <= max_depth as nat,
{
    proof {
        crate::laws::lemma_decoded_canonical(bytes@, max_depth as nat);
    }
    match decoder_internal(bytes, 0, max_depth) {
        Err(e) => Err(e),
        Ok((q, e)) => {
            if q == bytes.len() {
                Ok(e)
            } else {
                Err(BencodeError::TrailingBytes(q))
            }
        },
    }
}

/// Decodes the whole of `bencode_str` as one value, allowing `MAX_DEPTH`
/// levels of nested lists and dictionaries.
pub fn decode_bencode_element(bencode_str: Vec<u8>) -> (r: Result<BencodeElement, BencodeError>)
    ensures
        match decode_spec(bencode_str@, MAX_DEPTH as nat) {
            Ok(v) => r matches Ok(e) && e@ == v,
            Err(err) => r == Err::<BencodeElement, BencodeError>(err),
        },
        r matches Ok(e) ==> e@.canonical() && e@.depth() <= MAX_DEPTH as nat,
{
    decode_with_limit(bencode_str.as_slice(), MAX_DEPTH)
}

} // verus!
