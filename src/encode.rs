//! The canonical encoder.
use vstd::prelude::*;
use crate::error::BencodeError;
use crate::value::{
    BValue, BencodeElement, keys_sorted, BencodeEncodeble, view_list, view_entries, lemma_view_list,
    lemma_view_entries,
};

verus! {

/// `0`; the other digits follow it.
pub const DIGIT_ZERO: u8 = 48;
/// `-`
pub const MINUS: u8 = 45;
/// `:`, between a string's length and its bytes.
pub const COLON: u8 = 58;
/// `i`, which opens an integer.
pub const TAG_INT: u8 = 105;
/// `l`, which opens a list.
pub const TAG_LIST: u8 = 108;
/// `d`, which opens a dictionary.
pub const TAG_DICT: u8 = 100;
/// `e`, which closes an integer, a list or a dictionary.
pub const TAG_END: u8 = 101;

/// The shortest decimal digits of `n`.
pub open spec fn nat_digits(n: nat) -> Seq<u8>
    decreases n,
{
    if n < 10 {
        seq![(DIGIT_ZERO + n) as u8]
    } else {
        nat_digits(n / 10) + seq![(DIGIT_ZERO + n % 10) as u8]
    }
}

/// The minimal decimal text of `i`: a `-` only when negative, no leading zeros.
pub open spec fn int_text(i: int) -> Seq<u8> {
    if i < 0 {
        seq![MINUS] + nat_digits((-i) as nat)
    } else {
        nat_digits(i as nat)
    }
}

/// `i<decimal>e`
pub open spec fn encode_int(i: int) -> Seq<u8> {
    seq![TAG_INT] + int_text(i) + seq![TAG_END]
}

/// `<length>:<bytes>`
pub open spec fn encode_bytes(b: Seq<u8>) -> Seq<u8> {
    nat_digits(b.len()) + seq![COLON] + b
}

/// The canonical encoding of a value.
pub open spec fn encoding(v: BValue) -> Seq<u8>
    decreases v,
{
    match v {
        BValue::Int(i) => encode_int(i),
        BValue::Bytes(b) => encode_bytes(b),
        BValue::List(s) => seq![TAG_LIST] + encode_items(s) + seq![TAG_END],
        BValue::Dict(d) => seq![TAG_DICT] + encode_entries(d) + seq![TAG_END],
    }
}

/// The encodings of the items, one after the other.
pub open spec fn encode_items(s: Seq<BValue>) -> Seq<u8>
    decreases s,
{
    if s.len() == 0 {
        Seq::empty()
    } else {
        encode_items(s.drop_last()) + encoding(s.last())
    }
}

/// Each entry's key, then its value, one entry after the other.
pub open spec fn encode_entries(d: Seq<(Seq<u8>, BValue)>) -> Seq<u8>
    decreases d,
{
    if d.len() == 0 {
        Seq::empty()
    } else {
        encode_entries(d.drop_last()) + encode_bytes(d.last().0) + encoding(d.last().1)
    }
}

/// Appends the decimal digits of `n`.
pub(crate) fn push_digits(out: &mut Vec<u8>, n: u64)
    ensures
        final(out)@ == old(out)@ + nat_digits(n as nat),
    decreases n,
{
    if n >= 10 {
        push_digits(out, n / 10);
    }
    out.push(DIGIT_ZERO + (n % 10) as u8);
    proof {
        assert(final(out)@ =~= old(out)@ + nat_digits(n as nat));
    }
}

/// `i<decimal>e`.
fn encode_integer_bencode(i: i64) -> (r: Vec<u8>)
    ensures
        r@ == encode_int(i as int),
{
    let mut out: Vec<u8> = Vec::new();
    out.push(TAG_INT);
    if i < 0 {
        out.push(MINUS);
        let m: u64 = (-(i as i128)) as u64;
        push_digits(&mut out, m);
    } else {
        push_digits(&mut out, i as u64);
    }
    out.push(TAG_END);
    proof {
        assert(out@ =~= encode_int(i as int));
    }
    out
}

/// `<length>:<bytes>`.
fn encode_string_bencode(s: &[u8]) -> (r: Vec<u8>)
    ensures
        r@ == encode_bytes(s@),
{
    let mut out: Vec<u8> = Vec::new();
    push_digits(&mut out, s.len() as u64);
    out.push(COLON);
    out.extend_from_slice(s);
    proof {
        assert(out@ =~= encode_bytes(s@));
    }
    out
}

/// Appends the encoding of `value`.
fn encode_into(value: &BencodeElement, out: &mut Vec<u8>)
    ensures
        final(out)@ == old(out)@ + encoding(value@),
        value@.canonical(),
    decreases value@,
{
    match value {
        BencodeElement::BencodeInteger(i) => {
            let e = encode_integer_bencode(*i);
            out.extend_from_slice(e.as_slice());
        },
        BencodeElement::BencodeString(s) => {
            let e = encode_string_bencode(s.as_bytes());
            out.extend_from_slice(e.as_slice());
        },
        BencodeElement::BencodeList(l) => {
            let ghost start = out@;
            out.push(TAG_LIST);
            let mut i: usize = 0;
            while i < l.len()
                invariant
                    0 <= i <= l.len(),
                    *value == BencodeElement::BencodeList(*l),
                    forall|j: int| 0 <= j < i ==> (#[trigger] view_list(l@)[j]).canonical(),
                    out@ == start + seq![TAG_LIST] + encode_items(view_list(l@.subrange(0, i as int))),
                decreases l.len() - i,
            {
                proof {
                    lemma_view_list(l@);
                    let vl = view_list(l@);
                    assert(value@ == BValue::List(vl));
                    let mv = value@;
                    assert(decreases_to!(mv => mv->List_0));
                    vstd::seq::axiom_seq_index_decreases(vl, i as int);
                    assert(decreases_to!(mv => vl[i as int]));
                }
                encode_into(&l[i], out);
                proof {
                    let s = l@.subrange(0, i + 1);
                    assert(s.drop_last() =~= l@.subrange(0, i as int));
                    let vs = view_list(s);
                    assert(vs == view_list(l@.subrange(0, i as int)).push(l@[i as int]@));
                    assert(vs.drop_last() =~= view_list(l@.subrange(0, i as int)));
                    assert(out@ =~= start + seq![TAG_LIST] + encode_items(view_list(s)));
                }
                i = i + 1;
            }
            out.push(TAG_END);
            proof {
                assert(l@.subrange(0, l@.len() as int) =~= l@);
                lemma_view_list(l@);
                assert(out@ =~= old(out)@ + encoding(value@));
            }
        },
        BencodeElement::BencodeDict(d) => {
            let ghost start = out@;
            let entries = d.entries();
            out.push(TAG_DICT);
            let mut i: usize = 0;
            while i < entries.len()
                invariant
                    0 <= i <= entries.len(),
                    *value == BencodeElement::BencodeDict(*d),
                    keys_sorted(d@),
                    forall|j: int| 0 <= j < i ==> (#[trigger] view_entries(entries@)[j]).1.canonical(),
                    entries@ == d.spec_entries(),
                    out@ == start + seq![TAG_DICT] + encode_entries(
                        view_entries(entries@.subrange(0, i as int)),
                    ),
                decreases entries.len() - i,
            {
                let k = encode_string_bencode(entries[i].0.as_slice());
                out.extend_from_slice(k.as_slice());
                proof {
                    lemma_view_entries(entries@);
                    let ve = view_entries(entries@);
                    assert(value@ == BValue::Dict(ve));
                    let mv = value@;
                    assert(decreases_to!(mv => mv->Dict_0));
                    vstd::seq::axiom_seq_index_decreases(ve, i as int);
                    assert(decreases_to!(mv => ve[i as int]));
                    assert(decreases_to!(mv => ve[i as int].1));
                }
                encode_into(&entries[i].1, out);
                proof {
                    let s = entries@.subrange(0, i + 1);
                    assert(s.drop_last() =~= entries@.subrange(0, i as int));
                    let vs = view_entries(s);
                    assert(vs == view_entries(entries@.subrange(0, i as int)).push(
                        (entries@[i as int].0@, entries@[i as int].1@),
                    ));
                    assert(vs.drop_last() =~= view_entries(entries@.subrange(0, i as int)));
                    assert(out@ =~= start + seq![TAG_DICT] + encode_entries(view_entries(s)));
                }
                i = i + 1;
            }
            out.push(TAG_END);
            proof {
                assert(entries@.subrange(0, entries@.len() as int) =~= entries@);
                lemma_view_entries(entries@);
                assert(out@ =~= old(out)@ + encoding(value@));
            }
        },
    }
}

/// Encodes a value in canonical form. It never fails.
pub fn encode_bencode_value(value: &BencodeEncodeble) -> (r: Result<Vec<u8>, BencodeError>)
    ensures
        r is Ok,
        r matches Ok(bytes) && bytes@ == encoding(value@),
        value@.canonical(),
{
    let mut out: Vec<u8> = Vec::new();
    encode_into(value, &mut out);
    proof {
        assert(out@ =~= encoding(value@));
    }
    Ok(out)
}

} // verus!
