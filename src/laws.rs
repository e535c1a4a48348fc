//! What holds between the encoder and the decoder.
use vstd::prelude::*;
use crate::decode::{
    parse, parse_items, parse_entries, decode_spec, find_byte, is_digit, canonical_nat_text,
    digits_value, int_text_value,
};
use crate::error::BencodeError;
use crate::encode::{
    DIGIT_ZERO, MINUS, COLON, TAG_INT, TAG_LIST, TAG_DICT, TAG_END,
    nat_digits, int_text, encode_int, encode_bytes, encoding, encode_items, encode_entries,
};
use crate::value::{
    BValue, keys_sorted, dict_insert, lemma_dict_insert_skip, lemma_dict_insert_sorted, seq_max_depth,
    entries_max_depth,
};

verus! {

/// `t` stands in `b` from offset `pos` on.
pub open spec fn at(b: Seq<u8>, pos: int, t: Seq<u8>) -> bool {
    &&& 0 <= pos
    &&& pos + t.len() <= b.len()
    &&& forall|k: int| 0 <= k < t.len() ==> b[pos + k] == #[trigger] t[k]
}

proof fn lemma_at_split(b: Seq<u8>, pos: int, x: Seq<u8>, y: Seq<u8>)
    requires
        at(b, pos, x + y),
    ensures
        at(b, pos, x),
        at(b, pos + x.len(), y),
{
    assert forall|k: int| 0 <= k < x.len() implies b[pos + k] == #[trigger] x[k] by {
        assert((x + y)[k] == x[k]);
    }
    assert forall|k: int| 0 <= k < y.len() implies b[pos + x.len() + k] == #[trigger] y[k] by {
        assert((x + y)[x.len() + k] == y[k]);
    }
}

proof fn lemma_nat_digits(n: nat)
    ensures
        canonical_nat_text(nat_digits(n)),
        digits_value(nat_digits(n)) == n,
        n > 0 ==> nat_digits(n)[0] != DIGIT_ZERO,
    decreases n,
{
    let t = nat_digits(n);
    if n >= 10 {
        lemma_nat_digits(n / 10);
        let u = nat_digits(n / 10);
        assert(t.drop_last() =~= u);
        assert(t[0] == u[0]);
        assert(t.last() == (DIGIT_ZERO + n % 10) as u8);
        assert((t.last() - DIGIT_ZERO) as nat == n % 10);
        assert(digits_value(t) == (n / 10) * 10 + n % 10);
        assert forall|i: int| 0 <= i < t.len() implies is_digit(#[trigger] t[i]) by {
            if i < u.len() {
                assert(t[i] == u[i]);
            }
        }
    } else {
        assert(t.drop_last() =~= Seq::<u8>::empty());
        assert(t.last() == (DIGIT_ZERO + n) as u8);
        assert(digits_value(t) == digits_value(Seq::<u8>::empty()) * 10 + (t.last() - DIGIT_ZERO) as nat);
    }
}

proof fn lemma_int_text(i: int)
    requires
        i64::MIN <= i <= i64::MAX,
    ensures
        int_text_value(int_text(i)) == Some(i),
        forall|k: int| 0 <= k < int_text(i).len() ==> #[trigger] int_text(i)[k] != TAG_END,
{
    if i < 0 {
        let m = nat_digits((-i) as nat);
        lemma_nat_digits((-i) as nat);
        assert((seq![MINUS] + m).drop_first() =~= m);
        assert forall|k: int| 0 <= k < int_text(i).len() implies #[trigger] int_text(i)[k] != TAG_END by {
            if k > 0 {
                assert(int_text(i)[k] == m[k - 1]);
            }
        }
    } else {
        lemma_nat_digits(i as nat);
        assert(is_digit(int_text(i)[0]));
    }
}

proof fn lemma_find_byte_skip(b: Seq<u8>, i: int, j: int, c: u8)
    requires
        0 <= i <= j <= b.len(),
        forall|k: int| i <= k < j ==> b[k] != c,
    ensures
        find_byte(b, i, c) == find_byte(b, j, c),
    decreases j - i,
{
    if i < j {
        lemma_find_byte_skip(b, i + 1, j, c);
    }
}

/// Where the first byte of an encoding stands, and that it is never `e`.
proof fn lemma_encoding_first(v: BValue)
    ensures
        encoding(v).len() > 0,
        encoding(v)[0] != TAG_END,
{
    match v {
        BValue::Bytes(s) => {
            lemma_nat_digits(s.len());
            assert(encoding(v)[0] == nat_digits(s.len())[0]);
        },
        _ => {},
    }
}

proof fn lemma_parse_int_at(b: Seq<u8>, pos: int, i: int, depth: nat)
    requires
        i64::MIN <= i <= i64::MAX,
        at(b, pos, encode_int(i)),
    ensures
        parse(b, pos, depth) == Ok::<(BValue, int), BencodeError>(
            (BValue::Int(i), pos + encode_int(i).len()),
        ),
{
    let t = int_text(i);
    lemma_int_text(i);
    lemma_at_split(b, pos, seq![TAG_INT] + t, seq![TAG_END]);
    lemma_at_split(b, pos, seq![TAG_INT], t);
    assert(b[pos + 0] == seq![TAG_INT][0]);
    let e = pos + 1 + t.len();
    assert(b[e] == seq![TAG_END][0]);
    assert forall|k: int| pos + 1 <= k < e implies b[k] != TAG_END by {
        assert(b[pos + 1 + (k - pos - 1)] == t[k - pos - 1]);
    }
    lemma_find_byte_skip(b, pos + 1, e, TAG_END);
    assert(b.subrange(pos + 1, e) =~= t);
}

proof fn lemma_parse_bytes_at(b: Seq<u8>, pos: int, s: Seq<u8>, depth: nat)
    requires
        at(b, pos, encode_bytes(s)),
    ensures
        parse(b, pos, depth) == Ok::<(BValue, int), BencodeError>(
            (BValue::Bytes(s), pos + encode_bytes(s).len()),
        ),
{
    let t = nat_digits(s.len());
    lemma_nat_digits(s.len());
    lemma_at_split(b, pos, t + seq![COLON], s);
    lemma_at_split(b, pos, t, seq![COLON]);
    assert(b[pos] == t[0]);
    let c = pos + t.len();
    assert(b[c] == seq![COLON][0]);
    assert forall|k: int| pos <= k < c implies b[k] != COLON by {
        assert(b[pos + (k - pos)] == t[k - pos]);
    }
    lemma_find_byte_skip(b, pos, c, COLON);
    assert(b.subrange(pos, c) =~= t);
    assert(b.subrange(c + 1, c + 1 + s.len()) =~= s);
}

proof fn lemma_seq_max_depth(s: Seq<BValue>)
    ensures
        forall|i: int| 0 <= i < s.len() ==> (#[trigger] s[i]).depth() <= seq_max_depth(s),
    decreases s.len(),
{
    if s.len() > 0 {
        lemma_seq_max_depth(s.drop_last());
        assert forall|i: int| 0 <= i < s.len() implies (#[trigger] s[i]).depth() <= seq_max_depth(s) by {
            if i < s.len() - 1 {
                assert(s[i] == s.drop_last()[i]);
            }
        }
    }
}

proof fn lemma_entries_max_depth(d: Seq<(Seq<u8>, BValue)>)
    ensures
        forall|i: int| 0 <= i < d.len() ==> (#[trigger] d[i]).1.depth() <= entries_max_depth(d),
    decreases d.len(),
{
    if d.len() > 0 {
        lemma_entries_max_depth(d.drop_last());
        assert forall|i: int| 0 <= i < d.len() implies (#[trigger] d[i]).1.depth() <= entries_max_depth(d) by {
            if i < d.len() - 1 {
                assert(d[i] == d.drop_last()[i]);
            }
        }
    }
}

proof fn lemma_encode_items_front(s: Seq<BValue>)
    requires
        s.len() > 0,
    ensures
        encode_items(s) == encoding(s[0]) + encode_items(s.drop_first()),
    decreases s.len(),
{
    if s.len() == 1 {
        assert(s.drop_last() =~= Seq::<BValue>::empty());
        assert(s.drop_first() =~= Seq::<BValue>::empty());
        assert(encode_items(s) =~= encoding(s[0]) + encode_items(s.drop_first()));
    } else {
        lemma_encode_items_front(s.drop_last());
        assert(s.drop_last().drop_first() =~= s.drop_first().drop_last());
        assert(s.drop_first().last() == s.last());
        assert(encode_items(s) =~= encoding(s[0]) + encode_items(s.drop_first()));
    }
}

proof fn lemma_encode_entries_front(d: Seq<(Seq<u8>, BValue)>)
    requires
        d.len() > 0,
    ensures
        encode_entries(d) == encode_bytes(d[0].0) + encoding(d[0].1) + encode_entries(d.drop_first()),
    decreases d.len(),
{
    if d.len() == 1 {
        assert(d.drop_last() =~= Seq::<(Seq<u8>, BValue)>::empty());
        assert(d.drop_first() =~= Seq::<(Seq<u8>, BValue)>::empty());
        assert(encode_entries(d) =~= encode_bytes(d[0].0) + encoding(d[0].1) + encode_entries(
            d.drop_first(),
        ));
    } else {
        lemma_encode_entries_front(d.drop_last());
        assert(d.drop_last().drop_first() =~= d.drop_first().drop_last());
        assert(d.drop_first().last() == d.last());
        assert(encode_entries(d) =~= encode_bytes(d[0].0) + encoding(d[0].1) + encode_entries(
            d.drop_first(),
        ));
    }
}

/// The encoding of a canonical value, read where it stands, gives the value
/// back and ends where the encoding ends.
proof fn lemma_parse_at(b: Seq<u8>, pos: int, v: BValue, depth: nat)
    requires
        v.canonical(),
        v.depth() <= depth,
        at(b, pos, encoding(v)),
    ensures
        parse(b, pos, depth) == Ok::<(BValue, int), BencodeError>(
            (v, pos + encoding(v).len()),
        ),
    decreases v,
{
    match v {
        BValue::Int(i) => {
            lemma_parse_int_at(b, pos, i, depth);
        },
        BValue::Bytes(s) => {
            lemma_parse_bytes_at(b, pos, s, depth);
        },
        BValue::List(s) => {
            let e = encode_items(s);
            lemma_at_split(b, pos, seq![TAG_LIST] + e, seq![TAG_END]);
            lemma_at_split(b, pos, seq![TAG_LIST], e);
            assert(b[pos + 0] == seq![TAG_LIST][0]);
            assert(b[pos + 1 + e.len()] == seq![TAG_END][0]);
            lemma_seq_max_depth(s);
            assert(decreases_to!(v => v->List_0));
            lemma_parse_items(b, pos + 1, s, (depth - 1) as nat, Seq::empty());
            assert(Seq::<BValue>::empty() + s =~= s);
        },
        BValue::Dict(d) => {
            let e = encode_entries(d);
            lemma_at_split(b, pos, seq![TAG_DICT] + e, seq![TAG_END]);
            lemma_at_split(b, pos, seq![TAG_DICT], e);
            assert(b[pos + 0] == seq![TAG_DICT][0]);
            assert(b[pos + 1 + e.len()] == seq![TAG_END][0]);
            lemma_entries_max_depth(d);
            assert(Seq::<(Seq<u8>, BValue)>::empty() + d =~= d);
            assert(decreases_to!(v => v->Dict_0));
            lemma_parse_entries(b, pos + 1, d, (depth - 1) as nat, Seq::empty());
        },
    }
}

proof fn lemma_parse_items(b: Seq<u8>, pos: int, s: Seq<BValue>, depth: nat, acc: Seq<BValue>)
    requires
        forall|i: int| 0 <= i < s.len() ==> (#[trigger] s[i]).canonical() && s[i].depth() <= depth,
        at(b, pos, encode_items(s)),
        pos + encode_items(s).len() < b.len(),
        b[pos + encode_items(s).len()] == TAG_END,
    ensures
        parse_items(b, pos, depth, acc) == Ok::<(Seq<BValue>, int), BencodeError>(
            (acc + s, pos + encode_items(s).len() + 1),
        ),
    decreases s,
{
    if s.len() == 0 {
        assert(acc + s =~= acc);
    } else {
        let rest = s.drop_first();
        lemma_encode_items_front(s);
        let e0 = encoding(s[0]);
        lemma_at_split(b, pos, e0, encode_items(rest));
        lemma_encoding_first(s[0]);
        assert(b[pos] == e0[0]);
        lemma_parse_at(b, pos, s[0], depth);
        assert forall|i: int| 0 <= i < rest.len() implies (#[trigger] rest[i]).canonical()
            && rest[i].depth() <= depth by {
            assert(rest[i] == s[i + 1]);
        }
        lemma_parse_items(b, pos + e0.len(), rest, depth, acc.push(s[0]));
        assert(acc.push(s[0]) + rest =~= acc + s);
    }
}

proof fn lemma_parse_entries(
    b: Seq<u8>,
    pos: int,
    d: Seq<(Seq<u8>, BValue)>,
    depth: nat,
    acc: Seq<(Seq<u8>, BValue)>,
)
    requires
        keys_sorted(acc + d),
        forall|i: int| 0 <= i < d.len() ==> (#[trigger] d[i]).1.canonical() && d[i].1.depth() <= depth,
        at(b, pos, encode_entries(d)),
        pos + encode_entries(d).len() < b.len(),
        b[pos + encode_entries(d).len()] == TAG_END,
    ensures
        parse_entries(b, pos, depth, acc) == Ok::<
            (Seq<(Seq<u8>, BValue)>, int),
            BencodeError,
        >((acc + d, pos + encode_entries(d).len() + 1)),
    decreases d,
{
    if d.len() == 0 {
        assert(acc + d =~= acc);
    } else {
        let rest = d.drop_first();
        let k = d[0].0;
        let v = d[0].1;
        lemma_encode_entries_front(d);
        let ek = encode_bytes(k);
        let ev = encoding(v);
        lemma_at_split(b, pos, ek + ev, encode_entries(rest));
        lemma_at_split(b, pos, ek, ev);
        lemma_parse_bytes_at(b, pos, k, depth);
        lemma_encoding_first(v);
        let p = pos + ek.len();
        assert(b[p] == ev[0]);
        lemma_parse_at(b, p, v, depth);
        let n = acc.len() as int;
        assert forall|j: int| 0 <= j < n implies crate::order::lex_lt(#[trigger] acc[j].0, k) by {
            assert((acc + d)[j] == acc[j]);
            assert((acc + d)[n] == d[0]);
        }
        lemma_dict_insert_skip(acc, k, v, n);
        assert(acc.subrange(0, n) + seq![(k, v)] + acc.subrange(n, n) =~= acc.push(
            (k, v),
        ));
        assert(d[0] == (k, v));
        assert(acc.push((k, v)) + rest =~= acc + d);
        assert forall|i: int| 0 <= i < rest.len() implies (#[trigger] rest[i]).1.canonical()
            && rest[i].1.depth() <= depth by {
            assert(rest[i] == d[i + 1]);
        }
        lemma_parse_entries(b, p + ev.len(), rest, depth, acc.push((k, v)));
    }
}

proof fn lemma_seq_max_depth_bound(s: Seq<BValue>, n: nat)
    requires
        forall|i: int| 0 <= i < s.len() ==> (#[trigger] s[i]).depth() <= n,
    ensures
        seq_max_depth(s) <= n,
    decreases s.len(),
{
    if s.len() > 0 {
        assert forall|i: int| 0 <= i < s.len() - 1 implies (#[trigger] s.drop_last()[i]).depth() <= n by {
            assert(s.drop_last()[i] == s[i]);
        }
        lemma_seq_max_depth_bound(s.drop_last(), n);
    }
}

proof fn lemma_entries_max_depth_bound(d: Seq<(Seq<u8>, BValue)>, n: nat)
    requires
        forall|i: int| 0 <= i < d.len() ==> (#[trigger] d[i]).1.depth() <= n,
    ensures
        entries_max_depth(d) <= n,
    decreases d.len(),
{
    if d.len() > 0 {
        assert forall|i: int| 0 <= i < d.len() - 1 implies (#[trigger] d.drop_last()[i]).1.depth() <= n by {
            assert(d.drop_last()[i] == d[i]);
        }
        lemma_entries_max_depth_bound(d.drop_last(), n);
    }
}

/// Every entry after an insertion is the inserted one or one from before.
proof fn lemma_dict_insert_from(d: Seq<(Seq<u8>, BValue)>, k: Seq<u8>, v: BValue)
    ensures
        forall|i: int| 0 <= i < dict_insert(d, k, v).len() ==> #[trigger] dict_insert(d, k, v)[i] == (k, v)
            || exists|j: int| 0 <= j < d.len() && dict_insert(d, k, v)[i] == d[j],
    decreases d.len(),
{
    let t = dict_insert(d, k, v);
    if d.len() == 0 {
    } else if d[0].0 == k {
        assert forall|i: int| 0 <= i < t.len() implies #[trigger] t[i] == (k, v) || exists|j: int|
            0 <= j < d.len() && t[i] == d[j] by {
            if i > 0 {
                assert(t[i] == d[i]);
            }
        }
    } else if lex_lt_first(k, d) {
        assert forall|i: int| 0 <= i < t.len() implies #[trigger] t[i] == (k, v) || exists|j: int|
            0 <= j < d.len() && t[i] == d[j] by {
            if i > 0 {
                assert(t[i] == d[i - 1]);
            }
        }
    } else {
        let r = d.drop_first();
        lemma_dict_insert_from(r, k, v);
        assert forall|i: int| 0 <= i < t.len() implies #[trigger] t[i] == (k, v) || exists|j: int|
            0 <= j < d.len() && t[i] == d[j] by {
            if i == 0 {
                assert(t[0] == d[0]);
            } else {
                assert(t[i] == dict_insert(r, k, v)[i - 1]);
                if t[i] != (k, v) {
                    let j = choose|j: int| 0 <= j < r.len() && dict_insert(r, k, v)[i - 1] == r[j];
                    assert(r[j] == d[j + 1]);
                }
            }
        }
    }
}

spec fn lex_lt_first(k: Seq<u8>, d: Seq<(Seq<u8>, BValue)>) -> bool {
    crate::order::lex_lt(k, d[0].0)
}

/// The values that entries hold are canonical and no deeper than `n`.
spec fn entries_ok(d: Seq<(Seq<u8>, BValue)>, n: nat) -> bool {
    &&& keys_sorted(d)
    &&& forall|i: int| 0 <= i < d.len() ==> (#[trigger] d[i]).1.canonical() && d[i].1.depth() <= n
}

proof fn lemma_entries_ok_insert(d: Seq<(Seq<u8>, BValue)>, k: Seq<u8>, v: BValue, n: nat)
    requires
        entries_ok(d, n),
        v.canonical(),
        v.depth() <= n,
    ensures
        entries_ok(dict_insert(d, k, v), n),
{
    lemma_dict_insert_sorted(d, k, v);
    lemma_dict_insert_from(d, k, v);
    let t = dict_insert(d, k, v);
    assert forall|i: int| 0 <= i < t.len() implies (#[trigger] t[i]).1.canonical() && t[i].1.depth() <= n by {
        if t[i] != (k, v) {
            let j = choose|j: int| 0 <= j < d.len() && t[i] == d[j];
            assert(d[j].1.canonical());
        }
    }
}

/// What the decoder reads is canonical, no deeper than allowed, and ends
/// after where it starts.
proof fn lemma_parse_ok(b: Seq<u8>, pos: int, depth: nat)
    ensures
        parse(b, pos, depth) matches Ok((v, p)) ==> v.canonical() && v.depth() <= depth && pos < p
            <= b.len(),
    decreases depth, 0nat, 0nat,
{
    if 0 <= pos < b.len() {
        if b[pos] == TAG_INT {
            crate::decode::lemma_find_byte_bounds(b, pos + 1, TAG_END);
        } else if crate::decode::is_digit(b[pos]) {
            crate::decode::lemma_find_byte_bounds(b, pos, COLON);
        } else if b[pos] == TAG_LIST && depth > 0 {
            let d = (depth - 1) as nat;
            lemma_items_ok(b, pos + 1, d, Seq::empty());
            if let Ok((s, p)) = parse_items(b, pos + 1, d, Seq::empty()) {
                lemma_seq_max_depth_bound(s, d);
            }
        } else if b[pos] == TAG_DICT && depth > 0 {
            let d = (depth - 1) as nat;
            lemma_entries_ok(b, pos + 1, d, Seq::empty());
            if let Ok((e, p)) = parse_entries(b, pos + 1, d, Seq::empty()) {
                lemma_entries_max_depth_bound(e, d);
            }
        }
    }
}

proof fn lemma_items_ok(b: Seq<u8>, pos: int, depth: nat, acc: Seq<BValue>)
    requires
        forall|i: int| 0 <= i < acc.len() ==> (#[trigger] acc[i]).canonical() && acc[i].depth() <= depth,
    ensures
        parse_items(b, pos, depth, acc) matches Ok((s, p)) ==> pos < p <= b.len() && forall|i: int|
            0 <= i < s.len() ==> (#[trigger] s[i]).canonical() && s[i].depth() <= depth,
    decreases depth, 1nat, b.len() - pos,
{
    if 0 <= pos < b.len() && b[pos] != TAG_END {
        lemma_parse_ok(b, pos, depth);
        if let Ok((v, p)) = parse(b, pos, depth) {
            let acc2 = acc.push(v);
            assert forall|i: int| 0 <= i < acc2.len() implies (#[trigger] acc2[i]).canonical()
                && acc2[i].depth() <= depth by {
                if i < acc.len() {
                    assert(acc2[i] == acc[i]);
                }
            }
            lemma_items_ok(b, p, depth, acc2);
        }
    }
}

proof fn lemma_entries_ok(b: Seq<u8>, pos: int, depth: nat, acc: Seq<(Seq<u8>, BValue)>)
    requires
        entries_ok(acc, depth),
    ensures
        parse_entries(b, pos, depth, acc) matches Ok((d, p)) ==> pos < p <= b.len() && entries_ok(d, depth),
    decreases depth, 1nat, b.len() - pos,
{
    if 0 <= pos < b.len() && b[pos] != TAG_END {
        lemma_parse_ok(b, pos, depth);
        if let Ok((k, p)) = parse(b, pos, depth) {
            if k is Bytes && pos < p < b.len() && b[p] != TAG_END {
                lemma_parse_ok(b, p, depth);
                if let Ok((v, q)) = parse(b, p, depth) {
                    lemma_entries_ok_insert(acc, k->Bytes_0, v, depth);
                    lemma_entries_ok(b, q, depth, dict_insert(acc, k->Bytes_0, v));
                }
            }
        }
    }
}

/// A value that the decoder yields is canonical and within the depth limit.
pub proof fn lemma_decoded_canonical(b: Seq<u8>, max_depth: nat)
    ensures
        decode_spec(b, max_depth) matches Ok(v) ==> v.canonical() && v.depth() <= max_depth,
{
    lemma_parse_ok(b, 0, max_depth);
}

/// Decoding the encoding of a value that the decoder yielded gives that value back.
pub proof fn lemma_decoded_round_trip(b: Seq<u8>, max_depth: nat)
    ensures
        decode_spec(b, max_depth) matches Ok(v) ==> decode_spec(encoding(v), max_depth) == Ok::<
            BValue,
            BencodeError,
        >(v),
{
    lemma_decoded_canonical(b, max_depth);
    if let Ok(v) = decode_spec(b, max_depth) {
        lemma_decode_encode(v, max_depth);
    }
}

proof fn lemma_parse_too_deep(b: Seq<u8>, pos: int, v: BValue, depth: nat)
    requires
        v.canonical(),
        v.depth() > depth,
        at(b, pos, encoding(v)),
    ensures
        parse(b, pos, depth) matches Err(BencodeError::RecursionLimitExceeded(_)),
    decreases v,
{
    match v {
        BValue::List(s) => {
            let e = encode_items(s);
            lemma_at_split(b, pos, seq![TAG_LIST] + e, seq![TAG_END]);
            lemma_at_split(b, pos, seq![TAG_LIST], e);
            assert(b[pos + 0] == seq![TAG_LIST][0]);
            if depth > 0 {
                let d = (depth - 1) as nat;
                if forall|i: int| 0 <= i < s.len() ==> (#[trigger] s[i]).depth() <= d {
                    lemma_seq_max_depth_bound(s, d);
                }
                assert(decreases_to!(v => v->List_0));
                lemma_items_too_deep(b, pos + 1, s, d, Seq::empty());
            }
        },
        BValue::Dict(m) => {
            let e = encode_entries(m);
            lemma_at_split(b, pos, seq![TAG_DICT] + e, seq![TAG_END]);
            lemma_at_split(b, pos, seq![TAG_DICT], e);
            assert(b[pos + 0] == seq![TAG_DICT][0]);
            if depth > 0 {
                let d = (depth - 1) as nat;
                if forall|i: int| 0 <= i < m.len() ==> (#[trigger] m[i]).1.depth() <= d {
                    lemma_entries_max_depth_bound(m, d);
                }
                assert(decreases_to!(v => v->Dict_0));
                lemma_entries_too_deep(b, pos + 1, m, d, Seq::empty());
            }
        },
        _ => {},
    }
}

proof fn lemma_items_too_deep(b: Seq<u8>, pos: int, s: Seq<BValue>, depth: nat, acc: Seq<BValue>)
    requires
        forall|i: int| 0 <= i < s.len() ==> (#[trigger] s[i]).canonical(),
        exists|i: int| 0 <= i < s.len() && (#[trigger] s[i]).depth() > depth,
        at(b, pos, encode_items(s)),
    ensures
        parse_items(b, pos, depth, acc) matches Err(BencodeError::RecursionLimitExceeded(_)),
    decreases s,
{
    let rest = s.drop_first();
    lemma_encode_items_front(s);
    let e0 = encoding(s[0]);
    lemma_at_split(b, pos, e0, encode_items(rest));
    lemma_encoding_first(s[0]);
    assert(b[pos + 0] == e0[0]);
    if s[0].depth() > depth {
        lemma_parse_too_deep(b, pos, s[0], depth);
    } else {
        lemma_parse_at(b, pos, s[0], depth);
        let i = choose|i: int| 0 <= i < s.len() && (#[trigger] s[i]).depth() > depth;
        assert(rest[i - 1] == s[i]);
        assert forall|j: int| 0 <= j < rest.len() implies (#[trigger] rest[j]).canonical() by {
            assert(rest[j] == s[j + 1]);
        }
        lemma_items_too_deep(b, pos + e0.len(), rest, depth, acc.push(s[0]));
    }
}

proof fn lemma_entries_too_deep(
    b: Seq<u8>,
    pos: int,
    d: Seq<(Seq<u8>, BValue)>,
    depth: nat,
    acc: Seq<(Seq<u8>, BValue)>,
)
    requires
        forall|i: int| 0 <= i < d.len() ==> (#[trigger] d[i]).1.canonical(),
        exists|i: int| 0 <= i < d.len() && (#[trigger] d[i]).1.depth() > depth,
        at(b, pos, encode_entries(d)),
    ensures
        parse_entries(b, pos, depth, acc) matches Err(BencodeError::RecursionLimitExceeded(_)),
    decreases d,
{
    let rest = d.drop_first();
    let k = d[0].0;
    let v = d[0].1;
    lemma_encode_entries_front(d);
    let ek = encode_bytes(k);
    let ev = encoding(v);
    lemma_at_split(b, pos, ek + ev, encode_entries(rest));
    lemma_at_split(b, pos, ek, ev);
    lemma_parse_bytes_at(b, pos, k, depth);
    lemma_encoding_first(v);
    let p = pos + ek.len();
    assert(b[p + 0] == ev[0]);
    if v.depth() > depth {
        lemma_parse_too_deep(b, p, v, depth);
    } else {
        lemma_parse_at(b, p, v, depth);
        let i = choose|i: int| 0 <= i < d.len() && (#[trigger] d[i]).1.depth() > depth;
        assert(rest[i - 1] == d[i]);
        assert forall|j: int| 0 <= j < rest.len() implies (#[trigger] rest[j]).1.canonical() by {
            assert(rest[j] == d[j + 1]);
        }
        lemma_entries_too_deep(b, p + ev.len(), rest, depth, dict_insert(acc, k, v));
    }
}

/// A canonical value nested deeper than the limit is refused with
/// `RecursionLimitExceeded`, whatever else it holds.
pub proof fn lemma_too_deep_refused(v: BValue, max_depth: nat)
    requires
        v.canonical(),
        v.depth() > max_depth,
    ensures
        decode_spec(encoding(v), max_depth) matches Err(BencodeError::RecursionLimitExceeded(_)),
{
    lemma_parse_too_deep(encoding(v), 0, v, max_depth);
}

/// A string whose declared length runs past the end of the input is
/// refused with `UnterminatedString`, and nothing past the end is read.
pub proof fn lemma_string_overrun(b: Seq<u8>, pos: int, depth: nat)
    requires
        0 <= pos < b.len(),
        is_digit(b[pos]),
        find_byte(b, pos, COLON) < b.len(),
        canonical_nat_text(b.subrange(pos, find_byte(b, pos, COLON))),
        digits_value(b.subrange(pos, find_byte(b, pos, COLON))) > b.len() - find_byte(b, pos, COLON) - 1,
    ensures
        parse(b, pos, depth) == Err::<(BValue, int), BencodeError>(
            BencodeError::UnterminatedString(pos as usize),
        ),
{
}

/// Decoding the encoding of a canonical value gives the value back, as long
/// as its nesting stays within the decoder's depth limit.
pub proof fn lemma_decode_encode(v: BValue, max_depth: nat)
    requires
        v.canonical(),
        v.depth() <= max_depth,
    ensures
        decode_spec(encoding(v), max_depth) == Ok::<BValue, BencodeError>(v),
{
    lemma_parse_at(encoding(v), 0, v, max_depth);
}

/// Any byte string, text or not, comes back from its encoding byte for byte.
pub proof fn lemma_bytes_round_trip(s: Seq<u8>, max_depth: nat)
    ensures
        decode_spec(encode_bytes(s), max_depth) == Ok::<BValue, BencodeError>(BValue::Bytes(s)),
{
    lemma_decode_encode(BValue::Bytes(s), max_depth);
}

/// Encoding, decoding, and encoding again gives the first encoding: the
/// canonical form is a fixed point.
pub proof fn lemma_reencode_idempotent(v: BValue, max_depth: nat)
    requires
        v.canonical(),
        v.depth() <= max_depth,
    ensures
        decode_spec(encoding(v), max_depth) matches Ok(w) && encoding(w) == encoding(v),
{
    lemma_decode_encode(v, max_depth);
}

} // verus!
