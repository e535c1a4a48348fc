//! The value tree, its mathematical model, and the sorted dictionary.
use vstd::prelude::*;
use crate::error::{BencodeError, BencodeKind};
use crate::order::{lex_lt, cmp_bytes, lemma_lex_irrefl, lemma_lex_asym, lemma_lex_total, lemma_lex_trans};

verus! {

/// The model of a Bencode value: an integer, a byte string, a list, or a
/// dictionary given as its (key, value) entries.
pub enum BValue {
    Int(int),
    Bytes(Seq<u8>),
    List(Seq<BValue>),
    Dict(Seq<(Seq<u8>, BValue)>),
}

/// The keys of the entries strictly ascend.
pub open spec fn keys_sorted(d: Seq<(Seq<u8>, BValue)>) -> bool {
    forall|i: int, j: int| 0 <= i < j < d.len() ==> lex_lt(#[trigger] d[i].0, #[trigger] d[j].0)
}

/// Sets `k` to `v` in entries sorted by key: an entry with key `k` is
/// replaced, otherwise a new one goes where the order puts it.
pub open spec fn dict_insert(d: Seq<(Seq<u8>, BValue)>, k: Seq<u8>, v: BValue) -> Seq<(Seq<u8>, BValue)>
    decreases d.len(),
{
    if d.len() == 0 {
        seq![(k, v)]
    } else if d[0].0 == k {
        seq![(k, v)] + d.drop_first()
    } else if lex_lt(k, d[0].0) {
        seq![(k, v)] + d
    } else {
        seq![d[0]] + dict_insert(d.drop_first(), k, v)
    }
}

/// Where the first `i` keys all sort before `k`, the insertion leaves them
/// in place and acts on what follows.
pub proof fn lemma_dict_insert_skip(d: Seq<(Seq<u8>, BValue)>, k: Seq<u8>, v: BValue, i: int)
    requires
        0 <= i <= d.len(),
        forall|j: int| 0 <= j < i ==> lex_lt(#[trigger] d[j].0, k),
    ensures
        (i < d.len() && d[i].0 == k) ==> dict_insert(d, k, v) == d.subrange(0, i) + seq![(k, v)]
            + d.subrange(i + 1, d.len() as int),
        (i == d.len() || (d[i].0 != k && !lex_lt(d[i].0, k))) ==> dict_insert(d, k, v)
            == d.subrange(0, i) + seq![(k, v)] + d.subrange(i, d.len() as int),
    decreases i,
{
    if i == 0 {
        if d.len() > 0 && d[0].0 != k && !lex_lt(d[0].0, k) {
            lemma_lex_total(d[0].0, k);
        }
        assert(d.subrange(0, 0) + seq![(k, v)] + d.subrange(0, d.len() as int) =~= seq![(k, v)] + d);
        if d.len() > 0 {
            assert(d.subrange(0, 0) + seq![(k, v)] + d.subrange(1, d.len() as int) =~= seq![(k, v)]
                + d.drop_first());
        }
    } else {
        lemma_lex_irrefl(k);
        lemma_lex_asym(d[0].0, k);
        let r = d.drop_first();
        assert forall|j: int| 0 <= j < i - 1 implies lex_lt(#[trigger] r[j].0, k) by {
            assert(r[j] == d[j + 1]);
        }
        lemma_dict_insert_skip(r, k, v, i - 1);
        assert(d.subrange(0, i) =~= seq![d[0]] + r.subrange(0, i - 1));
        if i < d.len() {
            assert(d.subrange(i + 1, d.len() as int) =~= r.subrange(i, r.len() as int));
        }
        assert(d.subrange(i, d.len() as int) =~= r.subrange(i - 1, r.len() as int));
    }
}

/// Inserting `k` into entries whose keys all sort after `lo`, where `k`
/// does too, gives entries whose keys all sort after `lo`.
proof fn lemma_dict_insert_bound(d: Seq<(Seq<u8>, BValue)>, k: Seq<u8>, v: BValue, lo: Seq<u8>)
    requires
        lex_lt(lo, k),
        forall|j: int| 0 <= j < d.len() ==> lex_lt(lo, #[trigger] d[j].0),
    ensures
        forall|j: int| 0 <= j < dict_insert(d, k, v).len() ==> lex_lt(lo, #[trigger] dict_insert(d, k, v)[j].0),
    decreases d.len(),
{
    if d.len() > 0 && d[0].0 != k && !lex_lt(k, d[0].0) {
        let r = d.drop_first();
        assert forall|j: int| 0 <= j < r.len() implies lex_lt(lo, #[trigger] r[j].0) by {
            assert(r[j] == d[j + 1]);
        }
        lemma_dict_insert_bound(r, k, v, lo);
        let t = dict_insert(d, k, v);
        assert forall|j: int| 0 <= j < t.len() implies lex_lt(lo, #[trigger] t[j].0) by {
            if j > 0 {
                assert(t[j] == dict_insert(r, k, v)[j - 1]);
            }
        }
    } else if d.len() > 0 && d[0].0 == k {
        let t = dict_insert(d, k, v);
        assert forall|j: int| 0 <= j < t.len() implies lex_lt(lo, #[trigger] t[j].0) by {
            if j > 0 {
                assert(t[j] == d[j]);
            }
        }
    } else if d.len() > 0 {
        let t = dict_insert(d, k, v);
        assert forall|j: int| 0 <= j < t.len() implies lex_lt(lo, #[trigger] t[j].0) by {
            if j > 0 {
                assert(t[j] == d[j - 1]);
            }
        }
    }
}

/// Insertion keeps the keys strictly ascending.
pub proof fn lemma_dict_insert_sorted(d: Seq<(Seq<u8>, BValue)>, k: Seq<u8>, v: BValue)
    requires
        keys_sorted(d),
    ensures
        keys_sorted(dict_insert(d, k, v)),
    decreases d.len(),
{
    let t = dict_insert(d, k, v);
    if d.len() == 0 {
    } else if d[0].0 == k {
        assert forall|i: int, j: int| 0 <= i < j < t.len() implies lex_lt(#[trigger] t[i].0, #[trigger] t[j].0) by {
            assert(t[j] == d[j]);
            if i > 0 {
                assert(t[i] == d[i]);
            }
        }
    } else if lex_lt(k, d[0].0) {
        assert forall|i: int, j: int| 0 <= i < j < t.len() implies lex_lt(#[trigger] t[i].0, #[trigger] t[j].0) by {
            assert(t[j] == d[j - 1]);
            if i > 0 {
                assert(t[i] == d[i - 1]);
            } else if j > 1 {
                lemma_lex_trans(k, d[0].0, d[j - 1].0);
            }
        }
    } else {
        lemma_lex_total(k, d[0].0);
        let r = d.drop_first();
        assert(keys_sorted(r)) by {
            assert forall|i: int, j: int| 0 <= i < j < r.len() implies lex_lt(#[trigger] r[i].0, #[trigger] r[j].0) by {
                assert(r[i] == d[i + 1]);
                assert(r[j] == d[j + 1]);
            }
        }
        lemma_dict_insert_sorted(r, k, v);
        assert forall|j: int| 0 <= j < r.len() implies lex_lt(d[0].0, #[trigger] r[j].0) by {
            assert(r[j] == d[j + 1]);
        }
        lemma_dict_insert_bound(r, k, v, d[0].0);
        let u = dict_insert(r, k, v);
        assert forall|i: int, j: int| 0 <= i < j < t.len() implies lex_lt(#[trigger] t[i].0, #[trigger] t[j].0) by {
            assert(t[j] == u[j - 1]);
            if i > 0 {
                assert(t[i] == u[i - 1]);
            }
        }
    }
}

impl BValue {
    /// Every integer in the tree fits in 64 bits and every dictionary has
    /// strictly ascending keys: the trees that have a canonical encoding.
    pub open spec fn canonical(self) -> bool
        decreases self,
    {
        match self {
            BValue::Int(i) => i64::MIN <= i <= i64::MAX,
            BValue::Bytes(_) => true,
            BValue::List(s) => forall|i: int| 0 <= i < s.len() ==> (#[trigger] s[i]).canonical(),
            BValue::Dict(d) => keys_sorted(d) && forall|i: int|
                0 <= i < d.len() ==> (#[trigger] d[i]).1.canonical(),
        }
    }

    /// Nesting depth: how many lists and dictionaries enclose the deepest leaf.
    pub open spec fn depth(self) -> nat
        decreases self,
    {
        match self {
            BValue::Int(_) => 0,
            BValue::Bytes(_) => 0,
            BValue::List(s) => 1 + seq_max_depth(s),
            BValue::Dict(d) => 1 + entries_max_depth(d),
        }
    }
}

/// The greatest depth among the items, or 0 for none.
pub open spec fn seq_max_depth(s: Seq<BValue>) -> nat
    decreases s,
{
    if s.len() == 0 {
        0
    } else {
        let a = s.last().depth();
        let b = seq_max_depth(s.drop_last());
        if a > b { a } else { b }
    }
}

/// The greatest depth among the entries' values, or 0 for none.
pub open spec fn entries_max_depth(d: Seq<(Seq<u8>, BValue)>) -> nat
    decreases d,
{
    if d.len() == 0 {
        0
    } else {
        let a = d.last().1.depth();
        let b = entries_max_depth(d.drop_last());
        if a > b { a } else { b }
    }
}


/// Relies on `String::from_utf8`: it succeeds exactly when the bytes are
/// valid UTF-8, and the string it gives back holds those same bytes.
#[verifier::external_body]
fn utf8_text(b: &[u8]) -> (r: Option<String>)
    ensures
        r is Some <==> vstd::utf8::valid_utf8(b@),
        r matches Some(t) ==> vstd::utf8::encode_utf8(t@) == b@,
{
    String::from_utf8(b.to_vec()).ok()
}

/// A byte string: text held as a `String`, or raw bytes. Either way what
/// counts is the byte sequence; text stands for its UTF-8 encoding.
#[derive(Debug, Clone)]
pub enum StringorByteArray {
    StringAble(String),
    NotStringAble(Vec<u8>),
}

impl StringorByteArray {
    pub open spec fn view(self) -> Seq<u8> {
        match self {
            StringorByteArray::StringAble(s) => vstd::utf8::encode_utf8(s@),
            StringorByteArray::NotStringAble(v) => v@,
        }
    }

    /// The bytes of the string.
    pub fn as_bytes(&self) -> (r: &[u8])
        ensures
            r@ == self@,
    {
        match self {
            StringorByteArray::StringAble(s) => s.as_str().as_bytes(),
            StringorByteArray::NotStringAble(v) => v.as_slice(),
        }
    }

    /// The bytes read as text, when they are valid UTF-8.
    pub fn to_text(&self) -> (r: Option<String>)
        ensures
            r is Some <==> vstd::utf8::valid_utf8(self@),
            r matches Some(t) ==> vstd::utf8::encode_utf8(t@) == self@,
    {
        match self {
            StringorByteArray::StringAble(s) => {
                proof {
                    vstd::utf8::encode_utf8_valid_utf8(s@);
                }
                Some(s.clone())
            },
            StringorByteArray::NotStringAble(v) => utf8_text(v.as_slice()),
        }
    }

    /// The bytes of the string, as an owned vector.
    pub fn into_bytes(self) -> (r: Vec<u8>)
        ensures
            r@ == self@,
    {
        match self {
            StringorByteArray::StringAble(s) => vstd::slice::slice_to_vec(s.as_str().as_bytes()),
            StringorByteArray::NotStringAble(v) => v,
        }
    }
}

/// A decoded or constructed Bencode value.
#[derive(Debug)]
pub enum BencodeElement {
    BencodeInteger(i64),
    BencodeString(StringorByteArray),
    BencodeList(Vec<BencodeElement>),
    BencodeDict(BencodeDict),
}

/// The value type that the encoder takes: the same tree as the decoder yields.
pub type BencodeEncodeble = BencodeElement;

/// A dictionary whose entries are kept in ascending key order, one entry per key.
#[derive(Debug)]
pub struct BencodeDict {
    entries: Vec<(Vec<u8>, BencodeElement)>,
}

impl BValue {
    /// Which of the four shapes the model has.
    pub open spec fn kind(self) -> BencodeKind {
        match self {
            BValue::Int(_) => BencodeKind::Integer,
            BValue::Bytes(_) => BencodeKind::ByteString,
            BValue::List(_) => BencodeKind::List,
            BValue::Dict(_) => BencodeKind::Dict,
        }
    }
}

/// The error of asking for a `expected` from the value `v`.
pub open spec fn type_mismatch(expected: BencodeKind, v: BValue) -> BencodeError {
    BencodeError::TypeMismatch { expected: expected, actual: v.kind() }
}

impl BencodeElement {
    /// Which of the four shapes the value has.
    pub fn kind(&self) -> (r: BencodeKind)
        ensures
            r == self@.kind(),
    {
        match self {
            BencodeElement::BencodeInteger(_) => BencodeKind::Integer,
            BencodeElement::BencodeString(_) => BencodeKind::ByteString,
            BencodeElement::BencodeList(_) => BencodeKind::List,
            BencodeElement::BencodeDict(_) => BencodeKind::Dict,
        }
    }

    /// The integer, or `TypeMismatch` for any other shape.
    pub fn try_into_integer(self) -> (r: Result<i64, BencodeError>)
        ensures
            self@ matches BValue::Int(i) ==> r == Ok::<i64, BencodeError>(i as i64),
            !(self@ is Int) ==> r == Err::<i64, BencodeError>(type_mismatch(BencodeKind::Integer, self@)),
    {
        let actual = self.kind();
        match self {
            BencodeElement::BencodeInteger(i) => Ok(i),
            _ => Err(BencodeError::TypeMismatch { expected: BencodeKind::Integer, actual }),
        }
    }

    /// The bytes of a byte string, or `TypeMismatch` for any other shape.
    pub fn try_into_bytes(self) -> (r: Result<Vec<u8>, BencodeError>)
        ensures
            self@ matches BValue::Bytes(b) ==> r matches Ok(v) && v@ == b,
            !(self@ is Bytes) ==> r == Err::<Vec<u8>, BencodeError>(type_mismatch(BencodeKind::ByteString, self@)),
    {
        let actual = self.kind();
        match self {
            BencodeElement::BencodeString(s) => Ok(s.into_bytes()),
            _ => Err(BencodeError::TypeMismatch { expected: BencodeKind::ByteString, actual }),
        }
    }

    /// The items of a list, or `TypeMismatch` for any other shape.
    pub fn try_into_list(self) -> (r: Result<Vec<BencodeElement>, BencodeError>)
        ensures
            self@ matches BValue::List(s) ==> r matches Ok(v) && view_list(v@) == s,
            !(self@ is List) ==> r is Err && r->Err_0 == type_mismatch(BencodeKind::List, self@),
    {
        let actual = self.kind();
        match self {
            BencodeElement::BencodeList(l) => Ok(l),
            _ => Err(BencodeError::TypeMismatch { expected: BencodeKind::List, actual }),
        }
    }

    /// The dictionary, or `TypeMismatch` for any other shape.
    pub fn try_into_dict(self) -> (r: Result<BencodeDict, BencodeError>)
        ensures
            self@ matches BValue::Dict(d) ==> r matches Ok(m) && m@ == d,
            !(self@ is Dict) ==> r is Err && r->Err_0 == type_mismatch(BencodeKind::Dict, self@),
    {
        let actual = self.kind();
        match self {
            BencodeElement::BencodeDict(d) => Ok(d),
            _ => Err(BencodeError::TypeMismatch { expected: BencodeKind::Dict, actual }),
        }
    }
}

impl BencodeElement {
    pub open spec fn view(self) -> BValue
        decreases self,
    {
        match self {
            BencodeElement::BencodeInteger(i) => BValue::Int(i as int),
            BencodeElement::BencodeString(s) => BValue::Bytes(s@),
            BencodeElement::BencodeList(l) => BValue::List(view_list(l@)),
            BencodeElement::BencodeDict(d) => BValue::Dict(view_entries(d.spec_entries())),
        }
    }
}

/// The models of the items, in order.
pub open spec fn view_list(s: Seq<BencodeElement>) -> Seq<BValue>
    decreases s,
{
    if s.len() == 0 {
        Seq::empty()
    } else {
        view_list(s.drop_last()).push(s.last()@)
    }
}

/// The models of the entries, in order.
pub open spec fn view_entries(s: Seq<(Vec<u8>, BencodeElement)>) -> Seq<(Seq<u8>, BValue)>
    decreases s,
{
    if s.len() == 0 {
        Seq::empty()
    } else {
        view_entries(s.drop_last()).push((s.last().0@, s.last().1@))
    }
}

pub proof fn lemma_view_list(s: Seq<BencodeElement>)
    ensures
        view_list(s).len() == s.len(),
        forall|i: int| 0 <= i < s.len() ==> #[trigger] view_list(s)[i] == s[i]@,
    decreases s.len(),
{
    if s.len() > 0 {
        lemma_view_list(s.drop_last());
    }
}

pub proof fn lemma_view_entries(s: Seq<(Vec<u8>, BencodeElement)>)
    ensures
        view_entries(s).len() == s.len(),
        forall|i: int| 0 <= i < s.len() ==> #[trigger] view_entries(s)[i] == (s[i].0@, s[i].1@),
    decreases s.len(),
{
    if s.len() > 0 {
        lemma_view_entries(s.drop_last());
    }
}

impl BencodeDict {
    /// The keys strictly ascend: at most one entry per key, in canonical order.
    #[verifier::type_invariant]
    closed spec fn keys_ascend(self) -> bool {
        keys_sorted(view_entries(self.entries@))
    }

    /// The entries in the order they are kept.
    pub closed spec fn spec_entries(self) -> Seq<(Vec<u8>, BencodeElement)> {
        self.entries@
    }

    pub open spec fn view(self) -> Seq<(Seq<u8>, BValue)> {
        view_entries(self.spec_entries())
    }

    /// An empty dictionary.
    pub fn new() -> (r: BencodeDict)
        ensures
            r@ == Seq::<(Seq<u8>, BValue)>::empty(),
    {
        BencodeDict { entries: Vec::new() }
    }

    /// The entries, in ascending key order.
    pub fn entries(&self) -> (r: &Vec<(Vec<u8>, BencodeElement)>)
        ensures
            r@ == self.spec_entries(),
            keys_sorted(self@),
    {
        proof {
            use_type_invariant(self);
        }
        &self.entries
    }

    /// How many entries there are.
    pub fn len(&self) -> (r: usize)
        ensures
            r == self@.len(),
    {
        proof {
            lemma_view_entries(self.entries@);
        }
        self.entries.len()
    }

    /// Sets `key` to `value`: a later value for a key overwrites an earlier one.
    pub fn insert(&mut self, key: Vec<u8>, value: BencodeElement)
        ensures
            final(self)@ == dict_insert(old(self)@, key@, value@),
            keys_sorted(final(self)@),
    {
        proof {
            use_type_invariant(&*self);
        }
        let ghost d = old(self)@;
        proof {
            lemma_view_entries(self.entries@);
            lemma_dict_insert_sorted(d, key@, value@);
        }
        let mut taken = BencodeDict::new();
        core::mem::swap(self, &mut taken);
        let mut entries = taken.entries;
        let mut i: usize = 0;
        while i < entries.len() && cmp_bytes(&entries[i].0, &key) < 0
            invariant
                0 <= i <= entries.len(),
                view_entries(entries@) == d,
                d.len() == entries@.len(),
                forall|j: int| 0 <= j < d.len() ==> (#[trigger] d[j]).0 == entries@[j].0@,
                forall|j: int| 0 <= j < i ==> lex_lt(#[trigger] d[j].0, key@),
            decreases entries.len() - i,
        {
            i = i + 1;
        }
        proof {
            lemma_dict_insert_skip(d, key@, value@, i as int);
        }
        if i < entries.len() && cmp_bytes(&entries[i].0, &key) == 0 {
            entries[i] = (key, value);
        } else {
            entries.insert(i, (key, value));
        }
        proof {
            lemma_view_entries(entries@);
            assert(view_entries(entries@) =~= dict_insert(d, key@, value@));
        }
        *self = BencodeDict { entries };
    }
}

} // verus!
