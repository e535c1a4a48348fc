//! A human-readable rendering of a value, as UTF-8 bytes when the byte
//! strings in it are text.
use vstd::prelude::*;
use crate::encode::{int_text, push_digits, COLON, MINUS};
use crate::value::{BValue, BencodeElement, view_list, view_entries, lemma_view_list, lemma_view_entries};

verus! {

pub const QUOTE: u8 = 34;
pub const OPEN_BRACKET: u8 = 91;
pub const CLOSE_BRACKET: u8 = 93;
pub const OPEN_BRACE: u8 = 123;
pub const CLOSE_BRACE: u8 = 125;
pub const COMMA: u8 = 44;
pub const SPACE: u8 = 32;

/// Integers in decimal, byte strings in double quotes, lists as
/// `[a, b]`, dictionaries as `{ k : v, k2 : v2 }`.
pub open spec fn rendering(v: BValue) -> Seq<u8>
    decreases v,
{
    match v {
        BValue::Int(i) => int_text(i),
        BValue::Bytes(b) => seq![QUOTE] + b + seq![QUOTE],
        BValue::List(s) => seq![OPEN_BRACKET] + render_items(s) + seq![CLOSE_BRACKET],
        BValue::Dict(d) => seq![OPEN_BRACE] + render_entries(d) + seq![SPACE, CLOSE_BRACE],
    }
}

/// The renderings of the items, separated by `, `.
pub open spec fn render_items(s: Seq<BValue>) -> Seq<u8>
    decreases s,
{
    if s.len() == 0 {
        Seq::empty()
    } else if s.len() == 1 {
        rendering(s[0])
    } else {
        render_items(s.drop_last()) + seq![COMMA, SPACE] + rendering(s.last())
    }
}

/// Each entry as ` key : value`, separated by `,`.
pub open spec fn render_entries(d: Seq<(Seq<u8>, BValue)>) -> Seq<u8>
    decreases d,
{
    if d.len() == 0 {
        Seq::empty()
    } else if d.len() == 1 {
        seq![SPACE] + d[0].0 + seq![SPACE, COLON, SPACE] + rendering(d[0].1)
    } else {
        render_entries(d.drop_last()) + seq![COMMA, SPACE] + d.last().0 + seq![SPACE, COLON, SPACE]
            + rendering(d.last().1)
    }
}

fn push_decimal(out: &mut Vec<u8>, i: i64)
    ensures
        final(out)@ == old(out)@ + int_text(i as int),
{
    if i < 0 {
        out.push(MINUS);
        let m: u64 = (-(i as i128)) as u64;
        push_digits(out, m);
    } else {
        push_digits(out, i as u64);
    }
    proof {
        assert(final(out)@ =~= old(out)@ + int_text(i as int));
    }
}

fn render_into(value: &BencodeElement, out: &mut Vec<u8>)
    ensures
        final(out)@ == old(out)@ + rendering(value@),
    decreases value@,
{
    match value {
        BencodeElement::BencodeInteger(i) => {
            push_decimal(out, *i);
        },
        BencodeElement::BencodeString(s) => {
            out.push(QUOTE);
            out.extend_from_slice(s.as_bytes());
            out.push(QUOTE);
            proof {
                assert(final(out)@ =~= old(out)@ + rendering(value@));
            }
        },
        BencodeElement::BencodeList(l) => {
            let ghost start = out@;
            out.push(OPEN_BRACKET);
            let mut i: usize = 0;
            while i < l.len()
                invariant
                    0 <= i <= l.len(),
                    *value == BencodeElement::BencodeList(*l),
                    out@ == start + seq![OPEN_BRACKET] + render_items(view_list(l@.subrange(0, i as int))),
                decreases l.len() - i,
            {
                if i > 0 {
                    out.push(COMMA);
                    out.push(SPACE);
                }
                proof {
                    lemma_view_list(l@);
                    let vl = view_list(l@);
                    let mv = value@;
                    assert(decreases_to!(mv => mv->List_0));
                    vstd::seq::axiom_seq_index_decreases(vl, i as int);
                }
                render_into(&l[i], out);
                proof {
                    let s = l@.subrange(0, i + 1);
                    assert(s.drop_last() =~= l@.subrange(0, i as int));
                    let vs = view_list(s);
                    assert(vs == view_list(l@.subrange(0, i as int)).push(l@[i as int]@));
                    assert(vs.drop_last() =~= view_list(l@.subrange(0, i as int)));
                    if i == 0 {
                        assert(view_list(l@.subrange(0, 0)) =~= Seq::<BValue>::empty());
                    }
                    assert(out@ =~= start + seq![OPEN_BRACKET] + render_items(vs));
                }
                i = i + 1;
            }
            out.push(CLOSE_BRACKET);
            proof {
                assert(l@.subrange(0, l@.len() as int) =~= l@);
                assert(out@ =~= old(out)@ + rendering(value@));
            }
        },
        BencodeElement::BencodeDict(d) => {
            let ghost start = out@;
            let entries = d.entries();
            out.push(OPEN_BRACE);
            let mut i: usize = 0;
            while i < entries.len()
                invariant
                    0 <= i <= entries.len(),
                    *value == BencodeElement::BencodeDict(*d),
                    entries@ == d.spec_entries(),
                    out@ == start + seq![OPEN_BRACE] + render_entries(
                        view_entries(entries@.subrange(0, i as int)),
                    ),
                decreases entries.len() - i,
            {
                if i > 0 {
                    out.push(COMMA);
                }
                out.push(SPACE);
                out.extend_from_slice(entries[i].0.as_slice());
                out.push(SPACE);
                out.push(COLON);
                out.push(SPACE);
                proof {
                    lemma_view_entries(entries@);
                    let ve = view_entries(entries@);
                    let mv = value@;
                    assert(mv == BValue::Dict(ve));
                    assert(decreases_to!(mv => mv->Dict_0));
                    vstd::seq::axiom_seq_index_decreases(ve, i as int);
                    assert(decreases_to!(mv => ve[i as int].1));
                }
                render_into(&entries[i].1, out);
                proof {
                    let s = entries@.subrange(0, i + 1);
                    assert(s.drop_last() =~= entries@.subrange(0, i as int));
                    let vs = view_entries(s);
                    assert(vs == view_entries(entries@.subrange(0, i as int)).push(
                        (entries@[i as int].0@, entries@[i as int].1@),
                    ));
                    assert(vs.drop_last() =~= view_entries(entries@.subrange(0, i as int)));
                    if i == 0 {
                        assert(view_entries(entries@.subrange(0, 0)) =~= Seq::<(Seq<u8>, BValue)>::empty());
                    }
                    assert(out@ =~= start + seq![OPEN_BRACE] + render_entries(vs));
                }
                i = i + 1;
            }
            out.push(SPACE);
            out.push(CLOSE_BRACE);
            proof {
                assert(entries@.subrange(0, entries@.len() as int) =~= entries@);
                assert(out@ =~= old(out)@ + rendering(value@));
            }
        },
    }
}

impl BencodeElement {
    /// The value as readable text: integers in decimal, byte strings in
    /// double quotes with their bytes unchanged, `[a, b]` for lists and
    /// `{ k : v, k2 : v2 }` for dictionaries.
    pub fn render(&self) -> (r: Vec<u8>)
        ensures
            r@ == rendering(self@),
    {
        let mut out: Vec<u8> = Vec::new();
        render_into(self, &mut out);
        proof {
            assert(out@ =~= rendering(self@));
        }
        out
    }
}

} // verus!
