//! Building values from plain Rust values.
use vstd::prelude::*;
use crate::value::{BencodeDict, BencodeElement, StringorByteArray};

verus! {

impl From<i64> for BencodeElement {
    fn from(v: i64) -> (r: BencodeElement) {
        BencodeElement::BencodeInteger(v)
    }
}

impl vstd::std_specs::convert::FromSpecImpl<i64> for BencodeElement {
    open spec fn obeys_from_spec() -> bool {
        true
    }

    open spec fn from_spec(v: i64) -> BencodeElement {
        BencodeElement::BencodeInteger(v)
    }
}

impl From<Vec<u8>> for BencodeElement {
    fn from(v: Vec<u8>) -> (r: BencodeElement) {
        BencodeElement::BencodeString(StringorByteArray::NotStringAble(v))
    }
}

impl vstd::std_specs::convert::FromSpecImpl<Vec<u8>> for BencodeElement {
    open spec fn obeys_from_spec() -> bool {
        true
    }

    open spec fn from_spec(v: Vec<u8>) -> BencodeElement {
        BencodeElement::BencodeString(StringorByteArray::NotStringAble(v))
    }
}

impl From<String> for BencodeElement {
    fn from(v: String) -> (r: BencodeElement) {
        BencodeElement::BencodeString(StringorByteArray::StringAble(v))
    }
}

impl vstd::std_specs::convert::FromSpecImpl<String> for BencodeElement {
    open spec fn obeys_from_spec() -> bool {
        true
    }

    open spec fn from_spec(v: String) -> BencodeElement {
        BencodeElement::BencodeString(StringorByteArray::StringAble(v))
    }
}

impl From<StringorByteArray> for BencodeElement {
    fn from(v: StringorByteArray) -> (r: BencodeElement) {
        BencodeElement::BencodeString(v)
    }
}

impl vstd::std_specs::convert::FromSpecImpl<StringorByteArray> for BencodeElement {
    open spec fn obeys_from_spec() -> bool {
        true
    }

    open spec fn from_spec(v: StringorByteArray) -> BencodeElement {
        BencodeElement::BencodeString(v)
    }
}

impl From<Vec<BencodeElement>> for BencodeElement {
    fn from(v: Vec<BencodeElement>) -> (r: BencodeElement) {
        BencodeElement::BencodeList(v)
    }
}

impl vstd::std_specs::convert::FromSpecImpl<Vec<BencodeElement>> for BencodeElement {
    open spec fn obeys_from_spec() -> bool {
        true
    }

    open spec fn from_spec(v: Vec<BencodeElement>) -> BencodeElement {
        BencodeElement::BencodeList(v)
    }
}

impl From<BencodeDict> for BencodeElement {
    fn from(v: BencodeDict) -> (r: BencodeElement) {
        BencodeElement::BencodeDict(v)
    }
}

impl vstd::std_specs::convert::FromSpecImpl<BencodeDict> for BencodeElement {
    open spec fn obeys_from_spec() -> bool {
        true
    }

    open spec fn from_spec(v: BencodeDict) -> BencodeElement {
        BencodeElement::BencodeDict(v)
    }
}

impl From<String> for StringorByteArray {
    fn from(v: String) -> (r: StringorByteArray) {
        StringorByteArray::StringAble(v)
    }
}

impl vstd::std_specs::convert::FromSpecImpl<String> for StringorByteArray {
    open spec fn obeys_from_spec() -> bool {
        true
    }

    open spec fn from_spec(v: String) -> StringorByteArray {
        StringorByteArray::StringAble(v)
    }
}

impl From<Vec<u8>> for StringorByteArray {
    fn from(v: Vec<u8>) -> (r: StringorByteArray) {
        StringorByteArray::NotStringAble(v)
    }
}

impl vstd::std_specs::convert::FromSpecImpl<Vec<u8>> for StringorByteArray {
    open spec fn obeys_from_spec() -> bool {
        true
    }

    open spec fn from_spec(v: Vec<u8>) -> StringorByteArray {
        StringorByteArray::NotStringAble(v)
    }
}

} // verus!
