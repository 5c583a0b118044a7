//! Dictionaries in bencode, the format of the tracker's replies.

use vstd::prelude::*;

use crate::ascii::{COLON, LOWER_D, LOWER_E, LOWER_I};
use crate::number::{decimal, signed_decimal};
use crate::order::precedes;

verus! {

/// A value in a dictionary.
pub enum Value {
    Int(i64),
    Bytes(Vec<u8>),
}

/// What a value is.
pub enum ValueView {
    Int(int),
    Bytes(Seq<u8>),
}

impl View for Value {
    type V = ValueView;

    open spec fn view(&self) -> ValueView {
        match *self {
            Value::Int(n) => ValueView::Int(n as int),
            Value::Bytes(bytes) => ValueView::Bytes(bytes@),
        }
    }
}

/// The keys and values of a list of entries.
pub open spec fn entries_view(entries: Seq<(Vec<u8>, Value)>) -> Seq<(Seq<u8>, ValueView)> {
    entries.map_values(|entry: (Vec<u8>, Value)| (entry.0@, entry.1@))
}

/// Whether each key comes before the keys that follow it.
pub open spec fn in_key_order(entries: Seq<(Seq<u8>, ValueView)>) -> bool {
    forall|i: int, j: int|
        0 <= i < j < entries.len() ==> precedes((#[trigger] entries[i]).0, (#[trigger] entries[j]).0)
}

/// The encoding of a byte string: its length, a colon and its bytes.
pub open spec fn bytes_encoding(bytes: Seq<u8>) -> Seq<u8> {
    decimal(bytes.len()) + seq![COLON] + bytes
}

/// The encoding of a value: a byte string, or an integer between an `i` and
/// an `e`.
pub open spec fn value_encoding(value: ValueView) -> Seq<u8> {
    match value {
        ValueView::Int(n) => seq![LOWER_I] + signed_decimal(n) + seq![LOWER_E],
        ValueView::Bytes(bytes) => bytes_encoding(bytes),
    }
}

/// The encodings of keys and values, one after the other.
pub open spec fn entries_encoding(entries: Seq<(Seq<u8>, ValueView)>) -> Seq<u8>
    decreases entries.len(),
{
    if entries.len() == 0 {
        Seq::empty()
    } else {
        bytes_encoding(entries[0].0) + value_encoding(entries[0].1) + entries_encoding(
            entries.skip(1),
        )
    }
}

/// The encoding of a dictionary: its entries between a `d` and an `e`.
pub open spec fn dict_encoding(entries: Seq<(Seq<u8>, ValueView)>) -> Seq<u8> {
    seq![LOWER_D] + entries_encoding(entries) + seq![LOWER_E]
}

/// Encodes a dictionary with `bencode::Bencode::to_bytes`.
///
/// Claimed of it: on a dictionary of integers and byte strings it succeeds,
/// and its result is a `d`, then each key as a byte string followed by its
/// value, in the order of the keys, then an `e`; a byte string is its length
/// in decimal, a colon and the bytes, and an integer stands in decimal
/// between an `i` and an `e`.
#[verifier::external_body]
pub(crate) fn encode_dict(entries: Vec<(Vec<u8>, Value)>) -> (r: Vec<u8>)
    requires
        in_key_order(entries_view(entries@)),
    ensures
        r@ == dict_encoding(entries_view(entries@)),
{
    let mut dict = bencode::DictMap::new();
    for (key, value) in entries {
        let value = match value {
            Value::Int(n) => bencode::Bencode::Number(n),
            Value::Bytes(bytes) => bencode::Bencode::ByteString(bytes),
        };
        dict.insert(bencode::util::ByteString::from_vec(key), value);
    }
    bencode::Bencode::Dict(dict).to_bytes().unwrap()
}

} // verus!
