//! Encoder and decoder of a type undo each other.

use super::decode::{
    parse_blob, parse_items, parse_le, parse_list, views, Decodable, DecodeError,
};
use super::encode::{concat_bytes, length_prefixed, list_bytes, Encodable, LENGTH_BYTES};
use super::little_endian::{
    le_bytes, lemma_le_bytes_len, lemma_le_bytes_of_le_value, lemma_le_value_bound,
    lemma_le_value_of_le_bytes, lemma_pow256_values, pow256,
};
use vstd::prelude::*;

verus! {

/// A type whose encoder and decoder undo each other.
pub trait Codec: Encodable + Decodable {
    /// Whether `self` is a value that the type admits. Every value that a constructor or a
    /// decoder of the type hands out is one.
    spec fn ssz_valid(&self) -> bool;

    /// Wherever the encoding of a valid value stands among other bytes, decoding from its
    /// first byte yields the value and the offset of the byte behind its last.
    proof fn lemma_round_trip(value: Self, before: Seq<u8>, after: Seq<u8>)
        requires
            value.ssz_valid(),
        ensures
            Self::ssz_parse(before + value.ssz_bytes() + after, before.len() as int) == Ok::<
                _,
                DecodeError,
            >((value@, (before.len() + value.ssz_bytes().len()) as int)),
    ;

    /// The bytes that a decoder consumes are the encoding of what it hands back, and what it
    /// hands back is valid: no two runs of bytes decode to the same value.
    proof fn lemma_parse_is_canonical(value: Self, bytes: Seq<u8>, index: int)
        requires
            0 <= index,
            Self::ssz_parse(bytes, index) matches Ok((content, _)) && content == value@,
        ensures
            value.ssz_valid(),
            Self::ssz_parse(bytes, index) matches Ok((_, next)) && bytes.subrange(index, next)
                == value.ssz_bytes(),
    ;
}

/// Decoding the encoding of a valid value, and nothing but it, yields the value and the
/// length of the encoding.
pub proof fn lemma_decode_of_encode<T: Codec>(value: T)
    requires
        value.ssz_valid(),
    ensures
        T::ssz_parse(value.ssz_bytes(), 0) == Ok::<_, DecodeError>(
            (value@, value.ssz_bytes().len() as int),
        ),
{
    T::lemma_round_trip(value, Seq::empty(), Seq::empty());
    assert(Seq::<u8>::empty() + value.ssz_bytes() + Seq::<u8>::empty() == value.ssz_bytes());
}

/// A little-endian number of `width` bytes, wherever it stands among other bytes, is read
/// back as it was written.
pub proof fn lemma_le_round_trip(value: nat, width: nat, before: Seq<u8>, after: Seq<u8>)
    requires
        value < pow256(width),
    ensures
        le_bytes(value, width).len() == width,
        parse_le(before + le_bytes(value, width) + after, before.len() as int, width) == Ok::<
            _,
            DecodeError,
        >((value, (before.len() + width) as int)),
{
    let written = le_bytes(value, width);
    let bytes = before + written + after;
    lemma_le_bytes_len(value, width);
    lemma_le_value_of_le_bytes(value, width);
    assert(bytes.subrange(before.len() as int, (before.len() + width) as int) == written);
}

/// The bytes that a little-endian number is read from are the bytes that it is written as.
pub proof fn lemma_le_canonical(bytes: Seq<u8>, index: int, width: nat)
    requires
        0 <= index,
        parse_le(bytes, index, width) is Ok,
    ensures
        parse_le(bytes, index, width) matches Ok((value, next)) && value < pow256(width)
            && next == index + width && bytes.subrange(index, next) == le_bytes(value, width),
{
    let read = bytes.subrange(index, index + width);
    lemma_le_value_bound(read);
    lemma_le_bytes_of_le_value(read);
}

impl Codec for u8 {
    open spec fn ssz_valid(&self) -> bool {
        true
    }

    proof fn lemma_round_trip(value: Self, before: Seq<u8>, after: Seq<u8>) {
        lemma_pow256_values();
        lemma_le_round_trip(value as nat, 1, before, after);
    }

    proof fn lemma_parse_is_canonical(value: Self, bytes: Seq<u8>, index: int) {
        lemma_pow256_values();
        lemma_le_canonical(bytes, index, 1);
    }
}

impl Codec for u16 {
    open spec fn ssz_valid(&self) -> bool {
        true
    }

    proof fn lemma_round_trip(value: Self, before: Seq<u8>, after: Seq<u8>) {
        lemma_pow256_values();
        lemma_le_round_trip(value as nat, 2, before, after);
    }

    proof fn lemma_parse_is_canonical(value: Self, bytes: Seq<u8>, index: int) {
        lemma_pow256_values();
        lemma_le_canonical(bytes, index, 2);
    }
}

impl Codec for u32 {
    open spec fn ssz_valid(&self) -> bool {
        true
    }

    proof fn lemma_round_trip(value: Self, before: Seq<u8>, after: Seq<u8>) {
        lemma_pow256_values();
        lemma_le_round_trip(value as nat, 4, before, after);
    }

    proof fn lemma_parse_is_canonical(value: Self, bytes: Seq<u8>, index: int) {
        lemma_pow256_values();
        lemma_le_canonical(bytes, index, 4);
    }
}

impl Codec for u64 {
    open spec fn ssz_valid(&self) -> bool {
        true
    }

    proof fn lemma_round_trip(value: Self, before: Seq<u8>, after: Seq<u8>) {
        lemma_pow256_values();
        lemma_le_round_trip(value as nat, 8, before, after);
    }

    proof fn lemma_parse_is_canonical(value: Self, bytes: Seq<u8>, index: int) {
        lemma_pow256_values();
        lemma_le_canonical(bytes, index, 8);
    }
}

/// Items written one after the other behind `front` are read back in their order.
pub proof fn lemma_items_round_trip<T: Codec>(items: Seq<T>, front: Seq<u8>)
    requires
        forall|i: int| 0 <= i < items.len() ==> (#[trigger] items[i]).ssz_valid(),
    ensures
        parse_items::<T>(front + concat_bytes(items), front.len() as int) == Ok::<_, DecodeError>(
            views(items),
        ),
    decreases items.len(),
{
    let window = front + concat_bytes(items);
    if items.len() == 0 {
        assert(views(items) == Seq::<T::V>::empty());
    } else {
        let first = items[0];
        let rest = items.drop_first();
        let behind = front + first.ssz_bytes();
        assert(window == front + first.ssz_bytes() + concat_bytes(rest));
        assert(window == behind + concat_bytes(rest));
        T::lemma_round_trip(first, front, concat_bytes(rest));
        T::lemma_parse_consumes(window, front.len() as int);
        assert forall|i: int| 0 <= i < rest.len() implies (#[trigger] rest[i]).ssz_valid() by {
            assert(rest[i] == items[i + 1]);
        }
        lemma_items_round_trip(rest, behind);
        assert(seq![first@] + views(rest) == views(items));
    }
}

/// A list of valid items whose encodings fit the length prefix, wherever its encoding stands
/// among other bytes, is read back as it was written.
pub proof fn lemma_list_round_trip<T: Codec>(items: Seq<T>, before: Seq<u8>, after: Seq<u8>)
    requires
        forall|i: int| 0 <= i < items.len() ==> (#[trigger] items[i]).ssz_valid(),
        concat_bytes(items).len() <= u32::MAX,
    ensures
        parse_list::<T>(before + list_bytes(items) + after, before.len() as int) == Ok::<
            _,
            DecodeError,
        >((views(items), (before.len() + list_bytes(items).len()) as int)),
{
    let payload = concat_bytes(items);
    let prefix = le_bytes(payload.len(), LENGTH_BYTES as nat);
    let bytes = before + list_bytes(items) + after;
    let start = (before.len() + LENGTH_BYTES) as int;
    lemma_pow256_values();
    lemma_le_round_trip(payload.len(), LENGTH_BYTES as nat, before, payload + after);
    assert(bytes == before + prefix + (payload + after));
    assert(bytes.subrange(0, start + payload.len()) == before + prefix + payload);
    lemma_items_round_trip(items, before + prefix);
}

/// A run of bytes that fits the length prefix, wherever it stands behind its prefix among
/// other bytes, is read back as it was written.
pub proof fn lemma_blob_round_trip(blob: Seq<u8>, before: Seq<u8>, after: Seq<u8>)
    requires
        blob.len() <= u32::MAX,
    ensures
        length_prefixed(blob).len() == LENGTH_BYTES + blob.len(),
        parse_blob(before + length_prefixed(blob) + after, before.len() as int) == Ok::<
            _,
            DecodeError,
        >((blob, (before.len() + LENGTH_BYTES + blob.len()) as int)),
{
    let prefix = le_bytes(blob.len(), LENGTH_BYTES as nat);
    let bytes = before + length_prefixed(blob) + after;
    let start = (before.len() + LENGTH_BYTES) as int;
    lemma_pow256_values();
    lemma_le_round_trip(blob.len(), LENGTH_BYTES as nat, before, blob + after);
    assert(bytes == before + prefix + (blob + after));
    assert(bytes.subrange(start, start + blob.len()) == blob);
}

/// The bytes that a length-prefixed run of bytes is read from are the run behind its
/// prefix, and the run fits the prefix.
pub proof fn lemma_blob_canonical(bytes: Seq<u8>, index: int)
    requires
        0 <= index,
        parse_blob(bytes, index) is Ok,
    ensures
        parse_blob(bytes, index) matches Ok((blob, next)) && blob.len() <= u32::MAX && next
            == index + LENGTH_BYTES + blob.len() && bytes.subrange(index, next) == length_prefixed(
            blob,
        ),
{
    lemma_pow256_values();
    lemma_le_canonical(bytes, index, LENGTH_BYTES as nat);
    let start = index + LENGTH_BYTES;
    let blob = bytes.subrange(start, parse_blob(bytes, index).unwrap().1);
    assert(bytes.subrange(index, start + blob.len()) == bytes.subrange(index, start) + blob);
}

} // verus!
