//! An aggregate of signatures, as the bytes that stand for it.

use crate::ssz::codec::{lemma_blob_canonical, lemma_blob_round_trip, Codec};
use crate::ssz::decode::{
    decode_ssz_list, lemma_parse_list_of_bytes, parse_blob, views, Decodable, DecodeError,
};
use crate::ssz::encode::{
    lemma_concat_bytes_of_bytes, length_prefixed, Encodable, SszStream, LENGTH_BYTES,
};
use crate::ssz::little_endian::{lemma_le_value_bound, lemma_pow256_values};
use crate::ssz::tree_hash::{hash, keccak256, TreeHash};
use vstd::prelude::*;
use vstd::slice::slice_to_vec;
use vstd::std_specs::cmp::PartialEqSpecImpl;

verus! {

/// A BLS aggregate signature: an opaque run of bytes, as many as a length prefix can
/// announce.
///
/// The pairing library combines signatures into an aggregate and says how many bytes stand
/// for one. Here the bytes are compared, encoded and hashed as they are.
#[derive(Debug)]
pub struct AggregateSignature {
    bytes: Vec<u8>,
}

impl View for AggregateSignature {
    type V = Seq<u8>;

    /// The bytes that stand for the aggregate.
    closed spec fn view(&self) -> Seq<u8> {
        self.bytes@
    }
}

impl AggregateSignature {
    /// An aggregate has no more bytes than a length prefix can announce.
    #[verifier::type_invariant]
    spec fn fits_length_prefix(self) -> bool {
        self.bytes@.len() <= u32::MAX
    }

    /// The aggregate that `bytes` stand for. There is one unless `bytes` are more than a
    /// length prefix can announce, which is `Invalid`.
    pub fn from_bytes(bytes: &[u8]) -> (outcome: Result<Self, DecodeError>)
        ensures
            match outcome {
                Ok(aggregate) => aggregate@ == bytes@ && bytes@.len() <= u32::MAX,
                Err(error) => error == DecodeError::Invalid && bytes@.len() > u32::MAX,
            },
    {
        if bytes.len() as u64 > 0xffff_ffff {
            return Err(DecodeError::Invalid);
        }
        Ok(AggregateSignature { bytes: slice_to_vec(bytes) })
    }

    /// The aggregate that `bytes` stand for, given the word of the pairing library on them:
    /// `is_point` says whether it takes them for a point of its curve. Bytes that it does
    /// not take are `Invalid`.
    pub fn from_checked_bytes(bytes: &[u8], is_point: bool) -> (outcome: Result<
        Self,
        DecodeError,
    >)
        ensures
            match outcome {
                Ok(aggregate) => aggregate@ == bytes@ && bytes@.len() <= u32::MAX && is_point,
                Err(error) => error == DecodeError::Invalid && (bytes@.len() > u32::MAX
                    || !is_point),
            },
    {
        match AggregateSignature::from_bytes(bytes) {
            Ok(aggregate) => if is_point {
                Ok(aggregate)
            } else {
                Err(DecodeError::Invalid)
            },
            Err(error) => Err(error),
        }
    }

    /// The bytes that stand for the aggregate.
    pub fn as_bytes(&self) -> (bytes: Vec<u8>)
        ensures
            bytes@ == self@,
            bytes@.len() <= u32::MAX,
    {
        proof {
            use_type_invariant(self);
        }
        slice_to_vec(self.bytes.as_slice())
    }
}

impl Clone for AggregateSignature {
    fn clone(&self) -> (copy: Self)
        ensures
            copy@ == self@,
    {
        AggregateSignature { bytes: self.as_bytes() }
    }
}

impl PartialEq for AggregateSignature {
    fn eq(&self, other: &Self) -> (equal: bool) {
        let equal = self.bytes == other.bytes;
        proof {
            if equal {
                assert(self.bytes@ =~= other.bytes@);
            }
        }
        equal
    }
}

impl PartialEqSpecImpl for AggregateSignature {
    open spec fn obeys_eq_spec() -> bool {
        true
    }

    /// Two aggregates are equal where their bytes are.
    open spec fn eq_spec(&self, other: &Self) -> bool {
        self@ == other@
    }
}

impl Eq for AggregateSignature {

}

impl Encodable for AggregateSignature {
    /// The bytes of the aggregate behind their number.
    open spec fn ssz_bytes(&self) -> Seq<u8> {
        length_prefixed(self@)
    }

    fn ssz_append(&self, s: &mut SszStream) {
        proof {
            use_type_invariant(self);
            lemma_concat_bytes_of_bytes(self.bytes@);
        }
        s.append_vec(self.bytes.as_slice());
    }
}

impl Decodable for AggregateSignature {
    open spec fn ssz_min_len() -> nat {
        LENGTH_BYTES as nat
    }

    /// A length-prefixed run of bytes.
    open spec fn ssz_parse(bytes: Seq<u8>, index: int) -> Result<(Seq<u8>, int), DecodeError> {
        parse_blob(bytes, index)
    }

    proof fn lemma_parse_consumes(bytes: Seq<u8>, index: int) {
    }

    proof fn lemma_parse_too_short(bytes: Seq<u8>, index: int) {
    }

    fn ssz_decode(bytes: &[u8], i: usize) -> (outcome: Result<(Self, usize), DecodeError>) {
        proof {
            lemma_parse_list_of_bytes(bytes@, i as int);
            lemma_le_value_bound(bytes@.subrange(i as int, i + LENGTH_BYTES));
            lemma_pow256_values();
        }
        let (sig_bytes, i) = match decode_ssz_list::<u8>(bytes, i) {
            Ok(list) => list,
            Err(error) => { return Err(error); },
        };
        assert(views(sig_bytes@) == sig_bytes@);
        Ok((AggregateSignature { bytes: sig_bytes }, i))
    }
}

impl Codec for AggregateSignature {
    /// An aggregate has no more bytes than a length prefix can announce.
    open spec fn ssz_valid(&self) -> bool {
        self@.len() <= u32::MAX
    }

    proof fn lemma_round_trip(value: Self, before: Seq<u8>, after: Seq<u8>) {
        lemma_blob_round_trip(value@, before, after);
    }

    proof fn lemma_parse_is_canonical(value: Self, bytes: Seq<u8>, index: int) {
        lemma_blob_canonical(bytes, index);
    }
}

impl TreeHash for AggregateSignature {
    /// The digest of the bytes of the aggregate as they are, without their number in front.
    open spec fn tree_root(&self) -> Seq<u8> {
        keccak256(self@)
    }

    proof fn lemma_tree_root_of_content(one: Self, other: Self) {
    }

    fn hash_tree_root(&self) -> (digest: Vec<u8>) {
        hash(self.bytes.as_slice())
    }
}

} // verus!
