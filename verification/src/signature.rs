//! A single signature, as the bytes that stand for it.

use crate::ssz::codec::{lemma_blob_canonical, lemma_blob_round_trip, Codec};
use crate::ssz::decode::{
    decode_ssz_list, lemma_parse_list_of_bytes, parse_blob, views, Decodable, DecodeError,
};
use crate::ssz::encode::{
    lemma_concat_bytes_of_bytes, length_prefixed, Encodable, SszStream, LENGTH_BYTES,
};
use crate::ssz::tree_hash::{hash, keccak256, TreeHash};
use crate::test_utils::TestRandom;
use vstd::prelude::*;
use vstd::slice::slice_to_vec;
use vstd::std_specs::cmp::PartialEqSpecImpl;

verus! {

/// The number of bytes of a signature.
pub const BLS_SIG_BYTE_SIZE: usize = 97;

/// A single BLS signature: an opaque run of `BLS_SIG_BYTE_SIZE` bytes.
///
/// What the bytes mean is the business of the pairing library. Here they are
/// compared, encoded and hashed as they are.
#[derive(Debug)]
pub struct Signature {
    bytes: Vec<u8>,
}

impl View for Signature {
    type V = Seq<u8>;

    /// The bytes that stand for the signature.
    closed spec fn view(&self) -> Seq<u8> {
        self.bytes@
    }
}

impl Signature {
    /// A signature has `BLS_SIG_BYTE_SIZE` bytes, no fewer and no more.
    #[verifier::type_invariant]
    spec fn has_all_bytes(self) -> bool {
        self.bytes@.len() == BLS_SIG_BYTE_SIZE
    }

    /// The signature that `bytes` stand for. There is one where `bytes` are
    /// `BLS_SIG_BYTE_SIZE` bytes; fewer are `TooShort`, more are `Invalid`.
    pub fn from_bytes(bytes: &[u8]) -> (outcome: Result<Self, DecodeError>)
        ensures
            match outcome {
                Ok(signature) => signature@ == bytes@ && bytes@.len() == BLS_SIG_BYTE_SIZE,
                Err(DecodeError::TooShort) => bytes@.len() < BLS_SIG_BYTE_SIZE,
                Err(DecodeError::Invalid) => bytes@.len() > BLS_SIG_BYTE_SIZE,
            },
    {
        if bytes.len() < BLS_SIG_BYTE_SIZE {
            return Err(DecodeError::TooShort);
        }
        if bytes.len() > BLS_SIG_BYTE_SIZE {
            return Err(DecodeError::Invalid);
        }
        Ok(Signature { bytes: slice_to_vec(bytes) })
    }

    /// The signature that `bytes` stand for, given the word of the pairing library on them:
    /// `is_point` says whether it takes them for a point of its curve. Bytes of the right
    /// number that it does not take are `Invalid`.
    pub fn from_checked_bytes(bytes: &[u8], is_point: bool) -> (outcome: Result<
        Self,
        DecodeError,
    >)
        ensures
            match outcome {
                Ok(signature) => signature@ == bytes@ && bytes@.len() == BLS_SIG_BYTE_SIZE
                    && is_point,
                Err(DecodeError::TooShort) => bytes@.len() < BLS_SIG_BYTE_SIZE,
                Err(DecodeError::Invalid) => bytes@.len() > BLS_SIG_BYTE_SIZE || (bytes@.len()
                    == BLS_SIG_BYTE_SIZE && !is_point),
            },
    {
        match Signature::from_bytes(bytes) {
            Ok(signature) => if is_point {
                Ok(signature)
            } else {
                Err(DecodeError::Invalid)
            },
            Err(error) => Err(error),
        }
    }

    /// The bytes that stand for the signature.
    pub fn as_bytes(&self) -> (bytes: Vec<u8>)
        ensures
            bytes@ == self@,
            bytes@.len() == BLS_SIG_BYTE_SIZE,
    {
        proof {
            use_type_invariant(self);
        }
        slice_to_vec(self.bytes.as_slice())
    }

    /// Returns a new empty signature: every byte of it is zero.
    pub fn empty_signature() -> (signature: Self)
        ensures
            signature@ == Seq::new(BLS_SIG_BYTE_SIZE as nat, |i: int| 0u8),
    {
        let mut empty: Vec<u8> = Vec::new();
        while empty.len() < BLS_SIG_BYTE_SIZE
            invariant
                empty@.len() <= BLS_SIG_BYTE_SIZE,
                empty@ == Seq::new(empty@.len(), |i: int| 0u8),
            decreases BLS_SIG_BYTE_SIZE - empty@.len(),
        {
            empty.push(0);
        }
        Signature { bytes: empty }
    }
}

impl Clone for Signature {
    fn clone(&self) -> (copy: Self)
        ensures
            copy@ == self@,
    {
        Signature { bytes: self.as_bytes() }
    }
}

impl PartialEq for Signature {
    fn eq(&self, other: &Self) -> (equal: bool) {
        let equal = self.bytes == other.bytes;
        proof {
            if equal {
                assert(self.bytes@ =~= other.bytes@);
            }
        }
        equal
    }
}

impl PartialEqSpecImpl for Signature {
    open spec fn obeys_eq_spec() -> bool {
        true
    }

    /// Two signatures are equal where their bytes are.
    open spec fn eq_spec(&self, other: &Self) -> bool {
        self@ == other@
    }
}

impl Eq for Signature {

}

impl Encodable for Signature {
    /// The bytes of the signature behind their number.
    open spec fn ssz_bytes(&self) -> Seq<u8> {
        length_prefixed(self@)
    }

    fn ssz_append(&self, s: &mut SszStream) {
        proof {
            use_type_invariant(self);
            lemma_concat_bytes_of_bytes(self.bytes@);
        }
        s.append_vec(self.bytes.as_slice());
    }
}

impl Decodable for Signature {
    open spec fn ssz_min_len() -> nat {
        (LENGTH_BYTES + BLS_SIG_BYTE_SIZE) as nat
    }

    /// A length-prefixed run of bytes that is one signature long. A shorter run is
    /// `TooShort`, as is one that the bytes end in; a longer one is `Invalid`.
    open spec fn ssz_parse(bytes: Seq<u8>, index: int) -> Result<(Seq<u8>, int), DecodeError> {
        match parse_blob(bytes, index) {
            Err(error) => Err(error),
            Ok((blob, next)) => if blob.len() < BLS_SIG_BYTE_SIZE {
                Err(DecodeError::TooShort)
            } else if blob.len() > BLS_SIG_BYTE_SIZE {
                Err(DecodeError::Invalid)
            } else {
                Ok((blob, next))
            },
        }
    }

    proof fn lemma_parse_consumes(bytes: Seq<u8>, index: int) {
    }

    proof fn lemma_parse_too_short(bytes: Seq<u8>, index: int) {
    }

    fn ssz_decode(bytes: &[u8], i: usize) -> (outcome: Result<(Self, usize), DecodeError>) {
        proof {
            lemma_parse_list_of_bytes(bytes@, i as int);
        }
        let (sig_bytes, i) = match decode_ssz_list::<u8>(bytes, i) {
            Ok(list) => list,
            Err(error) => { return Err(error); },
        };
        assert(views(sig_bytes@) == sig_bytes@);
        match Signature::from_bytes(sig_bytes.as_slice()) {
            Ok(signature) => Ok((signature, i)),
            Err(error) => Err(error),
        }
    }
}

impl Codec for Signature {
    /// A signature has `BLS_SIG_BYTE_SIZE` bytes.
    open spec fn ssz_valid(&self) -> bool {
        self@.len() == BLS_SIG_BYTE_SIZE
    }

    proof fn lemma_round_trip(value: Self, before: Seq<u8>, after: Seq<u8>) {
        lemma_blob_round_trip(value@, before, after);
    }

    proof fn lemma_parse_is_canonical(value: Self, bytes: Seq<u8>, index: int) {
        lemma_blob_canonical(bytes, index);
    }
}

impl TreeHash for Signature {
    /// The digest of the bytes of the signature as they are, without their number in front.
    open spec fn tree_root(&self) -> Seq<u8> {
        keccak256(self@)
    }

    proof fn lemma_tree_root_of_content(one: Self, other: Self) {
    }

    fn hash_tree_root(&self) -> (digest: Vec<u8>) {
        hash(self.bytes.as_slice())
    }
}

/// Whether `bytes` are the low bytes of `words`, and `words` are draws of a word one after
/// the other that take the generator through `states`, from the first of them to the last.
pub open spec fn low_bytes_of_draws<T>(
    states: Seq<T>,
    words: Seq<u32>,
    bytes: Seq<u8>,
) -> bool where u32: TestRandom<T> {
    &&& states.len() == words.len() + 1
    &&& bytes.len() == words.len()
    &&& forall|i: int|
        0 <= i < words.len() ==> #[trigger] u32::draws(states[i], states[i + 1], words[i])
    &&& forall|i: int| 0 <= i < words.len() ==> #[trigger] bytes[i] == (words[i] % 256) as u8
}

impl<T> TestRandom<T> for Signature where u32: TestRandom<T> {
    /// Each byte of the signature is the low byte of a word drawn for it, the first byte
    /// first: each draw finds the generator as the draw before it left it.
    open spec fn draws(before: T, after: T, value: Signature) -> bool {
        exists|states: Seq<T>, words: Seq<u32>|
            {
                &&& #[trigger] low_bytes_of_draws(states, words, value@)
                &&& words.len() == BLS_SIG_BYTE_SIZE
                &&& states[0] == before
                &&& states[BLS_SIG_BYTE_SIZE as int] == after
            }
    }

    /// A signature of which every byte is drawn from `rng`.
    fn random_for_test(rng: &mut T) -> (signature: Self)
        ensures
            signature@.len() == BLS_SIG_BYTE_SIZE,
    {
        let ghost before = *rng;
        let ghost mut states: Seq<T> = seq![before];
        let ghost mut words: Seq<u32> = Seq::empty();
        let mut bytes: Vec<u8> = Vec::new();
        while bytes.len() < BLS_SIG_BYTE_SIZE
            invariant
                bytes@.len() <= BLS_SIG_BYTE_SIZE,
                low_bytes_of_draws(states, words, bytes@),
                states[0] == before,
                states[words.len() as int] == *rng,
            decreases BLS_SIG_BYTE_SIZE - bytes@.len(),
        {
            let word = u32::random_for_test(rng);
            bytes.push((word % 256) as u8);
            proof {
                states = states.push(*rng);
                words = words.push(word);
            }
        }
        let signature = Signature { bytes };
        assert(low_bytes_of_draws(states, words, signature@));
        signature
    }
}

} // verus!
