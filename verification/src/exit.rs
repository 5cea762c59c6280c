//! A validator's signed request to leave.

use crate::signature::{Signature, BLS_SIG_BYTE_SIZE};
use crate::ssz::codec::{lemma_le_canonical, lemma_le_round_trip, Codec};
use crate::ssz::decode::{Decodable, DecodeError};
use crate::ssz::encode::{Encodable, SszStream, LENGTH_BYTES};
use crate::ssz::little_endian::{le_value, lemma_pow256_values};
use crate::ssz::tree_hash::{hash, join_roots, keccak256, lemma_joined_three, TreeHash};
use crate::test_utils::TestRandom;
use vstd::prelude::*;
use vstd::std_specs::cmp::PartialEqSpecImpl;

verus! {

/// The slot from which a validator asks to leave, its index, and its signature of the two.
#[derive(Debug)]
pub struct Exit {
    pub slot: u64,
    pub validator_index: u32,
    pub signature: Signature,
}

/// What an `Exit` holds.
pub struct ExitView {
    pub slot: u64,
    pub validator_index: u32,
    pub signature: Seq<u8>,
}

impl View for Exit {
    type V = ExitView;

    open spec fn view(&self) -> ExitView {
        ExitView {
            slot: self.slot,
            validator_index: self.validator_index,
            signature: self.signature@,
        }
    }
}

impl Clone for Exit {
    fn clone(&self) -> (copy: Self)
        ensures
            copy@ == self@,
    {
        Exit {
            slot: self.slot,
            validator_index: self.validator_index,
            signature: self.signature.clone(),
        }
    }
}

impl PartialEq for Exit {
    fn eq(&self, other: &Self) -> (equal: bool) {
        self.slot == other.slot && self.validator_index == other.validator_index
            && self.signature == other.signature
    }
}

impl PartialEqSpecImpl for Exit {
    open spec fn obeys_eq_spec() -> bool {
        true
    }

    /// Two exits are equal where their fields are.
    open spec fn eq_spec(&self, other: &Self) -> bool {
        self@ == other@
    }
}

impl Encodable for Exit {
    /// Eight bytes of slot, four of index, then the signature behind its length.
    open spec fn ssz_bytes(&self) -> Seq<u8> {
        self.slot.ssz_bytes() + self.validator_index.ssz_bytes() + self.signature.ssz_bytes()
    }

    fn ssz_append(&self, s: &mut SszStream) {
        s.append(&self.slot);
        s.append(&self.validator_index);
        s.append(&self.signature);
    }
}

impl Decodable for Exit {
    open spec fn ssz_min_len() -> nat {
        (8 + 4 + LENGTH_BYTES + BLS_SIG_BYTE_SIZE) as nat
    }

    /// Eight bytes of slot, four of index, then the signature. The first field that fails
    /// gives the error.
    open spec fn ssz_parse(bytes: Seq<u8>, index: int) -> Result<(ExitView, int), DecodeError> {
        if bytes.len() < index + 12 {
            Err(DecodeError::TooShort)
        } else {
            match Signature::ssz_parse(bytes, index + 12) {
                Err(error) => Err(error),
                Ok((signature, next)) => Ok(
                    (
                        ExitView {
                            slot: le_value(bytes.subrange(index, index + 8)) as u64,
                            validator_index: le_value(bytes.subrange(index + 8, index + 12)) as u32,
                            signature,
                        },
                        next,
                    ),
                ),
            }
        }
    }

    proof fn lemma_parse_consumes(bytes: Seq<u8>, index: int) {
    }

    proof fn lemma_parse_too_short(bytes: Seq<u8>, index: int) {
    }

    fn ssz_decode(bytes: &[u8], i: usize) -> (outcome: Result<(Self, usize), DecodeError>) {
        let (slot, i) = match u64::ssz_decode(bytes, i) {
            Ok(field) => field,
            Err(error) => { return Err(error); },
        };
        let (validator_index, i) = match u32::ssz_decode(bytes, i) {
            Ok(field) => field,
            Err(error) => { return Err(error); },
        };
        let (signature, i) = match Signature::ssz_decode(bytes, i) {
            Ok(field) => field,
            Err(error) => { return Err(error); },
        };
        Ok((Exit { slot, validator_index, signature }, i))
    }
}

impl Codec for Exit {
    /// An exit is valid where its signature is.
    open spec fn ssz_valid(&self) -> bool {
        self.signature.ssz_valid()
    }

    proof fn lemma_round_trip(value: Self, before: Seq<u8>, after: Seq<u8>) {
        let first = value.slot.ssz_bytes();
        let second = value.validator_index.ssz_bytes();
        let third = value.signature.ssz_bytes();
        let bytes = before + value.ssz_bytes() + after;
        lemma_pow256_values();
        lemma_le_round_trip(value.slot as nat, 8, before, second + third + after);
        lemma_le_round_trip(value.validator_index as nat, 4, before + first, third + after);
        Signature::lemma_round_trip(value.signature, before + first + second, after);
        assert(bytes == before + first + (second + third + after));
        assert(bytes == before + first + second + (third + after));
        assert(bytes == before + first + second + third + after);
    }

    proof fn lemma_parse_is_canonical(value: Self, bytes: Seq<u8>, index: int) {
        lemma_pow256_values();
        lemma_le_canonical(bytes, index, 8);
        lemma_le_canonical(bytes, index + 8, 4);
        Signature::lemma_parse_is_canonical(value.signature, bytes, index + 12);
        let next = Self::ssz_parse(bytes, index).unwrap().1;
        assert(bytes.subrange(index, next) == bytes.subrange(index, index + 8) + bytes.subrange(
            index + 8,
            index + 12,
        ) + bytes.subrange(index + 12, next));
    }
}

impl TreeHash for Exit {
    /// The hash of the digests of the three fields, one after the other.
    open spec fn tree_root(&self) -> Seq<u8> {
        keccak256(
            self.slot.tree_root() + self.validator_index.tree_root() + self.signature.tree_root(),
        )
    }

    proof fn lemma_tree_root_of_content(one: Self, other: Self) {
    }

    fn hash_tree_root(&self) -> (digest: Vec<u8>) {
        let mut roots: Vec<Vec<u8>> = Vec::new();
        roots.push(self.slot.hash_tree_root());
        roots.push(self.validator_index.hash_tree_root());
        roots.push(self.signature.hash_tree_root());
        proof {
            lemma_joined_three(roots@[0], roots@[1], roots@[2]);
            assert(roots@ == seq![roots@[0], roots@[1], roots@[2]]);
        }
        hash(join_roots(roots.as_slice()).as_slice())
    }
}

impl<T> TestRandom<T> for Exit where u64: TestRandom<T>, u32: TestRandom<T> {
    /// The three fields are three draws, in the order of the schema: each draw finds the
    /// generator as the draw before it left it.
    open spec fn draws(before: T, after: T, value: Exit) -> bool {
        exists|second: T, third: T|
            {
                &&& #[trigger] u64::draws(before, second, value.slot)
                &&& u32::draws(second, third, value.validator_index)
                &&& #[trigger] Signature::draws(third, after, value.signature)
            }
    }

    /// An exit whose fields are drawn from `rng`, in the order of the schema.
    fn random_for_test(rng: &mut T) -> (exit: Self)
        ensures
            exit.ssz_valid(),
    {
        let ghost first = *rng;
        let slot = u64::random_for_test(rng);
        let ghost second = *rng;
        let validator_index = u32::random_for_test(rng);
        let ghost third = *rng;
        let signature = Signature::random_for_test(rng);
        let exit = Exit { slot, validator_index, signature };
        assert(u64::draws(first, second, exit.slot) && u32::draws(
            second,
            third,
            exit.validator_index,
        ) && Signature::draws(third, *rng, exit.signature));
        exit
    }
}

} // verus!
