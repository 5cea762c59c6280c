//! The versions of the protocol on either side of a fork.

use crate::ssz::codec::{lemma_le_canonical, lemma_le_round_trip, Codec};
use crate::ssz::decode::{Decodable, DecodeError};
use crate::ssz::encode::{Encodable, SszStream};
use crate::ssz::little_endian::{le_value, lemma_pow256_values};
use crate::ssz::tree_hash::{hash, join_roots, keccak256, lemma_joined_three, TreeHash};
use crate::test_utils::TestRandom;
use vstd::prelude::*;

verus! {

/// Two protocol versions and the epoch at which the second takes over from the first.
#[derive(Debug, PartialEq, Eq, Structural)]
pub struct Fork {
    pub previous_version: u64,
    pub current_version: u64,
    pub epoch: u64,
}

impl Fork {
    /// The version in force at `epoch`: the previous one before the fork's epoch, the current
    /// one from that epoch on.
    pub open spec fn version_for(&self, epoch: u64) -> u64 {
        if epoch < self.epoch {
            self.previous_version
        } else {
            self.current_version
        }
    }

    /// Returns the fork version for the given `epoch`.
    pub fn get_version_for(&self, epoch: u64) -> (version: u64)
        ensures
            version == self.version_for(epoch),
    {
        if epoch < self.epoch {
            self.previous_version
        } else {
            self.current_version
        }
    }

    /// Just before the fork's epoch the previous version is in force; at that epoch and just
    /// after it, the current one.
    pub proof fn lemma_version_switches_at_epoch(fork: Fork)
        ensures
            fork.epoch > 0 ==> fork.version_for((fork.epoch - 1) as u64) == fork.previous_version,
            fork.version_for(fork.epoch) == fork.current_version,
            fork.epoch < u64::MAX ==> fork.version_for((fork.epoch + 1) as u64)
                == fork.current_version,
    {
    }
}

impl Clone for Fork {
    fn clone(&self) -> (copy: Self)
        ensures
            copy == *self,
    {
        Fork {
            previous_version: self.previous_version,
            current_version: self.current_version,
            epoch: self.epoch,
        }
    }
}

impl Default for Fork {
    /// The fork at epoch zero between versions zero and zero.
    fn default() -> (fork: Self)
        ensures
            fork.previous_version == 0,
            fork.current_version == 0,
            fork.epoch == 0,
    {
        Fork { previous_version: 0, current_version: 0, epoch: 0 }
    }
}

impl View for Fork {
    type V = Fork;

    open spec fn view(&self) -> Fork {
        *self
    }
}

impl Encodable for Fork {
    /// The three fields, eight bytes each.
    open spec fn ssz_bytes(&self) -> Seq<u8> {
        self.previous_version.ssz_bytes() + self.current_version.ssz_bytes()
            + self.epoch.ssz_bytes()
    }

    fn ssz_append(&self, s: &mut SszStream) {
        s.append(&self.previous_version);
        s.append(&self.current_version);
        s.append(&self.epoch);
    }
}

impl Decodable for Fork {
    open spec fn ssz_min_len() -> nat {
        24
    }

    /// Three little-endian numbers of eight bytes each, where that many bytes are left.
    open spec fn ssz_parse(bytes: Seq<u8>, index: int) -> Result<(Fork, int), DecodeError> {
        if index + 24 <= bytes.len() {
            Ok(
                (
                    Fork {
                        previous_version: le_value(bytes.subrange(index, index + 8)) as u64,
                        current_version: le_value(bytes.subrange(index + 8, index + 16)) as u64,
                        epoch: le_value(bytes.subrange(index + 16, index + 24)) as u64,
                    },
                    index + 24,
                ),
            )
        } else {
            Err(DecodeError::TooShort)
        }
    }

    proof fn lemma_parse_consumes(bytes: Seq<u8>, index: int) {
    }

    proof fn lemma_parse_too_short(bytes: Seq<u8>, index: int) {
    }

    fn ssz_decode(bytes: &[u8], i: usize) -> (outcome: Result<(Self, usize), DecodeError>) {
        let (previous_version, i) = match u64::ssz_decode(bytes, i) {
            Ok(field) => field,
            Err(error) => { return Err(error); },
        };
        let (current_version, i) = match u64::ssz_decode(bytes, i) {
            Ok(field) => field,
            Err(error) => { return Err(error); },
        };
        let (epoch, i) = match u64::ssz_decode(bytes, i) {
            Ok(field) => field,
            Err(error) => { return Err(error); },
        };
        Ok((Fork { previous_version, current_version, epoch }, i))
    }
}

impl Codec for Fork {
    open spec fn ssz_valid(&self) -> bool {
        true
    }

    proof fn lemma_round_trip(value: Self, before: Seq<u8>, after: Seq<u8>) {
        let first = value.previous_version.ssz_bytes();
        let second = value.current_version.ssz_bytes();
        let third = value.epoch.ssz_bytes();
        let bytes = before + value.ssz_bytes() + after;
        lemma_pow256_values();
        lemma_le_round_trip(value.previous_version as nat, 8, before, second + third + after);
        lemma_le_round_trip(value.current_version as nat, 8, before + first, third + after);
        lemma_le_round_trip(value.epoch as nat, 8, before + first + second, after);
        assert(bytes == before + first + (second + third + after));
        assert(bytes == before + first + second + (third + after));
        assert(bytes == before + first + second + third + after);
    }

    proof fn lemma_parse_is_canonical(value: Self, bytes: Seq<u8>, index: int) {
        lemma_pow256_values();
        lemma_le_canonical(bytes, index, 8);
        lemma_le_canonical(bytes, index + 8, 8);
        lemma_le_canonical(bytes, index + 16, 8);
        assert(bytes.subrange(index, index + 24) == bytes.subrange(index, index + 8)
            + bytes.subrange(index + 8, index + 16) + bytes.subrange(index + 16, index + 24));
    }
}

impl TreeHash for Fork {
    /// The hash of the digests of the three fields, one after the other.
    open spec fn tree_root(&self) -> Seq<u8> {
        keccak256(
            self.previous_version.tree_root() + self.current_version.tree_root()
                + self.epoch.tree_root(),
        )
    }

    proof fn lemma_tree_root_of_content(one: Self, other: Self) {
    }

    fn hash_tree_root(&self) -> (digest: Vec<u8>) {
        let mut roots: Vec<Vec<u8>> = Vec::new();
        roots.push(self.previous_version.hash_tree_root());
        roots.push(self.current_version.hash_tree_root());
        roots.push(self.epoch.hash_tree_root());
        proof {
            lemma_joined_three(roots@[0], roots@[1], roots@[2]);
            assert(roots@ == seq![roots@[0], roots@[1], roots@[2]]);
        }
        hash(join_roots(roots.as_slice()).as_slice())
    }
}

impl<T> TestRandom<T> for Fork where u64: TestRandom<T> {
    /// The three fields are three draws of a number, in the order of the schema: each draw
    /// finds the generator as the draw before it left it.
    open spec fn draws(before: T, after: T, value: Fork) -> bool {
        exists|second: T, third: T|
            {
                &&& #[trigger] u64::draws(before, second, value.previous_version)
                &&& u64::draws(second, third, value.current_version)
                &&& #[trigger] u64::draws(third, after, value.epoch)
            }
    }

    /// A fork whose fields are drawn from `rng`, in the order of the schema.
    fn random_for_test(rng: &mut T) -> Self {
        let ghost first = *rng;
        let previous_version = u64::random_for_test(rng);
        let ghost second = *rng;
        let current_version = u64::random_for_test(rng);
        let ghost third = *rng;
        let epoch = u64::random_for_test(rng);
        let fork = Fork { previous_version, current_version, epoch };
        assert(u64::draws(first, second, fork.previous_version) && u64::draws(
            second,
            third,
            fork.current_version,
        ) && u64::draws(third, *rng, fork.epoch));
        fork
    }
}

} // verus!
