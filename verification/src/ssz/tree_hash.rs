//! The digest of a value.

use super::encode::{ssz_encode, Encodable};
use vstd::prelude::*;

verus! {

/// The number of bytes of a digest.
pub const HASH_BYTES: usize = 32;

/// What `tiny_keccak::keccak256` returns for `data`: its Keccak-256 digest.
pub uninterp spec fn keccak256(data: Seq<u8>) -> Seq<u8>;

/// The one-way hash of `input`.
///
/// Calls `tiny_keccak::keccak256`, which absorbs `input` into a Keccak sponge and squeezes
/// an array of 32 bytes out of it. Nothing of this is proved: the contract claims that the
/// result depends on the bytes of `input` and on nothing else, and that it has 32 bytes.
#[verifier::external_body]
pub(crate) fn hash(input: &[u8]) -> (digest: Vec<u8>)
    ensures
        digest@ == keccak256(input@),
        digest@.len() == HASH_BYTES,
{
    tiny_keccak::keccak256(input).to_vec()
}

/// The byte strings of `chunks`, one after the other.
pub open spec fn joined(chunks: Seq<Vec<u8>>) -> Seq<u8>
    decreases chunks.len(),
{
    if chunks.len() == 0 {
        Seq::empty()
    } else {
        joined(chunks.drop_last()) + chunks.last()@
    }
}

/// Joining one more byte string puts it behind the others.
pub proof fn lemma_joined_push(chunks: Seq<Vec<u8>>, chunk: Vec<u8>)
    ensures
        joined(chunks.push(chunk)) == joined(chunks) + chunk@,
{
    assert(chunks.push(chunk).drop_last() == chunks);
}

/// Three byte strings, joined.
pub proof fn lemma_joined_three(first: Vec<u8>, second: Vec<u8>, third: Vec<u8>)
    ensures
        joined(seq![first, second, third]) == first@ + second@ + third@,
{
    let none = Seq::<Vec<u8>>::empty();
    lemma_joined_push(none, first);
    lemma_joined_push(none.push(first), second);
    lemma_joined_push(none.push(first).push(second), third);
    assert(seq![first, second, third] == none.push(first).push(second).push(third));
    assert(Seq::<u8>::empty() + first@ == first@);
}

/// What a record hashes: the digests of its fields, one after the other in the order of
/// the schema.
pub fn join_roots(roots: &[Vec<u8>]) -> (bytes: Vec<u8>)
    ensures
        bytes@ == joined(roots@),
{
    let mut bytes: Vec<u8> = Vec::new();
    let mut done: usize = 0;
    assert(roots@.take(0) == Seq::<Vec<u8>>::empty());
    while done < roots.len()
        invariant
            done <= roots@.len(),
            bytes@ == joined(roots@.take(done as int)),
        decreases roots@.len() - done,
    {
        let root = &roots[done];
        let ghost before = bytes@;
        let mut copied: usize = 0;
        while copied < root.len()
            invariant
                copied <= root@.len(),
                bytes@ == before + root@.take(copied as int),
            decreases root@.len() - copied,
        {
            bytes.push(root[copied]);
            copied = copied + 1;
        }
        proof {
            assert(root@.take(copied as int) == root@);
            assert(roots@.take(done + 1) == roots@.take(done as int).push(*root));
            lemma_joined_push(roots@.take(done as int), *root);
        }
        done = done + 1;
    }
    assert(roots@.take(done as int) == roots@);
    bytes
}

/// A value with a digest.
///
/// The digest is computed from what the value holds, never from bytes that were encoded
/// earlier. A record hashes the digests of its fields, one after the other in the order of
/// the schema: each field takes 32 bytes of what is hashed, whatever its own size.
pub trait TreeHash: Sized + View {
    /// The digest of `self`.
    spec fn tree_root(&self) -> Seq<u8>;

    /// Two values with the same content have the same digest, however they were made.
    proof fn lemma_tree_root_of_content(one: Self, other: Self)
        requires
            one@ == other@,
        ensures
            one.tree_root() == other.tree_root(),
    ;

    /// Computes the digest of `self`.
    fn hash_tree_root(&self) -> (digest: Vec<u8>)
        ensures
            digest@ == self.tree_root(),
            digest@.len() == HASH_BYTES,
    ;
}

impl TreeHash for u8 {
    open spec fn tree_root(&self) -> Seq<u8> {
        keccak256(self.ssz_bytes())
    }

    proof fn lemma_tree_root_of_content(one: Self, other: Self) {
    }

    fn hash_tree_root(&self) -> (digest: Vec<u8>) {
        hash(ssz_encode(self).as_slice())
    }
}

impl TreeHash for u16 {
    open spec fn tree_root(&self) -> Seq<u8> {
        keccak256(self.ssz_bytes())
    }

    proof fn lemma_tree_root_of_content(one: Self, other: Self) {
    }

    fn hash_tree_root(&self) -> (digest: Vec<u8>) {
        hash(ssz_encode(self).as_slice())
    }
}

impl TreeHash for u32 {
    open spec fn tree_root(&self) -> Seq<u8> {
        keccak256(self.ssz_bytes())
    }

    proof fn lemma_tree_root_of_content(one: Self, other: Self) {
    }

    fn hash_tree_root(&self) -> (digest: Vec<u8>) {
        hash(ssz_encode(self).as_slice())
    }
}

impl TreeHash for u64 {
    open spec fn tree_root(&self) -> Seq<u8> {
        keccak256(self.ssz_bytes())
    }

    proof fn lemma_tree_root_of_content(one: Self, other: Self) {
    }

    fn hash_tree_root(&self) -> (digest: Vec<u8>) {
        hash(ssz_encode(self).as_slice())
    }
}

} // verus!
