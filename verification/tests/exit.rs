use eth2_types::ssz::{ssz_encode, Decodable, DecodeError, TreeHash};
use eth2_types::test_utils::TestRandom;
use eth2_types::{Exit, Signature};
use rand::prng::XorShiftRng;
use rand::SeedableRng;

#[test]
pub fn exit_test_ssz_round_trip() {
    let mut rng = XorShiftRng::from_seed([42; 16]);
    let original = Exit::random_for_test(&mut rng);

    let bytes = ssz_encode(&original);
    let (decoded, _) = <_>::ssz_decode(&bytes, 0).unwrap();

    assert_eq!(original, decoded);
}

#[test]
pub fn exit_test_hash_tree_root() {
    let mut rng = XorShiftRng::from_seed([42; 16]);
    let original = Exit::random_for_test(&mut rng);

    let result = original.hash_tree_root();

    assert_eq!(result.len(), 32);
}

fn sample_exit() -> Exit {
    let mut signature_bytes = vec![0u8; 97];
    for (i, byte) in signature_bytes.iter_mut().enumerate() {
        *byte = i as u8;
    }
    Exit {
        slot: 0x0807_0605_0403_0201,
        validator_index: 0x0c0b_0a09,
        signature: Signature::from_bytes(&signature_bytes).unwrap(),
    }
}

#[test]
fn exit_encoding_is_the_fields_in_schema_order() {
    let bytes = ssz_encode(&sample_exit());

    let mut expected: Vec<u8> = (1..=12).collect();
    expected.extend_from_slice(&[97, 0, 0, 0]);
    expected.extend(0..97u8);
    assert_eq!(bytes, expected);
    assert_eq!(bytes.len(), 113);
}

#[test]
fn exit_decode_returns_the_offset_behind_the_record() {
    let mut bytes = vec![0xaa, 0xbb];
    bytes.extend(ssz_encode(&sample_exit()));
    bytes.extend_from_slice(&[0xcc, 0xdd, 0xee]);

    let (decoded, next) = Exit::ssz_decode(&bytes, 2).unwrap();

    assert_eq!(decoded, sample_exit());
    assert_eq!(next, 2 + 113);
}

#[test]
fn exit_shorter_than_its_minimum_is_too_short() {
    let bytes = ssz_encode(&sample_exit());
    for len in 0..bytes.len() {
        assert_eq!(
            Exit::ssz_decode(&bytes[..len], 0),
            Err(DecodeError::TooShort)
        );
    }
}

#[test]
fn exit_with_a_short_signature_is_too_short() {
    let mut bytes: Vec<u8> = (1..=12).collect();
    bytes.extend_from_slice(&[3, 0, 0, 0, 7, 7, 7]);
    bytes.extend_from_slice(&[0; 200]);
    assert_eq!(Exit::ssz_decode(&bytes, 0), Err(DecodeError::TooShort));
}

#[test]
fn exit_with_a_long_signature_is_invalid() {
    let mut bytes: Vec<u8> = (1..=12).collect();
    bytes.extend_from_slice(&[98, 0, 0, 0]);
    bytes.extend_from_slice(&[0; 98]);
    assert_eq!(Exit::ssz_decode(&bytes, 0), Err(DecodeError::Invalid));
}

#[test]
fn exit_digest_hashes_the_digests_of_its_fields() {
    let exit = sample_exit();

    let mut fields = exit.slot.hash_tree_root();
    fields.extend(exit.validator_index.hash_tree_root());
    fields.extend(exit.signature.hash_tree_root());
    assert_eq!(fields.len(), 96);

    assert_eq!(exit.hash_tree_root(), tiny_keccak::keccak256(&fields).to_vec());
}

#[test]
fn exit_digest_does_not_depend_on_how_the_exit_was_made() {
    let built = sample_exit();
    let (decoded, _) = Exit::ssz_decode(&ssz_encode(&built), 0).unwrap();
    let cloned = built.clone();

    assert_eq!(built.hash_tree_root(), decoded.hash_tree_root());
    assert_eq!(built.hash_tree_root(), cloned.hash_tree_root());
    assert_eq!(built.hash_tree_root(), built.hash_tree_root());
}

#[test]
fn exits_differ_where_a_field_differs() {
    let mut other = sample_exit();
    other.validator_index += 1;
    assert_ne!(other, sample_exit());
    assert_ne!(other.hash_tree_root(), sample_exit().hash_tree_root());
}
