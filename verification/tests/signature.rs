use eth2_types::signature::BLS_SIG_BYTE_SIZE;
use eth2_types::ssz::{ssz_encode, Decodable, DecodeError, TreeHash};
use eth2_types::test_utils::TestRandom;
use eth2_types::{AggregateSignature, Signature};
use rand::prng::XorShiftRng;
use rand::SeedableRng;

#[test]
pub fn signature_test_ssz_round_trip() {
    let mut rng = XorShiftRng::from_seed([42; 16]);

    let original = Signature::random_for_test(&mut rng);

    let bytes = ssz_encode(&original);
    let (decoded, _) = Signature::ssz_decode(&bytes, 0).unwrap();

    assert_eq!(original, decoded);
}

#[test]
pub fn test_empty_signature() {
    let sig = Signature::empty_signature();

    let sig_as_bytes: Vec<u8> = sig.as_bytes();

    assert_eq!(sig_as_bytes.len(), 97);
    for one_byte in sig_as_bytes.iter() {
        assert_eq!(*one_byte, 0);
    }
}

#[test]
pub fn aggregate_signature_test_ssz_round_trip() {
    let mut rng = XorShiftRng::from_seed([42; 16]);

    let original =
        AggregateSignature::from_bytes(&Signature::random_for_test(&mut rng).as_bytes()).unwrap();

    let bytes = ssz_encode(&original);
    let (decoded, _) = AggregateSignature::ssz_decode(&bytes, 0).unwrap();

    assert_eq!(original, decoded);
}

fn counting_bytes() -> Vec<u8> {
    (0..97u8).map(|i| i.wrapping_mul(3)).collect()
}

#[test]
fn signature_size_is_97() {
    assert_eq!(BLS_SIG_BYTE_SIZE, 97);
}

#[test]
fn signature_keeps_its_bytes() {
    let bytes = counting_bytes();
    let signature = Signature::from_bytes(&bytes).unwrap();
    assert_eq!(signature.as_bytes(), bytes);
}

#[test]
fn signature_of_another_size_is_refused() {
    assert_eq!(Signature::from_bytes(&[]), Err(DecodeError::TooShort));
    assert_eq!(Signature::from_bytes(&[1; 96]), Err(DecodeError::TooShort));
    assert_eq!(Signature::from_bytes(&[1; 98]), Err(DecodeError::Invalid));
    assert!(Signature::from_bytes(&[1; 97]).is_ok());
}

#[test]
fn signatures_are_equal_where_their_bytes_are() {
    let bytes = counting_bytes();
    let mut other = bytes.clone();
    other[96] ^= 1;

    let one = Signature::from_bytes(&bytes).unwrap();
    assert_eq!(one, Signature::from_bytes(&bytes).unwrap());
    assert_eq!(one, one.clone());
    assert_ne!(one, Signature::from_bytes(&other).unwrap());
    assert_ne!(one, Signature::empty_signature());
    assert_eq!(Signature::empty_signature(), Signature::from_bytes(&[0; 97]).unwrap());
}

#[test]
fn signature_encoding_is_its_bytes_behind_their_number() {
    let bytes = counting_bytes();
    let encoded = ssz_encode(&Signature::from_bytes(&bytes).unwrap());

    let mut expected = vec![97, 0, 0, 0];
    expected.extend_from_slice(&bytes);
    assert_eq!(encoded, expected);
    assert_eq!(encoded.len(), 101);
}

#[test]
fn empty_signature_encoding() {
    let encoded = ssz_encode(&Signature::empty_signature());
    let mut expected = vec![97, 0, 0, 0];
    expected.extend_from_slice(&[0; 97]);
    assert_eq!(encoded, expected);
}

#[test]
fn signature_decode_returns_the_offset_behind_the_signature() {
    let bytes = counting_bytes();
    let mut buffer = vec![5; 7];
    buffer.extend(ssz_encode(&Signature::from_bytes(&bytes).unwrap()));
    buffer.extend_from_slice(&[6; 9]);

    let (decoded, next) = Signature::ssz_decode(&buffer, 7).unwrap();

    assert_eq!(decoded.as_bytes(), bytes);
    assert_eq!(next, 7 + 101);
}

#[test]
fn signature_shorter_than_its_minimum_is_too_short() {
    let encoded = ssz_encode(&Signature::from_bytes(&counting_bytes()).unwrap());
    for len in 0..encoded.len() {
        assert_eq!(
            Signature::ssz_decode(&encoded[..len], 0),
            Err(DecodeError::TooShort)
        );
    }
}

#[test]
fn signature_with_a_short_run_of_bytes_is_too_short() {
    let mut buffer = vec![96, 0, 0, 0];
    buffer.extend_from_slice(&[1; 150]);
    assert_eq!(
        Signature::ssz_decode(&buffer, 0),
        Err(DecodeError::TooShort)
    );
}

#[test]
fn signature_with_a_long_run_of_bytes_is_invalid() {
    let mut buffer = vec![98, 0, 0, 0];
    buffer.extend_from_slice(&[1; 150]);
    assert_eq!(Signature::ssz_decode(&buffer, 0), Err(DecodeError::Invalid));
}

#[test]
fn signature_whose_prefix_announces_more_than_there_is_is_too_short() {
    let mut buffer = vec![0xff, 0xff, 0xff, 0xff];
    buffer.extend_from_slice(&[1; 150]);
    assert_eq!(
        Signature::ssz_decode(&buffer, 0),
        Err(DecodeError::TooShort)
    );
}

#[test]
fn signature_digest_is_the_hash_of_its_bytes_alone() {
    let bytes = counting_bytes();
    let signature = Signature::from_bytes(&bytes).unwrap();

    let digest = signature.hash_tree_root();

    assert_eq!(digest.len(), 32);
    assert_eq!(digest, tiny_keccak::keccak256(&bytes).to_vec());
    assert_ne!(
        digest,
        tiny_keccak::keccak256(&ssz_encode(&signature)).to_vec()
    );
}

#[test]
fn random_signatures_differ() {
    let mut rng = XorShiftRng::from_seed([42; 16]);
    let one = Signature::random_for_test(&mut rng);
    let other = Signature::random_for_test(&mut rng);
    assert_eq!(one.as_bytes().len(), 97);
    assert_ne!(one, other);

    let mut again = XorShiftRng::from_seed([42; 16]);
    assert_eq!(one, Signature::random_for_test(&mut again));
}

#[test]
fn aggregate_keeps_its_bytes() {
    let bytes = counting_bytes();
    let aggregate = AggregateSignature::from_bytes(&bytes).unwrap();
    assert_eq!(aggregate.as_bytes(), bytes);
    assert_eq!(aggregate, aggregate.clone());
    assert_ne!(aggregate, AggregateSignature::from_bytes(&bytes[..96]).unwrap());
}

#[test]
fn aggregate_encoding_is_its_bytes_behind_their_number() {
    let aggregate = AggregateSignature::from_bytes(&[7, 8, 9]).unwrap();
    assert_eq!(ssz_encode(&aggregate), vec![3, 0, 0, 0, 7, 8, 9]);

    let none = AggregateSignature::from_bytes(&[]).unwrap();
    assert_eq!(ssz_encode(&none), vec![0, 0, 0, 0]);
}

#[test]
fn aggregate_decode_returns_the_offset_behind_the_aggregate() {
    let buffer = vec![1, 2, 0, 0, 0, 7, 8, 9];
    let (decoded, next) = AggregateSignature::ssz_decode(&buffer, 1).unwrap();
    assert_eq!(decoded.as_bytes(), vec![7, 8]);
    assert_eq!(next, 7);
}

#[test]
fn aggregate_shorter_than_its_prefix_says_is_too_short() {
    assert_eq!(
        AggregateSignature::ssz_decode(&[3, 0, 0], 0),
        Err(DecodeError::TooShort)
    );
    assert_eq!(
        AggregateSignature::ssz_decode(&[3, 0, 0, 0, 1, 2], 0),
        Err(DecodeError::TooShort)
    );
    assert_eq!(
        AggregateSignature::ssz_decode(&[3, 0, 0, 0, 1, 2, 3], 4),
        Err(DecodeError::TooShort)
    );
}

#[test]
fn aggregate_digest_is_the_hash_of_its_bytes_alone() {
    let aggregate = AggregateSignature::from_bytes(&[7, 8, 9]).unwrap();
    let digest = aggregate.hash_tree_root();
    assert_eq!(digest.len(), 32);
    assert_eq!(digest, tiny_keccak::keccak256(&[7, 8, 9]).to_vec());
}

#[test]
fn signature_that_is_no_point_is_invalid() {
    let bytes = counting_bytes();
    assert_eq!(
        Signature::from_checked_bytes(&bytes, true).unwrap().as_bytes(),
        bytes
    );
    assert_eq!(
        Signature::from_checked_bytes(&bytes, false),
        Err(DecodeError::Invalid)
    );
    assert_eq!(
        Signature::from_checked_bytes(&bytes[..96], true),
        Err(DecodeError::TooShort)
    );
    assert_eq!(
        Signature::from_checked_bytes(&bytes[..96], false),
        Err(DecodeError::TooShort)
    );
    assert_eq!(
        Signature::from_checked_bytes(&[0; 98], true),
        Err(DecodeError::Invalid)
    );
}

#[test]
fn aggregate_that_is_no_point_is_invalid() {
    assert_eq!(
        AggregateSignature::from_checked_bytes(&[1, 2, 3], true)
            .unwrap()
            .as_bytes(),
        vec![1, 2, 3]
    );
    assert_eq!(
        AggregateSignature::from_checked_bytes(&[1, 2, 3], false),
        Err(DecodeError::Invalid)
    );
}
