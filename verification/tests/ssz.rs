use eth2_types::ssz::{
    decode_ssz, decode_ssz_list, join_roots, ssz_encode, Decodable, DecodeError, SszStream,
    TreeHash, HASH_BYTES, LENGTH_BYTES,
};

fn from_hex(hex: &str) -> Vec<u8> {
    (0..hex.len())
        .step_by(2)
        .map(|i| u8::from_str_radix(&hex[i..i + 2], 16).unwrap())
        .collect()
}

#[test]
fn integers_are_encoded_little_endian() {
    assert_eq!(ssz_encode(&0x12u8), vec![0x12]);
    assert_eq!(ssz_encode(&0x1234u16), vec![0x34, 0x12]);
    assert_eq!(ssz_encode(&0x1234_5678u32), vec![0x78, 0x56, 0x34, 0x12]);
    assert_eq!(
        ssz_encode(&0x0123_4567_89ab_cdefu64),
        vec![0xef, 0xcd, 0xab, 0x89, 0x67, 0x45, 0x23, 0x01]
    );
}

#[test]
fn integers_take_their_width_whatever_their_value() {
    assert_eq!(ssz_encode(&0u8), vec![0]);
    assert_eq!(ssz_encode(&0u16), vec![0; 2]);
    assert_eq!(ssz_encode(&1u32), vec![1, 0, 0, 0]);
    assert_eq!(ssz_encode(&1u64), vec![1, 0, 0, 0, 0, 0, 0, 0]);
    assert_eq!(ssz_encode(&u64::MAX), vec![0xff; 8]);
    assert_eq!(ssz_encode(&u32::MAX), vec![0xff; 4]);
}

#[test]
fn integers_are_decoded_little_endian() {
    let bytes = [0xef, 0xcd, 0xab, 0x89, 0x67, 0x45, 0x23, 0x01, 0x99];
    assert_eq!(u8::ssz_decode(&bytes, 0), Ok((0xef, 1)));
    assert_eq!(u16::ssz_decode(&bytes, 0), Ok((0xcdef, 2)));
    assert_eq!(u32::ssz_decode(&bytes, 0), Ok((0x89ab_cdef, 4)));
    assert_eq!(u64::ssz_decode(&bytes, 0), Ok((0x0123_4567_89ab_cdef, 8)));
    assert_eq!(u64::ssz_decode(&bytes, 1), Ok((0x9901_2345_6789_abcd, 9)));
    assert_eq!(u16::ssz_decode(&bytes, 7), Ok((0x9901, 9)));
    assert_eq!(u8::ssz_decode(&bytes, 8), Ok((0x99, 9)));
}

#[test]
fn integers_round_trip() {
    for value in [0u64, 1, 255, 256, 0xdead_beef, u64::MAX - 1, u64::MAX] {
        assert_eq!(u64::ssz_decode(&ssz_encode(&value), 0), Ok((value, 8)));
    }
    for value in [0u32, 1, 0xffff, 0x1_0000, u32::MAX] {
        assert_eq!(u32::ssz_decode(&ssz_encode(&value), 0), Ok((value, 4)));
    }
    for value in [0u16, 1, 0xff, 0x100, u16::MAX] {
        assert_eq!(u16::ssz_decode(&ssz_encode(&value), 0), Ok((value, 2)));
    }
    for value in 0..=u8::MAX {
        assert_eq!(u8::ssz_decode(&ssz_encode(&value), 0), Ok((value, 1)));
    }
}

#[test]
fn integers_that_the_bytes_end_in_are_too_short() {
    let bytes = [1, 2, 3, 4, 5, 6, 7];
    assert_eq!(u64::ssz_decode(&bytes, 0), Err(DecodeError::TooShort));
    assert_eq!(u32::ssz_decode(&bytes, 4), Err(DecodeError::TooShort));
    assert_eq!(u16::ssz_decode(&bytes, 6), Err(DecodeError::TooShort));
    assert_eq!(u8::ssz_decode(&bytes, 7), Err(DecodeError::TooShort));
    assert_eq!(u8::ssz_decode(&bytes, 8), Err(DecodeError::TooShort));
    assert_eq!(u8::ssz_decode(&[], 0), Err(DecodeError::TooShort));
    assert_eq!(u32::ssz_decode(&bytes, usize::MAX), Err(DecodeError::TooShort));
    assert_eq!(u32::ssz_decode(&bytes, usize::MAX - 2), Err(DecodeError::TooShort));
}

#[test]
fn decode_ssz_is_the_decoder_of_the_type() {
    let bytes = [0x34, 0x12, 0xff];
    assert_eq!(decode_ssz::<u16>(&bytes, 0), Ok((0x1234, 2)));
    assert_eq!(decode_ssz::<u16>(&bytes, 1), Ok((0xff12, 3)));
    assert_eq!(decode_ssz::<u16>(&bytes, 2), Err(DecodeError::TooShort));
    assert_eq!(decode_ssz::<u8>(&bytes, 3), Err(DecodeError::TooShort));
    assert_eq!(decode_ssz::<u8>(&bytes, 4), Err(DecodeError::TooShort));
}

#[test]
fn stream_appends_without_separators() {
    let mut stream = SszStream::new();
    stream.append(&0x0201u16);
    stream.append(&0x03u8);
    stream.append(&0x0706_0504u32);
    assert_eq!(stream.drain(), vec![1, 2, 3, 4, 5, 6, 7]);
}

#[test]
fn empty_stream_drains_to_nothing() {
    assert_eq!(SszStream::new().drain(), Vec::<u8>::new());
}

#[test]
fn stream_appends_raw_and_prefixed_bytes() {
    assert_eq!(LENGTH_BYTES, 4);

    let mut stream = SszStream::new();
    stream.append_encoded_raw(&[9, 8]);
    stream.append_encoded_val(&[7, 6, 5]);
    stream.append_encoded_val(&[]);
    assert_eq!(stream.drain(), vec![9, 8, 3, 0, 0, 0, 7, 6, 5, 0, 0, 0, 0]);
}

#[test]
fn length_prefix_is_little_endian() {
    let mut stream = SszStream::new();
    stream.append_encoded_val(&vec![0xab; 0x0102]);
    let bytes = stream.drain();
    assert_eq!(&bytes[..4], &[0x02, 0x01, 0, 0]);
    assert_eq!(bytes.len(), 4 + 0x0102);
}

#[test]
fn list_is_the_items_behind_their_total_length() {
    let mut stream = SszStream::new();
    stream.append_vec(&[0x0201u16, 0x0403, 0x0605]);
    assert_eq!(stream.drain(), vec![6, 0, 0, 0, 1, 2, 3, 4, 5, 6]);

    let mut stream = SszStream::new();
    stream.append_vec::<u64>(&[]);
    assert_eq!(stream.drain(), vec![0, 0, 0, 0]);
}

#[test]
fn list_round_trips() {
    let items: Vec<u32> = vec![0, 1, 0xdead_beef, u32::MAX];
    let mut stream = SszStream::new();
    stream.append(&0xaau8);
    stream.append_vec(&items);
    stream.append(&0xbbu8);
    let bytes = stream.drain();

    assert_eq!(decode_ssz_list::<u32>(&bytes, 1), Ok((items, 1 + 4 + 16)));
}

#[test]
fn list_of_bytes_is_the_bytes_behind_the_prefix() {
    let bytes = [3, 0, 0, 0, 7, 8, 9, 10];
    assert_eq!(decode_ssz_list::<u8>(&bytes, 0), Ok((vec![7, 8, 9], 7)));

    let none = [0, 0, 0, 0, 7];
    assert_eq!(decode_ssz_list::<u8>(&none, 0), Ok((vec![], 4)));
}

#[test]
fn list_that_the_bytes_end_in_is_too_short() {
    assert_eq!(
        decode_ssz_list::<u8>(&[3, 0, 0], 0),
        Err(DecodeError::TooShort)
    );
    assert_eq!(
        decode_ssz_list::<u8>(&[3, 0, 0, 0, 7, 8], 0),
        Err(DecodeError::TooShort)
    );
    assert_eq!(
        decode_ssz_list::<u8>(&[0, 0, 0, 0], 1),
        Err(DecodeError::TooShort)
    );
    assert_eq!(
        decode_ssz_list::<u8>(&[0xff, 0xff, 0xff, 0xff, 1, 2, 3], 0),
        Err(DecodeError::TooShort)
    );
    assert_eq!(
        decode_ssz_list::<u8>(&[0, 0, 0, 0], usize::MAX),
        Err(DecodeError::TooShort)
    );
}

#[test]
fn list_item_does_not_read_beyond_the_list() {
    // Three bytes are announced: one `u16` and half of another, whatever follows.
    let bytes = [3, 0, 0, 0, 1, 2, 3, 4, 5, 6];
    assert_eq!(
        decode_ssz_list::<u16>(&bytes, 0),
        Err(DecodeError::TooShort)
    );

    let exact = [4, 0, 0, 0, 1, 2, 3, 4, 5, 6];
    assert_eq!(
        decode_ssz_list::<u16>(&exact, 0),
        Ok((vec![0x0201, 0x0403], 8))
    );
}

#[test]
fn integer_digest_is_the_hash_of_its_encoding() {
    assert_eq!(HASH_BYTES, 32);

    assert_eq!(
        0u8.hash_tree_root(),
        from_hex("bc36789e7a1e281436464229828f817d6612f7b477d66591ff96a9e064bcc98a")
    );
    assert_eq!(
        0x0102u16.hash_tree_root(),
        tiny_keccak::keccak256(&[2, 1]).to_vec()
    );
    assert_eq!(
        7u32.hash_tree_root(),
        tiny_keccak::keccak256(&[7, 0, 0, 0]).to_vec()
    );
    assert_eq!(
        7u64.hash_tree_root(),
        tiny_keccak::keccak256(&[7, 0, 0, 0, 0, 0, 0, 0]).to_vec()
    );
}

#[test]
fn digest_has_32_bytes_and_is_the_same_each_time() {
    for value in [0u64, 1, 42, u64::MAX] {
        let digest = value.hash_tree_root();
        assert_eq!(digest.len(), 32);
        assert_eq!(digest, value.hash_tree_root());
    }
    assert_ne!(1u64.hash_tree_root(), 2u64.hash_tree_root());
    assert_ne!(1u64.hash_tree_root(), 1u32.hash_tree_root());
}

#[test]
fn roots_are_joined_in_their_order() {
    assert_eq!(join_roots(&[]), Vec::<u8>::new());
    assert_eq!(join_roots(&[vec![1, 2]]), vec![1, 2]);
    assert_eq!(
        join_roots(&[vec![1, 2], vec![], vec![3], vec![4, 5, 6]]),
        vec![1, 2, 3, 4, 5, 6]
    );
    assert_ne!(
        join_roots(&[vec![1], vec![2]]),
        join_roots(&[vec![2], vec![1]])
    );
}

#[test]
fn what_decodes_is_the_encoding_of_what_it_decodes_to() {
    let bytes = [0x10, 0x20, 0x30, 0x40, 0x50, 0x60, 0x70, 0x80, 0x90];
    let (value, next) = u64::ssz_decode(&bytes, 1).unwrap();
    assert_eq!(ssz_encode(&value), bytes[1..next].to_vec());
    let (value, next) = u16::ssz_decode(&bytes, 3).unwrap();
    assert_eq!(ssz_encode(&value), bytes[3..next].to_vec());
}
