use generic_block::codec::{
    decode_all_with_mem_limit, decode_with_mem_limit, encode, try_encode, DecodeError, Encode,
    MemBudget,
};
use generic_block::pair::decode_pair;
use generic_block::hash::H256;
use generic_block::header::BareHeader;
use parity_scale_codec::Encode as ScaleEncode;

#[test]
fn byte_is_itself() {
    assert_eq!(encode(&0u8), vec![0]);
    assert_eq!(encode(&0xffu8), vec![0xff]);
    assert_eq!(decode_with_mem_limit::<u8>(&[7, 8], 0), Ok((7, 1)));
    assert_eq!(decode_with_mem_limit::<u8>(&[], 0), Err(DecodeError::Malformed));
}

#[test]
fn u32_is_four_bytes_low_first() {
    assert_eq!(encode(&0x0102_0304u32), vec![4, 3, 2, 1]);
    assert_eq!(encode(&u32::MAX), vec![0xff; 4]);
    assert_eq!(decode_with_mem_limit::<u32>(&[4, 3, 2, 1, 9], 0), Ok((0x0102_0304, 4)));
    assert_eq!(decode_with_mem_limit::<u32>(&[4, 3, 2], 0), Err(DecodeError::Malformed));
}

#[test]
fn u64_is_eight_bytes_low_first() {
    assert_eq!(encode(&0x0102_0304_0506_0708u64), vec![8, 7, 6, 5, 4, 3, 2, 1]);
    assert_eq!(encode(&u64::MAX), vec![0xff; 8]);
    assert_eq!(
        decode_with_mem_limit::<u64>(&[8, 7, 6, 5, 4, 3, 2, 1], 0),
        Ok((0x0102_0304_0506_0708, 8))
    );
    assert_eq!(decode_with_mem_limit::<u64>(&[0; 7], 0), Err(DecodeError::Malformed));
    for n in [0u64, 1, 255, 256, u32::MAX as u64, u32::MAX as u64 + 1, u64::MAX - 1, u64::MAX] {
        assert_eq!(encode(&n), n.to_le_bytes().to_vec());
        assert_eq!(decode_all_with_mem_limit::<u64>(&n.to_le_bytes(), 0), Ok(n));
    }
}

#[test]
fn absent_is_zero_and_present_is_one() {
    assert_eq!(encode(&None::<u32>), vec![0]);
    assert_eq!(encode(&Some(5u32)), vec![1, 5, 0, 0, 0]);
    assert_eq!(decode_with_mem_limit::<Option<u32>>(&[0, 9], 0), Ok((None, 1)));
    assert_eq!(decode_with_mem_limit::<Option<u32>>(&[1, 5, 0, 0, 0], 0), Ok((Some(5), 5)));
}

#[test]
fn option_refuses_other_tags_and_cut_input() {
    assert_eq!(decode_with_mem_limit::<Option<u32>>(&[], 0), Err(DecodeError::Malformed));
    assert_eq!(decode_with_mem_limit::<Option<u32>>(&[2, 0, 0, 0, 0], 0), Err(DecodeError::Malformed));
    assert_eq!(decode_with_mem_limit::<Option<u32>>(&[1, 5, 0, 0], 0), Err(DecodeError::Malformed));
}

#[test]
fn pair_is_first_then_second() {
    let mut budget = MemBudget::new(0);
    assert_eq!(decode_pair::<u8, u32>(&[1, 2, 0, 0, 0, 7], &mut budget), Ok(((1, 2), 5)));
    assert_eq!(decode_pair::<u8, u32>(&[1, 2, 0, 0], &mut budget), Err(DecodeError::Malformed));
    assert_eq!(decode_pair::<u32, u8>(&[1, 2, 0], &mut budget), Err(DecodeError::Malformed));
    assert_eq!(decode_pair::<u32, u8>(&[], &mut budget), Err(DecodeError::Malformed));
}

#[test]
fn hash_is_its_thirty_two_bytes() {
    let mut bytes = [0u8; 32];
    for (i, b) in bytes.iter_mut().enumerate() {
        *b = i as u8;
    }
    let hash = H256(bytes);
    assert_eq!(encode(&hash), bytes.to_vec());
    assert_eq!(decode_all_with_mem_limit::<H256>(&bytes, 0), Ok(hash));
    assert_eq!(decode_with_mem_limit::<H256>(&bytes[..31], 0), Err(DecodeError::Malformed));
    let mut longer = bytes.to_vec();
    longer.push(1);
    assert_eq!(decode_with_mem_limit::<H256>(&longer, 0), Ok((hash, 32)));
}

#[test]
fn hash_equality_is_byte_by_byte() {
    let mut bytes = [7u8; 32];
    let a = H256(bytes);
    assert_eq!(a, H256([7u8; 32]));
    for i in 0..32 {
        bytes[i] = 8;
        assert_ne!(a, H256(bytes));
        bytes[i] = 7;
    }
    assert_eq!(H256::default(), H256([0; 32]));
}

#[test]
fn bare_header_is_parent_then_number() {
    let header = BareHeader { parent_hash: H256([3; 32]), number: 0x0a0bu32 };
    let mut expected = vec![3u8; 32];
    expected.extend_from_slice(&[0x0b, 0x0a, 0, 0]);
    assert_eq!(encode(&header), expected);
    assert_eq!(decode_all_with_mem_limit::<BareHeader<u32, H256>>(&expected, 0), Ok(header.clone()));
    assert_ne!(header, BareHeader { parent_hash: H256([3; 32]), number: 0x0a0cu32 });
    assert_ne!(header, BareHeader { parent_hash: H256([4; 32]), number: 0x0a0bu32 });
}

#[test]
fn primitives_agree_with_scale_codec() {
    assert_eq!(encode(&0xabu8), 0xabu8.encode());
    assert_eq!(encode(&0xdead_beefu32), 0xdead_beefu32.encode());
    assert_eq!(encode(&0x0123_4567_89ab_cdefu64), 0x0123_4567_89ab_cdefu64.encode());
    assert_eq!(encode(&None::<u64>), None::<u64>.encode());
    assert_eq!(encode(&Some(9u64)), Some(9u64).encode());
    assert_eq!(encode(&H256([0x5a; 32])), [0x5au8; 32].encode());
    assert_eq!(encode(&vec![1u8, 2, 3]), vec![1u8, 2, 3].encode());
    assert_eq!(encode(&vec![1u32, 2, 3]), vec![1u32, 2, 3].encode());
    assert_eq!(encode(&vec![vec![1u8], vec![], vec![2, 3]]), vec![vec![1u8], vec![], vec![2, 3]].encode());
    assert_eq!(encode(&vec![0u8; 70]), vec![0u8; 70].encode());
    assert_eq!(encode(&vec![7u8; 20000]), vec![7u8; 20000].encode());
}

#[test]
fn values_of_these_types_can_be_written() {
    assert!(5u8.is_encodable());
    assert!(5u32.is_encodable());
    assert!(5u64.is_encodable());
    assert!(H256([1; 32]).is_encodable());
    assert!(Some(5u64).is_encodable());
    assert!(None::<u64>.is_encodable());
    assert!(vec![vec![1u8, 2], vec![]].is_encodable());
    assert!(Vec::<u32>::new().is_encodable());
    assert!(BareHeader { parent_hash: H256([3; 32]), number: 1u32 }.is_encodable());
}

#[test]
fn try_encode_gives_the_same_bytes() {
    assert_eq!(try_encode(&0x0102u32), Some(vec![2, 1, 0, 0]));
    assert_eq!(try_encode(&vec![vec![1u8], vec![]]), Some(encode(&vec![vec![1u8], vec![]])));
    assert_eq!(try_encode(&Some(H256([2; 32]))).map(|b| b.len()), Some(33));
}
