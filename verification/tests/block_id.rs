use generic_block::block::Block;
use generic_block::block_id::BlockId;
use generic_block::codec::{decode_all_with_mem_limit, decode_with_mem_limit, encode, DecodeError};
use generic_block::hash::H256;
use generic_block::header::BareHeader;

type TestBlock = Block<BareHeader<u64, H256>, Vec<u8>>;

fn hash_of(byte: u8) -> H256 {
    H256([byte; 32])
}

#[test]
fn pre_genesis_is_pre_genesis() {
    assert!(BlockId::<TestBlock>::pre_genesis().is_pre_genesis());
}

#[test]
fn pre_genesis_holds_the_default_hash() {
    assert_eq!(BlockId::<TestBlock>::pre_genesis(), BlockId::Hash(H256::default()));
    assert_eq!(H256::default(), H256([0u8; 32]));
}

#[test]
fn no_number_is_pre_genesis() {
    for n in [0u64, 1, 2, 1_000, u64::MAX] {
        assert!(!BlockId::<TestBlock>::number(n).is_pre_genesis());
    }
}

#[test]
fn hash_is_pre_genesis_only_when_default() {
    assert!(BlockId::<TestBlock>::hash(H256::default()).is_pre_genesis());
    assert!(BlockId::<TestBlock>::hash(hash_of(0)).is_pre_genesis());
    assert!(!BlockId::<TestBlock>::hash(hash_of(1)).is_pre_genesis());
    let mut last = [0u8; 32];
    last[31] = 1;
    assert!(!BlockId::<TestBlock>::hash(H256(last)).is_pre_genesis());
}

#[test]
fn hash_and_number_build_the_variants() {
    assert_eq!(BlockId::<TestBlock>::hash(hash_of(7)), BlockId::Hash(hash_of(7)));
    assert_eq!(BlockId::<TestBlock>::number(7), BlockId::Number(7));
    assert_ne!(BlockId::<TestBlock>::number(0), BlockId::pre_genesis());
}

#[test]
fn block_id_is_copied_by_value() {
    let id = BlockId::<TestBlock>::number(5);
    let copy = id;
    assert_eq!(id, copy);
}

#[test]
fn block_id_serves_as_a_map_key() {
    let mut map = std::collections::HashMap::new();
    map.insert(BlockId::<TestBlock>::number(1), "one");
    map.insert(BlockId::<TestBlock>::hash(hash_of(2)), "two");
    assert_eq!(map.get(&BlockId::number(1)), Some(&"one"));
    assert_eq!(map.get(&BlockId::hash(hash_of(2))), Some(&"two"));
    assert_eq!(map.get(&BlockId::number(2)), None);
}

#[test]
fn to_string_is_the_debug_text() {
    let by_number = BlockId::<TestBlock>::number(42);
    assert_eq!(by_number.to_string(), "Number(42)");
    assert_eq!(by_number.to_string(), format!("{:?}", by_number));
    let by_hash = BlockId::<TestBlock>::hash(hash_of(1));
    assert_eq!(by_hash.to_string(), format!("{:?}", by_hash));
    assert_eq!(by_hash.to_string(), format!("Hash({:?})", hash_of(1)));
    assert!(by_hash.to_string().starts_with("Hash(H256(["));
    assert!(by_hash.to_string().ends_with("]))"));
    let pre_genesis = BlockId::<TestBlock>::pre_genesis();
    assert_eq!(pre_genesis.to_string(), format!("{:?}", pre_genesis));
}

#[test]
fn block_id_is_a_tag_and_a_value() {
    assert_eq!(encode(&BlockId::<TestBlock>::number(0x0102)), vec![1, 2, 1, 0, 0, 0, 0, 0, 0]);
    let mut expected = vec![0u8];
    expected.extend_from_slice(&[5; 32]);
    assert_eq!(encode(&BlockId::<TestBlock>::hash(hash_of(5))), expected);
}

#[test]
fn block_id_round_trip() {
    let ids = [
        BlockId::<TestBlock>::pre_genesis(),
        BlockId::hash(hash_of(0xfe)),
        BlockId::number(0),
        BlockId::number(u64::MAX),
    ];
    for id in ids {
        let bytes = encode(&id);
        assert_eq!(decode_all_with_mem_limit::<BlockId<TestBlock>>(&bytes, 0), Ok(id));
    }
}

#[test]
fn block_id_refuses_other_tags_and_cut_input() {
    assert_eq!(decode_with_mem_limit::<BlockId<TestBlock>>(&[], 0), Err(DecodeError::Malformed));
    assert_eq!(
        decode_with_mem_limit::<BlockId<TestBlock>>(&[2, 0, 0, 0, 0, 0, 0, 0, 0], 0),
        Err(DecodeError::Malformed)
    );
    assert_eq!(
        decode_with_mem_limit::<BlockId<TestBlock>>(&[1, 0, 0, 0, 0, 0, 0, 0], 0),
        Err(DecodeError::Malformed)
    );
    assert_eq!(decode_with_mem_limit::<BlockId<TestBlock>>(&[0; 32], 0), Err(DecodeError::Malformed));
    assert_eq!(
        decode_with_mem_limit::<BlockId<TestBlock>>(&[0; 33], 0),
        Ok((BlockId::pre_genesis(), 33))
    );
}

#[test]
fn hash_and_number_ids_are_never_equal() {
    assert_ne!(BlockId::<TestBlock>::hash(hash_of(0)), BlockId::number(0));
    assert_ne!(BlockId::<TestBlock>::number(1), BlockId::number(2));
    assert_ne!(BlockId::<TestBlock>::hash(hash_of(1)), BlockId::hash(hash_of(2)));
    assert_eq!(BlockId::<TestBlock>::hash(hash_of(1)), BlockId::hash(hash_of(1)));
}
