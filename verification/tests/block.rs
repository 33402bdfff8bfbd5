use generic_block::block::Block;
use generic_block::codec::{decode_all_with_mem_limit, decode_with_mem_limit, encode, DecodeError};
use generic_block::hash::H256;
use generic_block::header::BareHeader;
use generic_block::traits::Block as BlockT;

type TestHeader = BareHeader<u64, H256>;
type TestBlock = Block<TestHeader, Vec<u8>>;

fn header(number: u64) -> TestHeader {
    BareHeader { parent_hash: H256([0xab; 32]), number }
}

fn header_bytes(number: u64) -> Vec<u8> {
    let mut bytes = vec![0xab; 32];
    bytes.extend_from_slice(&number.to_le_bytes());
    bytes
}

#[test]
fn new_keeps_the_parts() {
    let block = TestBlock::new(header(3), vec![vec![1], vec![2, 3]]);
    assert_eq!(block.header(), &header(3));
    assert_eq!(block.extrinsics(), &[vec![1u8], vec![2, 3]][..]);
    assert_eq!(block.header, header(3));
    assert_eq!(block.extrinsics, vec![vec![1u8], vec![2, 3]]);
}

#[test]
fn deconstruct_gives_the_parts_back() {
    let extrinsics = vec![vec![9u8, 8], vec![], vec![7]];
    let (h, e) = TestBlock::new(header(11), extrinsics.clone()).deconstruct();
    assert_eq!((h, e), (header(11), extrinsics));
}

#[test]
fn order_of_extrinsics_matters() {
    let a = vec![1u8];
    let b = vec![2u8];
    let one = TestBlock::new(header(1), vec![a.clone(), b.clone()]);
    let other = TestBlock::new(header(1), vec![b, a]);
    assert_ne!(one, other);
    assert_ne!(encode(&one), encode(&other));
}

#[test]
fn equal_parts_make_equal_blocks() {
    let one = TestBlock::new(header(1), vec![vec![1], vec![2]]);
    let same = TestBlock::new(header(1), vec![vec![1], vec![2]]);
    assert_eq!(one, same);
    assert_ne!(one, TestBlock::new(header(2), vec![vec![1], vec![2]]));
    assert_ne!(one, TestBlock::new(header(1), vec![vec![1]]));
}

#[test]
fn encoding_is_header_then_counted_extrinsics() {
    let block = TestBlock::new(header(0x0102), vec![vec![1, 2, 3], vec![]]);
    let mut expected = header_bytes(0x0102);
    expected.extend_from_slice(&[2 << 2, 3 << 2, 1, 2, 3, 0]);
    assert_eq!(encode(&block), expected);
    assert_eq!(&expected[32..40], &[2, 1, 0, 0, 0, 0, 0, 0]);
}

#[test]
fn empty_block_is_header_and_zero_count() {
    let block = TestBlock::new(header(0), vec![]);
    let mut expected = header_bytes(0);
    expected.push(0);
    assert_eq!(encode(&block), expected);
}

#[test]
fn encode_from_is_the_encoding_of_the_block() {
    let cases: Vec<(u64, Vec<Vec<u8>>)> = vec![
        (0, vec![]),
        (1, vec![vec![]]),
        (2, vec![vec![1, 2, 3]]),
        (u64::MAX, vec![vec![0; 70], vec![1; 3], vec![]]),
        (77, (0..100u8).map(|i| vec![i; i as usize]).collect()),
    ];
    for (number, extrinsics) in cases {
        let from_parts = TestBlock::encode_from(&header(number), &extrinsics);
        let whole = encode(&TestBlock::new(header(number), extrinsics));
        assert_eq!(from_parts, whole);
    }
}

#[test]
fn block_round_trip() {
    let cases: Vec<(u64, Vec<Vec<u8>>)> = vec![
        (0, vec![]),
        (1, vec![vec![]]),
        (2, vec![vec![1, 2, 3]]),
        (u64::MAX, vec![vec![0; 70], vec![1; 3], vec![]]),
        (77, (0..100u8).map(|i| vec![i; i as usize]).collect()),
    ];
    for (number, extrinsics) in cases {
        let block = TestBlock::new(header(number), extrinsics);
        let bytes = encode(&block);
        assert_eq!(decode_all_with_mem_limit::<TestBlock>(&bytes, 1 << 20), Ok(block.clone()));
        assert_eq!(
            decode_with_mem_limit::<TestBlock>(&bytes, 1 << 20),
            Ok((block, bytes.len()))
        );
    }
}

#[test]
fn decode_leaves_what_follows_the_block() {
    let block = TestBlock::new(header(5), vec![vec![1]]);
    let mut bytes = encode(&block);
    let len = bytes.len();
    bytes.extend_from_slice(&[0xff, 0xff]);
    assert_eq!(decode_with_mem_limit::<TestBlock>(&bytes, 1 << 20), Ok((block, len)));
    assert_eq!(
        decode_all_with_mem_limit::<TestBlock>(&bytes, 1 << 20),
        Err(DecodeError::Malformed)
    );
}

#[test]
fn truncated_block_is_malformed() {
    let block = TestBlock::new(header(5), vec![vec![1, 2, 3], vec![4]]);
    let bytes = encode(&block);
    for cut in 0..bytes.len() {
        assert_eq!(
            decode_with_mem_limit::<TestBlock>(&bytes[..cut], 1 << 20),
            Err(DecodeError::Malformed),
            "cut at {}",
            cut
        );
    }
}
