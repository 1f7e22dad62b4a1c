use miner::block::{Block, BlockHasher, DanceMove, DIFFICULTY};
use rand::rngs::StdRng;
use rand::Rng;
use rand::SeedableRng;

fn hex(bytes: &[u8]) -> String {
    bytes.iter().map(|b| format!("{:02x}", b)).collect()
}

#[test]
fn test_pow_check() {
    let block = Block {
        parent_hash: vec![],
        miner: "test".to_string(),
        nonce: 0,
        dancemove: DanceMove::C,
    };

    let hash_with_zeros = vec![0x00, 0x00, 0x00, 0xFF];
    assert!(block.pow_check(&hash_with_zeros, 24));

    let hash_without_zeros = vec![0xFF, 0xFF, 0xFF, 0xFF];
    assert!(!block.pow_check(&hash_without_zeros, 1));

    assert!(block.pow_check(&hash_without_zeros, 0));
}

#[test]
fn test_solve_block() {
    let mut block = Block {
        parent_hash: vec![],
        miner: "test".to_string(),
        nonce: 0,
        dancemove: DanceMove::Y,
    };

    let mut rng = StdRng::seed_from_u64(42);
    block.nonce = rng.random();

    for difficulty in 5..10 {
        if difficulty % 2 == 0 {
            block.dancemove = DanceMove::A;
        } else {
            block.dancemove = DanceMove::M;
        }

        let hash = block.solve_block(&mut rng, difficulty, None).unwrap();

        assert!(block.pow_check(&hash, difficulty));

        assert_ne!(block.nonce, 0);
    }
}

#[test]
fn test_new_genesis() {
    let mut genesis = Block::new(Vec::new(), "Genesis".to_string(), 42, DanceMove::C);
    let mut rng = StdRng::seed_from_u64(42);
    genesis.nonce = rng.random();
    genesis.solve_block(&mut rng, 10, None).unwrap();
    assert!(genesis.is_genesis(10));
}

#[test]
fn pow_check_counts_bits_of_first_nonzero_byte() {
    let block = Block::new(vec![], "x".to_string(), 0, DanceMove::Y);
    // 0x00 0x1F: 8 + 3 leading zero bits
    assert!(block.pow_check(&[0x00, 0x1F, 0xFF], 11));
    assert!(!block.pow_check(&[0x00, 0x1F, 0xFF], 12));
    assert!(block.pow_check(&[0x80], 0));
    assert!(!block.pow_check(&[0x80], 1));
    // all-zero hashes hold as many zero bits as they have
    assert!(block.pow_check(&[0, 0], 16));
    assert!(!block.pow_check(&[0, 0], 17));
    // an empty hash meets only difficulty zero
    assert!(block.pow_check(&[], 0));
    assert!(!block.pow_check(&[], 1));
}

#[test]
fn hash_block_is_sha256_of_fields() {
    let genesis = Block::new(vec![], "Genesis".to_string(), 0, DanceMove::Y);
    assert_eq!(
        hex(&genesis.hash_block()),
        "f3cf093363992ae1d7336796009a9ee852764cc1a3c91b28a3eec7a8a5d60adc"
    );
    let other = Block::new(vec![1, 2], "ab".to_string(), 0x0102030405060708, DanceMove::C);
    assert_eq!(
        hex(&other.hash_block()),
        "dbaf4daca93e571257e5fcefb065aab4a67bcbc799275399328ddb5932bb0b93"
    );
}

#[test]
fn hash_block_is_stable_and_field_sensitive() {
    let a = Block::new(vec![7], "m".to_string(), 5, DanceMove::M);
    assert_eq!(a.hash_block(), a.hash_block());
    let mut b = a.clone();
    b.nonce = 6;
    assert_ne!(a.hash_block(), b.hash_block());
    let mut c = a.clone();
    c.dancemove = DanceMove::A;
    assert_ne!(a.hash_block(), c.hash_block());
    let mut d = a.clone();
    d.miner = "n".to_string();
    assert_ne!(a.hash_block(), d.hash_block());
    let mut e = a.clone();
    e.parent_hash = vec![8];
    assert_ne!(a.hash_block(), e.hash_block());
}

#[test]
fn try_nonce_installs_nonce_and_reports_hash() {
    let mut block = Block::new(vec![], "m".to_string(), 0, DanceMove::Y);
    let found = block.try_nonce(99, 0).unwrap();
    assert_eq!(block.nonce, 99);
    assert_eq!(found, block.hash_block().to_vec());
    // no hash shows more than 256 leading zero bits
    assert!(block.try_nonce(7, 257).is_none());
    assert_eq!(block.nonce, 7);
}

#[test]
fn solve_block_with_zero_attempts_leaves_block_alone() {
    let mut block = Block::new(vec![], "m".to_string(), 3, DanceMove::Y);
    let mut rng = StdRng::seed_from_u64(1);
    assert!(block.solve_block(&mut rng, 1, Some(0)).is_none());
    assert_eq!(block.nonce, 3);
}

#[test]
fn solve_block_gives_up_after_budget() {
    let mut block = Block::new(vec![], "m".to_string(), 0, DanceMove::Y);
    let mut rng = StdRng::seed_from_u64(1);
    assert!(block.solve_block(&mut rng, 257, Some(3)).is_none());
    let h = block.hash_block();
    assert!(!block.pow_check(&h, 257));
}

#[test]
fn solve_block_result_meets_difficulty() {
    let mut block = Block::new(vec![1, 2, 3], "m".to_string(), 0, DanceMove::C);
    let mut rng = StdRng::seed_from_u64(9);
    let h = block.solve_block(&mut rng, 8, Some(1_000_000)).unwrap();
    assert_eq!(h, block.hash_block().to_vec());
    assert_eq!(h[0], 0);
}

#[test]
fn is_genesis_needs_empty_parent_and_reserved_name() {
    assert!(Block::new(vec![], "Genesis".to_string(), 1, DanceMove::Y).is_genesis(DIFFICULTY));
    assert!(!Block::new(vec![0], "Genesis".to_string(), 1, DanceMove::Y).is_genesis(DIFFICULTY));
    assert!(!Block::new(vec![], "genesis".to_string(), 1, DanceMove::Y).is_genesis(DIFFICULTY));
    assert!(!Block::new(vec![], "Genesis ".to_string(), 1, DanceMove::Y).is_genesis(0));
}

#[test]
fn dancemove_bytes() {
    assert_eq!(DanceMove::Y.as_byte(), 1);
    assert_eq!(DanceMove::M.as_byte(), 2);
    assert_eq!(DanceMove::C.as_byte(), 3);
    assert_eq!(DanceMove::A.as_byte(), 4);
}

#[test]
fn block_hasher_keeps_last_id() {
    let mut h = BlockHasher::default();
    assert_eq!(h.finish(), 0);
    h.write_u64(17);
    assert_eq!(h.finish(), 17);
}

#[test]
fn dancemove_default_is_y() {
    assert_eq!(DanceMove::default(), DanceMove::Y);
}
