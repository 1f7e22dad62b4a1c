//! A small proof-of-work blockchain: blocks with a SHA-256 proof of work, a
//! fork tree that links blocks by their parent hash, and the chain builder
//! that reconciles an unordered batch of blocks into such a tree.
pub mod block;
pub mod miner;
pub mod simpletree;
