pub mod block_files;
pub mod codec;
pub mod crypto;
pub mod difficulty;
pub mod mempool;
pub mod merkle;
pub mod storage;
pub mod types;
