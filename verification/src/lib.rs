pub mod miner;
pub mod network;
pub mod text;
pub mod wallet;
