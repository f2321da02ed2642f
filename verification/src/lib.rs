pub mod cli;
pub mod error;
pub mod network;
pub mod sha256;
pub mod types;
pub mod u256;
pub mod wallet;

pub use u256::U256;
