pub mod word;
pub mod storage;
pub mod keccak;
pub mod machine;
pub mod evm;
pub mod laws;
pub mod abi;

pub use evm::{ContractAccount, Evm, EvmError, ExitReason};
pub use storage::Storage;
pub use word::Word;
