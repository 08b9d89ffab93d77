pub mod codec;
pub mod error;
pub mod hashing;
pub mod instruction;
pub mod merkle;
pub mod state;
pub mod processor;

pub use error::MTreeError;
pub use instruction::MTreeInstruction;
pub use state::MTree;
pub use processor::depth;
pub use processor::insert_leaf;
pub use processor::Processor;
