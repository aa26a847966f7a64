pub mod codec;
pub mod probability;
