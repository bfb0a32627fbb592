pub mod block;
pub mod buffer;
pub mod chain;
pub mod policy;
pub mod queue;
pub mod tendermint;
