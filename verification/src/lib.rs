use vstd::prelude::*;

pub mod block;
pub mod consensus;
pub mod ext;
pub mod messaging;
pub mod finalization;
pub mod tree;
pub mod wire;
