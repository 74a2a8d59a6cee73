pub mod api;
pub mod balance;
pub mod block;
pub mod codec;
pub mod hash;
pub mod laws;
pub mod states;
pub mod tx;
