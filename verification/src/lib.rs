pub mod task;
pub mod text;
pub mod filter;
pub mod state;
pub mod codec;
