//! Lore: the latent repository. A version control system that tracks intent,
//! not code.

pub mod text;
pub mod strmap;
pub mod object;
pub mod config;
pub mod graph;
pub mod error;
pub mod repo;
pub mod order;
pub mod time;
pub mod brief;
pub mod sync;
pub mod transport;
pub mod cli;
pub mod argscan;
pub mod preimage;
