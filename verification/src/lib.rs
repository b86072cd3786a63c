//! A network-attached HackRF: the signal work and the decisions behind it.

pub mod bench;
pub mod engine;
pub mod float;
pub mod ook;
pub mod proflame;
pub mod radio;
pub mod server;
pub mod text;
pub mod wire;
