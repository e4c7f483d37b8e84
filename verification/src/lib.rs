//! The core of a one-way file synchroniser: what a client sends so that a
//! server has the same tree, and what the server makes of it.

pub mod client;
pub mod convergence;
pub mod digest;
pub mod file_scanner;
pub mod listing;
pub mod manifest;
pub mod network;
pub mod path_laws;
pub mod path_text;
pub mod paths;
pub mod protocol;
pub mod receiver;
pub mod scan_laws;
pub mod session_laws;
pub mod text;
pub mod wire;
