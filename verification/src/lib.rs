//! Go under superko, verified.
pub mod config;
pub mod reference;
pub mod code;
pub mod text;
pub mod archive;
pub mod table;
pub mod divergence;
pub mod census;
pub mod enumerate;
pub mod walk;
pub mod scc;

pub mod symmetry;
pub mod naive;
pub mod search;
pub mod separate;
pub mod bench;
pub mod cli;
pub mod sweep_laws;

pub use code::PosCode;
