pub mod alignment;
pub mod data;
pub mod encode;
pub mod fasta;
pub mod flags;
pub mod laws;
pub mod reference;
pub mod variants;
