//! Reading packed data files: parsing their header and unpacking their frames.
pub mod execution;
pub mod generate_mips;
pub mod read_descriptor;
pub mod support_types;
pub mod unpack;
