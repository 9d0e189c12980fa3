//! The description of packed data files: what each byte of a data frame
//! holds and how frames are laid out.
pub mod data_type;
pub mod descriptors;
pub mod file_descriptor;

pub use data_type::{Axis, DataType};
pub use data_type::Axis::{X as Longitude, Y as Latitude, Z as Elevation};

