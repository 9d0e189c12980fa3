//! Packing, error correction and unpacking of sensor data streams.
pub mod data_format;
pub mod generate_data;
pub mod hamming;
pub mod interface;
pub mod ingestion;
pub mod read;
pub mod text;
pub mod util;

use vstd::prelude::*;

verus! {

/// The descriptor text of the example data files: two frames, the first
/// sampled 10 000 times a second with a switch byte and three accelerometer
/// axes, the second 2 000 times a second with a mux check and a strain gauge.
pub open spec fn spec_example_file_descriptor() -> Seq<char> {
    "0,10000:PackedSwitch,Switches;AccelerometerX,Accelerometer X;AccelerometerY,Accelerometer Y;AccelerometerZ,AccelerometerZ;1,2000:MuxCheck0,Check;StrainGauge0,Strain Gauge 0;"@
}

/// Returns the descriptor text of the example data files.
pub fn example_file_descriptor() -> (r: &'static str)
    ensures
        r@ == spec_example_file_descriptor(),
{
    "0,10000:PackedSwitch,Switches;AccelerometerX,Accelerometer X;AccelerometerY,Accelerometer Y;AccelerometerZ,AccelerometerZ;1,2000:MuxCheck0,Check;StrainGauge0,Strain Gauge 0;"
}

} // verus!
