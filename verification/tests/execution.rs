use rust_data_server::data_format::descriptors::{example_file_descriptor, DataFileDescriptor};
use rust_data_server::data_format::{Axis, DataType};
use rust_data_server::hamming::encode;
use rust_data_server::ingestion::execution::{get_output_info, unpack, UnpackError};

const SWITCH_BYTE: u8 = 0b1001_0000;

fn value(frame: usize, pass: usize) -> f32 {
    (frame as f32) + 0.25 * (pass as f32)
}

fn packed_passes(passes: usize) -> Vec<u8> {
    let mut data = Vec::new();
    for pass in 0..passes {
        for frame in 0..7 {
            let v = value(frame, pass).to_le_bytes();
            data.extend(vec![SWITCH_BYTE, frame as u8, v[0], v[1], v[2], v[3], 0, 0]);
        }
    }
    encode(&mut data);
    data
}

fn expected_writes(passes: usize) -> Vec<(usize, u32)> {
    let one = 1.0f32.to_bits();
    let zero = 0.0f32.to_bits();
    let mut writes = Vec::new();
    for pass in 0..passes {
        for frame in 0..7 {
            writes.extend(vec![(0, one), (1, zero), (2, one), (3 + frame, value(frame, pass).to_bits())]);
        }
    }
    writes
}

fn example_outputs() -> Vec<DataType> {
    vec![
        DataType::LoneSwitch(0),
        DataType::LoneSwitch(1),
        DataType::LoneSwitch(2),
        DataType::StrainGauge(0),
        DataType::StrainGauge(1),
        DataType::StrainGauge(2),
        DataType::StrainGauge(3),
        DataType::Accelerometer(Axis::X),
        DataType::Accelerometer(Axis::Y),
        DataType::Accelerometer(Axis::Z),
    ]
}

#[test]
fn outputs_in_order_of_first_appearance() {
    let (outputs, multipliers) = get_output_info(&example_file_descriptor()).unwrap();
    assert_eq!(outputs, example_outputs());
    assert_eq!(multipliers, vec![7, 7, 7, 1, 1, 1, 1, 1, 1, 1]);
}

#[test]
fn unpack_writes_every_value_to_its_output() {
    let data = packed_passes(3);
    let (outputs, multipliers, writes, reports) =
        unpack(&example_file_descriptor(), &data).unwrap();
    assert_eq!(outputs, example_outputs());
    assert_eq!(multipliers, vec![7, 7, 7, 1, 1, 1, 1, 1, 1, 1]);
    assert_eq!(writes, expected_writes(3));
    assert!(reports.is_empty());
}

#[test]
fn unpack_ignores_a_trailing_partial_pass() {
    let mut data = packed_passes(2);
    data.extend(vec![1u8; 40]);
    let (_, _, writes, _) = unpack(&example_file_descriptor(), &data).unwrap();
    assert_eq!(writes, expected_writes(2));
}

#[test]
fn unpack_corrects_single_bit_errors() {
    let mut data = packed_passes(2);
    for block in 0..14 {
        data[8 * block + block % 8] ^= 1 << (block % 8);
    }
    let (_, _, writes, _) = unpack(&example_file_descriptor(), &data).unwrap();
    assert_eq!(writes, expected_writes(2));
}

#[test]
fn unpack_refuses_corrupt_data() {
    let mut raw = Vec::new();
    for frame in 0..7u8 {
        raw.extend(vec![SWITCH_BYTE, if frame == 3 { 9 } else { frame }, 0, 0, 0, 0, 0, 0]);
    }
    encode(&mut raw);
    assert_eq!(
        unpack(&example_file_descriptor(), &raw).err(),
        Some(UnpackError::CorruptData)
    );
}

fn gauge_frames(n: usize) -> DataFileDescriptor {
    let mut frames = Vec::new();
    for _ in 0..n {
        frames.push(vec![
            DataType::StrainGauge(0),
            DataType::Padding,
            DataType::Padding,
            DataType::Padding,
            DataType::Padding,
        ]);
    }
    DataFileDescriptor::new(100, frames)
}

#[test]
fn rate_multiplier_must_fit_in_a_byte() {
    let (outputs, multipliers) = get_output_info(&gauge_frames(255)).unwrap();
    assert_eq!(outputs, vec![DataType::StrainGauge(0)]);
    assert_eq!(multipliers, vec![255]);
    assert!(get_output_info(&gauge_frames(256)).is_none());
    assert_eq!(
        unpack(&gauge_frames(256), &[]).err(),
        Some(UnpackError::RateOverflow)
    );
}
