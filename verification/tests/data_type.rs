use rust_data_server::data_format::{Axis, DataType};
use rust_data_server::text::debug_text;

fn example_switch() -> DataType {
    DataType::PackedSwitch([None, None, None, None, Some(0), None, Some(1), Some(2)])
}

#[test]
fn unpacked_types_of_each_kind() {
    assert_eq!(DataType::MuxCheck(3).unpacked_types(), vec![]);
    assert_eq!(DataType::Padding.unpacked_types(), vec![]);
    assert_eq!(DataType::Gps.unpacked_types(), vec![DataType::Gps]);
    assert_eq!(DataType::StrainGauge(4).unpacked_types(), vec![DataType::StrainGauge(4)]);
    assert_eq!(
        example_switch().unpacked_types(),
        vec![DataType::LoneSwitch(0), DataType::LoneSwitch(1), DataType::LoneSwitch(2)]
    );
}

#[test]
fn num_packed_bytes_of_each_kind() {
    assert_eq!(DataType::MuxCheck(0).num_packed_bytes(), 1);
    assert_eq!(DataType::Padding.num_packed_bytes(), 1);
    assert_eq!(example_switch().num_packed_bytes(), 1);
    assert_eq!(DataType::Gps.num_packed_bytes(), 4);
    assert_eq!(DataType::Accelerometer(Axis::Z).num_packed_bytes(), 4);
    assert_eq!(DataType::StrainGauge(9).num_packed_bytes(), 4);
}

#[test]
fn unpack_reads_little_endian_floats() {
    let one = 1.0f32.to_bits();
    assert_eq!(DataType::Accelerometer(Axis::X).unpack_bits(&[0, 0, 0x80, 0x3f]), Ok(vec![one]));
    let bits = (-2.5f32).to_bits();
    assert_eq!(DataType::Gps.unpack_bits(&bits.to_le_bytes()), Ok(vec![bits]));
}

#[test]
fn unpack_switches_in_bit_order() {
    let one = 1.0f32.to_bits();
    let zero = 0.0f32.to_bits();
    assert_eq!(example_switch().unpack_bits(&[0b1001_0000]), Ok(vec![one, zero, one]));
    assert_eq!(example_switch().unpack_bits(&[0b0100_1111]), Ok(vec![zero, one, zero]));
}

#[test]
fn unpack_checks_the_mux() {
    assert_eq!(DataType::MuxCheck(3).unpack_bits(&[3]), Ok(vec![]));
    assert_eq!(DataType::MuxCheck(3).unpack_bits(&[4]), Err(()));
    assert_eq!(DataType::Padding.unpack_bits(&[77]), Ok(vec![]));
}

#[test]
fn pack_writes_what_unpack_reads() {
    let value = 3.25f32.to_bits();
    let packed = DataType::StrainGauge(1).pack(value, 0);
    assert_eq!(packed, value.to_le_bytes().to_vec());
    assert_eq!(DataType::StrainGauge(1).unpack_bits(&packed), Ok(vec![value]));
    assert_eq!(DataType::MuxCheck(9).pack(0, 0), vec![9]);
    assert_eq!(DataType::Padding.pack(123, 45), vec![0]);
    let switches = example_switch().pack(0, 0xff);
    assert_eq!(switches, vec![0b1101_0000]);
    let one = 1.0f32.to_bits();
    assert_eq!(example_switch().unpack_bits(&switches), Ok(vec![one, one, one]));
}

#[test]
fn debug_text_matches_debug_format() {
    let types = vec![
        DataType::Accelerometer(Axis::X),
        DataType::Accelerometer(Axis::Z),
        DataType::Gps,
        DataType::MuxCheck(0),
        DataType::MuxCheck(255),
        DataType::Padding,
        DataType::StrainGauge(12),
        DataType::PackedSwitch([None, Some(1), None, None, None, None, None, Some(200)]),
        DataType::LoneSwitch(3),
    ];
    for t in types {
        assert_eq!(debug_text(&t), format!("{:?}", t));
    }
}
