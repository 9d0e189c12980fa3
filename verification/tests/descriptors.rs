use rust_data_server::data_format::descriptors::{check_hamming_code_compatibility, example_file_descriptor, frame_packed_len};
use rust_data_server::data_format::{Axis, DataType};

fn switch() -> DataType {
    DataType::PackedSwitch([None, None, None, None, Some(0), None, Some(1), Some(2)])
}

#[test]
fn padded_frame_is_compatible() {
    let frame = vec![switch(), DataType::MuxCheck(0), DataType::StrainGauge(0), DataType::Padding, DataType::Padding];
    assert_eq!(check_hamming_code_compatibility(&frame), Ok(()));
    assert_eq!(frame_packed_len(&frame), 8);
}

#[test]
fn value_over_the_reserved_byte_is_refused() {
    let frame = vec![DataType::Gps, DataType::Gps];
    assert_eq!(
        check_hamming_code_compatibility(&frame),
        Err("The Gps at index 1 is incompatible with a Hamming code".to_string())
    );
    let frame = vec![
        DataType::Padding,
        DataType::Padding,
        DataType::Padding,
        DataType::Padding,
        DataType::Accelerometer(Axis::Y),
    ];
    assert_eq!(
        check_hamming_code_compatibility(&frame),
        Err("The Accelerometer(Y) at index 4 is incompatible with a Hamming code".to_string())
    );
    let frame = vec![DataType::Padding, DataType::Padding, DataType::Padding, DataType::Accelerometer(Axis::Y)];
    assert_eq!(
        check_hamming_code_compatibility(&frame),
        Err("Data frame size must be a multiple of 8 bytes, got 7 instead.".to_string())
    );
}

#[test]
fn partial_block_is_refused() {
    assert_eq!(
        check_hamming_code_compatibility(&vec![DataType::Padding]),
        Err("Data frame size must be a multiple of 8 bytes, got 1 instead.".to_string())
    );
    assert_eq!(check_hamming_code_compatibility(&vec![]), Ok(()));
}

#[test]
fn two_blocks_need_two_reserved_bytes() {
    let frame = vec![
        DataType::Gps,
        DataType::MuxCheck(1),
        DataType::Padding,
        DataType::Padding,
        DataType::Padding,
        DataType::StrainGauge(2),
        DataType::Padding,
        DataType::Padding,
        DataType::Padding,
        DataType::Padding,
    ];
    assert_eq!(check_hamming_code_compatibility(&frame), Ok(()));
    assert_eq!(frame_packed_len(&frame), 16);
}

#[test]
fn example_descriptor_has_seven_frames() {
    let d = example_file_descriptor();
    assert_eq!(d.sample_rate(), 10_000);
    assert_eq!(d.frame_sequence().len(), 7);
    assert_eq!(d.frame_sequence_size(), 56);
    let values = [
        DataType::StrainGauge(0),
        DataType::StrainGauge(1),
        DataType::StrainGauge(2),
        DataType::StrainGauge(3),
        DataType::Accelerometer(Axis::X),
        DataType::Accelerometer(Axis::Y),
        DataType::Accelerometer(Axis::Z),
    ];
    for (i, frame) in d.frame_sequence().iter().enumerate() {
        assert_eq!(
            frame,
            &vec![switch(), DataType::MuxCheck(i as u8), values[i], DataType::Padding, DataType::Padding]
        );
        assert_eq!(check_hamming_code_compatibility(frame), Ok(()));
    }
}

#[test]
fn the_eighth_byte_of_each_block_is_reserved() {
    let frame = vec![
        DataType::StrainGauge(0),
        DataType::MuxCheck(0),
        DataType::MuxCheck(1),
        DataType::MuxCheck(2),
        DataType::Padding,
    ];
    assert_eq!(check_hamming_code_compatibility(&frame), Ok(()));
    let frame = vec![
        DataType::StrainGauge(0),
        DataType::MuxCheck(0),
        DataType::MuxCheck(1),
        DataType::Padding,
        DataType::MuxCheck(2),
    ];
    assert_eq!(
        check_hamming_code_compatibility(&frame),
        Err("The MuxCheck(2) at index 4 is incompatible with a Hamming code".to_string())
    );
}
