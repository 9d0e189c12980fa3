use rust_data_server::data_format::descriptors::{
    check_hamming_code_compatibility, example_file_descriptor, DataFileDescriptor,
};
use rust_data_server::data_format::{Axis, DataType};
use rust_data_server::generate_data::{generate_datum, generate_frame, generate_pass, take_encoded_blocks};
use rust_data_server::hamming::{decode_words, encode, native_little_endian};
use rust_data_server::ingestion::execution::unpack;
use rust_data_server::ingestion::read_descriptor::parse_descriptor_checked;
use rust_data_server::ingestion::unpack::DataFrameReader;

#[test]
fn datum_is_appended_packed() {
    let mut buffer = vec![9u8];
    generate_datum(&DataType::Accelerometer(Axis::Y), 2.0f32.to_bits(), 0xff, &mut buffer);
    let mut expected = vec![9u8];
    expected.extend(2.0f32.to_le_bytes());
    assert_eq!(buffer, expected);
    generate_datum(&DataType::MuxCheck(4), 0, 0, &mut buffer);
    generate_datum(&DataType::Padding, 7, 7, &mut buffer);
    let switch = DataType::PackedSwitch([Some(0), None, Some(1), None, None, None, None, None]);
    generate_datum(&switch, 0, 0b0000_0111, &mut buffer);
    expected.extend(vec![4, 0, 0b0000_0101]);
    assert_eq!(buffer, expected);
}

fn example_samples(pass: u32) -> Vec<(u32, u8)> {
    let mut samples = Vec::new();
    for frame in 0..7u32 {
        for channel in 0..5u32 {
            let value = (frame as f32 * 10.0 + channel as f32 + pass as f32 * 0.5).to_bits();
            samples.push((value, (frame * 37 + pass) as u8));
        }
    }
    samples
}

#[test]
fn generated_passes_unpack_to_their_samples() {
    let descriptor = example_file_descriptor();
    let mut buffer = Vec::new();
    for pass in 0..3 {
        generate_pass(&descriptor, &example_samples(pass), &mut buffer);
    }
    assert_eq!(buffer.len(), 3 * 56);
    encode(&mut buffer);
    let (outputs, _, writes, _) = unpack(&descriptor, &buffer).unwrap();
    assert_eq!(outputs.len(), 10);
    let one = 1.0f32.to_bits();
    let zero = 0.0f32.to_bits();
    let mut expected = Vec::new();
    for pass in 0..3u32 {
        let samples = example_samples(pass);
        for frame in 0..7usize {
            let switches = samples[5 * frame].1;
            let bit = |b: u8| if switches & (1 << b) != 0 { one } else { zero };
            expected.extend(vec![(0, bit(4)), (1, bit(6)), (2, bit(7)), (3 + frame, samples[5 * frame + 2].0)]);
        }
    }
    assert_eq!(writes, expected);
}

const TEXT: &str = "0,100:Padding,a;Padding,b;StrainGauge5,gauge;1,50:MuxCheck3,m;GPS,g;Padding,p;";

#[test]
fn generated_frames_hold_their_id_and_samples() {
    let d = parse_descriptor_checked(TEXT).unwrap();
    let mut buffer = Vec::new();
    let v = 1.5f32.to_bits();
    generate_frame(&d, 0, &vec![(0, 0), (0, 0), (v, 0)], &mut buffer);
    let mut expected = vec![0u8, 0, 0];
    expected.extend(v.to_le_bytes());
    assert_eq!(buffer, expected);
    let g = (-3.0f32).to_bits();
    generate_frame(&d, 1, &vec![(0, 0), (g, 0), (5, 5)], &mut buffer);
    expected.extend(vec![1u8, 3]);
    expected.extend(g.to_le_bytes());
    expected.push(0);
    assert_eq!(buffer, expected);
}

#[test]
fn reader_reads_generated_frames() {
    let d = parse_descriptor_checked(TEXT).unwrap();
    let mut frames = Vec::new();
    for i in 0..3u32 {
        generate_frame(&d, 0, &vec![(0, 0), (0, 0), ((i as f32).to_bits(), 0)], &mut frames);
    }
    frames.push(0);
    let stream = take_encoded_blocks(&mut frames, native_little_endian());
    assert_eq!(frames, vec![0]);
    let mut reader = DataFrameReader::new(stream.len() as u64, d);
    assert_eq!(reader.push_bytes(&stream), Ok(()));
    assert_eq!(
        reader.take_output(),
        vec![(0, 0.0f32.to_bits()), (0, 1.0f32.to_bits()), (0, 2.0f32.to_bits())]
    );
}

#[test]
fn stream_is_cut_into_blocks_of_seven_bytes() {
    for little in [true, false] {
        let mut buffer: Vec<u8> = (1..=20).collect();
        let blocks = take_encoded_blocks(&mut buffer, little);
        assert_eq!(blocks.len(), 16);
        assert_eq!(buffer, (15..=20).collect::<Vec<u8>>());
        let mut decoded = blocks.clone();
        assert_eq!(decode_words(&mut decoded, little), Ok(()));
        if little {
            assert_eq!(decoded, vec![0, 1, 2, 3, 4, 5, 6, 7, 0, 8, 9, 10, 11, 12, 13, 14]);
        } else {
            assert_eq!(decoded, vec![1, 2, 3, 4, 5, 6, 7, 0, 8, 9, 10, 11, 12, 13, 14, 0]);
        }
    }
}

#[test]
fn short_streams_wait_for_more_bytes() {
    let mut buffer: Vec<u8> = vec![1, 2, 3, 4, 5, 6, 7];
    assert_eq!(take_encoded_blocks(&mut buffer, true), vec![]);
    assert_eq!(buffer.len(), 7);
    buffer.push(8);
    assert_eq!(take_encoded_blocks(&mut buffer, true).len(), 8);
    assert_eq!(buffer, vec![8]);
}

#[test]
fn compatible_frames_leave_the_reserved_bytes_zero() {
    let frame = vec![
        DataType::Gps,
        DataType::MuxCheck(0xff),
        DataType::Padding,
        DataType::Padding,
        DataType::Padding,
        DataType::StrainGauge(1),
        DataType::MuxCheck(0xee),
        DataType::Padding,
        DataType::Padding,
        DataType::Padding,
    ];
    assert_eq!(check_hamming_code_compatibility(&frame), Ok(()));
    let descriptor = DataFileDescriptor::new(10, vec![frame]);
    let samples: Vec<(u32, u8)> = (0..10).map(|_| (u32::MAX, 0xff)).collect();
    let mut buffer = Vec::new();
    generate_pass(&descriptor, &samples, &mut buffer);
    assert_eq!(buffer.len(), 16);
    assert_eq!(buffer[7], 0);
    assert_eq!(buffer[15], 0);
}
