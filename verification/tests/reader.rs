use rust_data_server::generate_data::take_encoded_blocks;
use rust_data_server::hamming::native_little_endian;
use rust_data_server::ingestion::read_descriptor::parse_descriptor_checked;
use rust_data_server::ingestion::unpack::DataFrameReader;

// Each frame is the frame id, two padding bytes and a four-byte value: seven
// bytes, the payload of one block of the word code.
const TEXT: &str = "0,100:Padding,a;Padding,b;StrainGauge5,gauge;";

fn frame(id: u8, value: f32) -> Vec<u8> {
    let v = value.to_le_bytes();
    vec![id, 0, 0, v[0], v[1], v[2], v[3]]
}

fn written(frames: &[Vec<u8>]) -> Vec<u8> {
    // The writer keeps the last seven bytes until an eighth follows them.
    let mut payload: Vec<u8> = frames.concat();
    payload.push(0);
    let stream = take_encoded_blocks(&mut payload, native_little_endian());
    assert_eq!(payload, vec![0]);
    stream
}

fn encoded(values: &[f32]) -> Vec<u8> {
    let frames: Vec<Vec<u8>> = values.iter().map(|&v| frame(0, v)).collect();
    written(&frames)
}

fn reader(size: u64) -> DataFrameReader {
    DataFrameReader::new(size, parse_descriptor_checked(TEXT).unwrap())
}

/// The position in a block of the byte that holds the check bits.
fn code_byte() -> usize {
    if native_little_endian() {
        0
    } else {
        7
    }
}

#[test]
fn frames_become_values_of_their_channels() {
    let stream = encoded(&[1.0, 2.5]);
    assert_eq!(stream.len(), 16);
    let mut r = reader(stream.len() as u64);
    assert_eq!(r.push_bytes(&stream), Ok(()));
    assert_eq!(r.take_output(), vec![(0, 1.0f32.to_bits()), (0, 2.5f32.to_bits())]);
    assert_eq!(r.take_output(), vec![]);
    assert_eq!(r.take_reports(), vec![]);
}

#[test]
fn bytes_may_arrive_in_pieces() {
    let stream = encoded(&[1.0, -4.0, 0.5]);
    let mut r = reader(stream.len() as u64);
    assert_eq!(r.push_bytes(&stream[..9]), Ok(()));
    assert_eq!(r.take_output(), vec![(0, 1.0f32.to_bits())]);
    assert_eq!(r.push_bytes(&stream[9..13]), Ok(()));
    assert_eq!(r.take_output(), vec![]);
    assert_eq!(r.push_bytes(&stream[13..]), Ok(()));
    assert_eq!(r.take_output(), vec![(0, (-4.0f32).to_bits()), (0, 0.5f32.to_bits())]);
}

#[test]
fn two_flipped_bits_stop_the_reader() {
    let mut stream = encoded(&[1.0, 2.0]);
    stream[10] ^= 0b0000_0011;
    let mut r = reader(stream.len() as u64);
    assert_eq!(r.push_bytes(&stream), Err("Error detected during Hamming decode".to_string()));
}

#[test]
fn one_flipped_bit_is_corrected() {
    for bit in 0..64 {
        let mut stream = encoded(&[1.0, 2.0]);
        stream[8 + bit / 8] ^= 1 << (bit % 8);
        let mut r = reader(stream.len() as u64);
        assert_eq!(r.push_bytes(&stream), Ok(()));
        assert_eq!(r.take_output(), vec![(0, 1.0f32.to_bits()), (0, 2.0f32.to_bits())]);
    }
}

#[test]
fn the_code_byte_is_dropped_and_the_payload_kept() {
    // A frame whose every payload byte is set keeps all of them.
    let value = f32::from_bits(0xffff_ffff);
    let stream = written(&[vec![0, 0xff, 0xff, 0xff, 0xff, 0xff, 0xff]]);
    assert_eq!(stream[code_byte()] & 0x80, 0);
    let mut r = reader(stream.len() as u64 + 9);
    let mut padded = stream.clone();
    padded.extend(written(&[frame(0, 3.0)]));
    assert_eq!(r.push_bytes(&padded), Ok(()));
    assert_eq!(r.take_output(), vec![(0, value.to_bits()), (0, 3.0f32.to_bits())]);
}

#[test]
fn unknown_frame_is_refused() {
    let stream = written(&[frame(0, 1.0), frame(0x80, 2.0)]);
    let mut r = reader(stream.len() as u64);
    assert_eq!(r.push_bytes(&stream), Err("Unknown data frame 128".to_string()));
    assert_eq!(r.take_output(), vec![(0, 1.0f32.to_bits())]);
}

#[test]
fn failed_mux_check_is_refused() {
    let text = "0,100:MuxCheck5,m;Padding,a;StrainGauge5,gauge;";
    let good = 1.0f32.to_le_bytes();
    let stream = written(&[
        vec![0, 5, 0, good[0], good[1], good[2], good[3]],
        vec![0, 6, 0, good[0], good[1], good[2], good[3]],
    ]);
    let mut r = DataFrameReader::new(stream.len() as u64, parse_descriptor_checked(text).unwrap());
    assert_eq!(r.push_bytes(&stream), Err("Corrupt data in data frame 0".to_string()));
    assert_eq!(r.take_output(), vec![(0, 1.0f32.to_bits())]);
}

#[test]
fn progress_is_reported_every_million_bytes() {
    let zeros = vec![0u8; 1_000_016];
    let mut r = reader(2_000_000);
    assert_eq!(r.push_bytes(&zeros), Ok(()));
    assert_eq!(r.take_reports(), vec![(1_000_016, 2_000_000)]);
    let output = r.take_output();
    assert_eq!(output.len(), 125_002);
    assert!(output.iter().all(|&(channel, value)| channel == 0 && value == 0));
}
