use rust_data_server::data_format::{Axis, DataType};
use rust_data_server::example_file_descriptor;
use rust_data_server::ingestion::read_descriptor::{
    descriptor_from_header, header_length, parse_colon, parse_data_type, parse_descriptor,
    parse_descriptor_checked, parse_int, parse_label, parse_semicolon, DescriptorError, HeaderError,
};

fn all_switches() -> DataType {
    DataType::PackedSwitch([Some(0), Some(1), Some(2), Some(3), Some(4), Some(5), Some(6), Some(7)])
}

#[test]
fn example_text_describes_two_frames() {
    let d = parse_descriptor_checked(example_file_descriptor()).unwrap();
    assert_eq!(d.data_frame_sample_rates, vec![10000, 2000]);
    assert_eq!(
        d.packed_channels,
        vec![
            all_switches(),
            DataType::Accelerometer(Axis::X),
            DataType::Accelerometer(Axis::Y),
            DataType::Accelerometer(Axis::Z),
            DataType::MuxCheck(0),
            DataType::StrainGauge(0),
        ]
    );
    assert_eq!(d.packed_channel_assignments, vec![0..4, 4..6]);
    assert_eq!(d.unpacked_channel_assignments, vec![0..11, 11..12]);
    assert_eq!(d.unpacked_channels.len(), 12);
    for i in 0..8 {
        let c = &d.unpacked_channels[i];
        assert_eq!(c.sample_rate, 10000);
        assert_eq!(c.name, "Switches");
        assert_eq!(c.typ, DataType::LoneSwitch(i as u8));
    }
    assert_eq!(d.unpacked_channels[8].name, "Accelerometer X");
    assert_eq!(d.unpacked_channels[9].typ, DataType::Accelerometer(Axis::Y));
    assert_eq!(d.unpacked_channels[10].name, "AccelerometerZ");
    assert_eq!(d.unpacked_channels[11].name, "Strain Gauge 0");
    assert_eq!(d.unpacked_channels[11].sample_rate, 2000);
    assert_eq!(d.unpacked_channels[11].typ, DataType::StrainGauge(0));
    let unpacked = d.unpacked();
    assert_eq!(unpacked.channels.len(), 12);
    assert_eq!(unpacked.channels[11].name, "Strain Gauge 0");
}

#[test]
fn parse_descriptor_consumes_the_whole_text() {
    let (rest, d) = parse_descriptor(example_file_descriptor()).unwrap();
    assert_eq!(rest, "");
    assert_eq!(d.packed_channels.len(), 6);
}

#[test]
fn descriptor_errors() {
    assert_eq!(parse_descriptor_checked("0,10:Bogus,x;").err(), Some(DescriptorError::Syntax));
    assert_eq!(parse_descriptor_checked("0,10:GPS,x").err(), Some(DescriptorError::Syntax));
    assert_eq!(
        parse_descriptor_checked("1,10:GPS,x;").err(),
        Some(DescriptorError::LabelJump { expected: 0, found: 1 })
    );
    assert_eq!(
        parse_descriptor_checked("0,10:GPS,x;2,5:").err(),
        Some(DescriptorError::LabelJump { expected: 1, found: 2 })
    );
    assert_eq!(parse_descriptor_checked("GPS,g;").err(), Some(DescriptorError::ItemBeforeLabel));
    assert!(parse_descriptor("0,10:Bogus,x;").is_err());
}

#[test]
fn labels_past_255_overflow() {
    let mut text = String::new();
    for label in 0..257 {
        text.push_str(&format!("{},1:", label));
    }
    assert_eq!(parse_descriptor_checked(&text).err(), Some(DescriptorError::LabelOverflow));
    let mut text = String::new();
    for label in 0..256 {
        text.push_str(&format!("{},1:", label));
    }
    assert_eq!(parse_descriptor_checked(&text).unwrap().data_frame_sample_rates.len(), 256);
}

#[test]
fn empty_text_describes_no_frames() {
    let d = parse_descriptor_checked("").unwrap();
    assert!(d.data_frame_sample_rates.is_empty());
    assert!(d.packed_channels.is_empty());
}

#[test]
fn small_parsers() {
    assert_eq!(parse_int("123abc").unwrap(), ("abc", 123));
    assert!(parse_int("abc").is_err());
    assert!(parse_int("99999999999").is_err());
    assert_eq!(parse_label("3,200:rest").unwrap(), ("rest", (3, 200)));
    assert_eq!(parse_label("258,7:").unwrap(), ("", (2, 7)));
    assert!(parse_label("3;200:").is_err());
    assert_eq!(parse_data_type("MuxCheck12,").unwrap(), (",", DataType::MuxCheck(12)));
    assert_eq!(parse_data_type("MuxCheck300").unwrap(), ("", DataType::MuxCheck(44)));
    assert_eq!(parse_data_type("StrainGauge7;").unwrap(), (";", DataType::StrainGauge(7)));
    assert_eq!(parse_data_type("PackedSwitch").unwrap(), ("", all_switches()));
    assert_eq!(parse_data_type("GPSx").unwrap(), ("x", DataType::Gps));
    assert!(parse_data_type("MuxCheck").is_err());
    assert!(parse_data_type("Gravity").is_err());
    assert_eq!(parse_colon(":x").unwrap(), ("x", ()));
    assert!(parse_colon("x:").is_err());
    assert_eq!(parse_semicolon(";").unwrap(), ("", ()));
    assert!(parse_semicolon("").is_err());
}

#[test]
fn header_length_limits() {
    assert_eq!(header_length(&[0x10, 0x27, 0, 0]), Ok(10_000));
    assert_eq!(header_length(&[0x11, 0x27, 0, 0]), Err(HeaderError::TooLarge(10_001)));
    assert_eq!(header_length(&[0xff, 0xff, 0xff, 0xff]), Err(HeaderError::TooLarge(u32::MAX)));
    assert_eq!(header_length(&[5, 0, 0, 0]), Ok(5));
}

#[test]
fn header_bytes_to_descriptor() {
    let d = descriptor_from_header(example_file_descriptor().as_bytes()).unwrap();
    assert_eq!(d.packed_channels.len(), 6);
    assert!(matches!(descriptor_from_header(&[0xff, 0xfe]), Err(HeaderError::NotUtf8)));
    assert!(matches!(
        descriptor_from_header("x".as_bytes()),
        Err(HeaderError::Invalid(DescriptorError::Syntax))
    ));
}

#[test]
fn written_header_reads_back() {
    let text = example_file_descriptor();
    let mut stream = (text.len() as u32).to_le_bytes().to_vec();
    stream.extend_from_slice(text.as_bytes());
    stream.extend_from_slice(&[1, 2, 3]);
    let n = header_length(&stream[..4]).unwrap();
    assert_eq!(n, text.len());
    let d = descriptor_from_header(&stream[4..4 + n]).unwrap();
    let expected = parse_descriptor_checked(text).unwrap();
    assert_eq!(d.packed_channels, expected.packed_channels);
    assert_eq!(d.data_frame_sample_rates, expected.data_frame_sample_rates);
}
