use rust_data_server::data_format::{Axis, DataType};
use rust_data_server::ingestion::generate_mips::{file_name, file_name_base, pair_sample, Filter};
use rust_data_server::interface::StatusMessage;
use rust_data_server::read::{
    make_file_path, sample_offset, sample_words, validate_filter, widen_for_filter, ReadSamplesParams,
};

#[test]
fn filters_are_min_max_or_avg() {
    for f in ["min", "max", "avg"] {
        assert_eq!(validate_filter(&f.to_string()), Ok(()));
    }
    assert_eq!(
        validate_filter(&"median".to_string()),
        Err("Expected filter to be min, max, or avg, got median instead".to_string())
    );
    assert_eq!(
        validate_filter(&"".to_string()),
        Err("Expected filter to be min, max, or avg, got  instead".to_string())
    );
}

#[test]
fn file_paths_of_samples() {
    assert_eq!(
        make_file_path("set".to_string(), DataType::Gps, 0, "min".to_string()),
        Ok("cache/set/Gps-rate-0.bin".to_string())
    );
    assert_eq!(
        make_file_path("set".to_string(), DataType::StrainGauge(2), 3, "avg".to_string()),
        Ok("cache/set/StrainGauge(2)-rate-3-avg.bin".to_string())
    );
    assert_eq!(
        make_file_path("set".to_string(), DataType::LoneSwitch(7), 12, "max".to_string()),
        Ok("cache/set/LoneSwitch(7)-rate-12-max.bin".to_string())
    );
    assert_eq!(
        make_file_path("set".to_string(), DataType::Gps, 0, "mean".to_string()),
        Ok("cache/set/Gps-rate-0.bin".to_string())
    );
    assert_eq!(
        make_file_path("set".to_string(), DataType::Gps, 1, "mean".to_string()),
        Err("Expected filter to be min, max, or avg, got mean instead".to_string())
    );
}

#[test]
fn filtered_reads_widen_the_range() {
    assert_eq!(widen_for_filter(600, 700), Ok((88, 1212, 100)));
    assert_eq!(widen_for_filter(513, 513), Ok((1, 1025, 0)));
    assert_eq!(widen_for_filter(512, 600), Ok((0, 1112, 88)));
    assert_eq!(
        widen_for_filter(511, 600),
        Err("Start for filtered data must be at least 512 samples.".to_string())
    );
    assert_eq!(
        widen_for_filter(100, 50),
        Err("Start for filtered data must be at least 512 samples.".to_string())
    );
}

#[test]
fn mip_file_names() {
    let base = file_name_base("set", &DataType::Accelerometer(Axis::Y));
    assert_eq!(base, "cache/set/Accelerometer(Y)-rate");
    assert_eq!(file_name(&base, 0, "avg"), "cache/set/Accelerometer(Y)-rate-0.bin");
    assert_eq!(file_name(&base, 3, "min"), "cache/set/Accelerometer(Y)-rate-3-min.bin");
    assert_eq!(file_name(&base, 39, Filter::Maximum.name()), "cache/set/Accelerometer(Y)-rate-39-max.bin");
    assert_eq!(file_name("b", -2, "avg"), "b--2-avg.bin");
}

#[test]
fn filter_names() {
    assert_eq!(Filter::Minimum.name(), "min");
    assert_eq!(Filter::Maximum.name(), "max");
    assert_eq!(Filter::Average.name(), "avg");
}

#[test]
fn status_messages() {
    let name = "set".to_string();
    assert_eq!(
        StatusMessage::progress(&name, 3, 10),
        StatusMessage::IngestionProgress { name: "set".to_string(), completed: 3, total: 10 }
    );
    assert_eq!(StatusMessage::complete(&name), StatusMessage::IngestionComplete { name: "set".to_string() });
}

#[test]
fn read_params_hold_plain_values() {
    let p = ReadSamplesParams {
        name: "set".to_string(),
        channel: DataType::Gps,
        rate_modifier: 2,
        filter: "avg".to_string(),
        start: 5,
        end: 10,
    };
    assert_eq!(
        make_file_path(p.name, p.channel, p.rate_modifier, p.filter),
        Ok("cache/set/Gps-rate-2-avg.bin".to_string())
    );
}

#[test]
fn samples_are_little_endian_words() {
    let mut bytes = Vec::new();
    for x in [1.5f32, -2.0, 0.25] {
        bytes.extend_from_slice(&x.to_le_bytes());
    }
    let words = sample_words(&bytes, 3);
    let values: Vec<f32> = words.into_iter().map(f32::from_bits).collect();
    assert_eq!(values, vec![1.5, -2.0, 0.25]);
    assert_eq!(sample_words(&[1, 2, 3, 4], 1), vec![0x0403_0201]);
}

#[test]
fn sample_reads_stop_at_length_or_end() {
    let bytes: Vec<u8> = (0..14).collect();
    // Three whole samples; the last two bytes make none.
    assert_eq!(sample_words(&bytes, 10).len(), 3);
    assert_eq!(sample_words(&bytes, 1), vec![0x0302_0100]);
    // The end is exclusive: a read of no samples takes none.
    assert_eq!(sample_words(&bytes, 0), Vec::<u32>::new());
    assert_eq!(sample_words(&bytes[..3], 5), Vec::<u32>::new());
}

#[test]
fn samples_are_four_bytes_apart() {
    assert_eq!(sample_offset(0), Some(0));
    assert_eq!(sample_offset(3), Some(12));
    assert_eq!(sample_offset(u64::MAX / 4), Some(u64::MAX - 3));
    assert_eq!(sample_offset(u64::MAX / 4 + 1), None);
}

#[test]
fn levels_of_detail_pair_neighbouring_samples() {
    let mut held = None;
    let mut pairs = Vec::new();
    for datum in [10u32, 11, 12, 13, 14] {
        let (next, pair) = pair_sample(held, datum);
        held = next;
        pairs.extend(pair);
    }
    assert_eq!(pairs, vec![(10, 11), (12, 13)]);
    assert_eq!(held, Some(14));
    assert_eq!(pair_sample(Some(1), 2), (None, Some((1, 2))));
    assert_eq!(pair_sample(None, 2), (Some(2), None));
}
