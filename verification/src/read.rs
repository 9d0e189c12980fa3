//! Locating the stored samples of a data set.
use vstd::prelude::*;
use crate::data_format::data_type::DataType;
use crate::text::{
    push_debug_text, push_decimal, spec_debug_text, spec_decimal, text_equals,
};

verus! {

/// All the parameters necessary to specify what data to read.
pub struct ReadSamplesParams {
    /// The name of the dataset being read from.
    pub name: String,
    /// The channel in the dataset being read from.
    pub channel: DataType,
    /// The sample rate will be divided by 2 to the power of this number. For
    /// example, to get 16x downsampling, use `4`.
    pub rate_modifier: u8,
    /// The filter to use when downsampling. Has no effect when rate_modifier is
    /// zero.
    pub filter: String,
    /// The index to start reading at.
    pub start: u64,
    /// The index to stop reading before (it is exclusive.)
    pub end: u64,
}

/// The filter names that downsampled files exist for.
pub open spec fn is_filter_name(filter: Seq<char>) -> bool {
    filter == "min"@ || filter == "max"@ || filter == "avg"@
}

/// The message for an unknown filter name.
pub open spec fn spec_filter_message(filter: Seq<char>) -> Seq<char> {
    "Expected filter to be min, max, or avg, got "@ + filter + " instead"@
}

/// The path of the file that holds `channel` of data set `name` at the given
/// rate modifier, downsampled with `filter` (which only counts when the rate
/// is modified).
pub open spec fn spec_file_path(name: Seq<char>, channel: DataType, rate_modifier: u8, filter: Seq<char>) -> Seq<char> {
    let path = "cache/"@ + name + "/"@ + spec_debug_text(channel) + "-rate-"@ + spec_decimal(
        rate_modifier as nat,
    );
    if rate_modifier == 0 {
        path + ".bin"@
    } else {
        path + "-"@ + filter + ".bin"@
    }
}

/// Accepts the filter names `min`, `max` and `avg`.
pub fn validate_filter(filter: &String) -> (r: Result<(), String>)
    ensures
        r is Ok <==> is_filter_name(filter@),
        r matches Err(m) ==> m@ == spec_filter_message(filter@),
{
    let f = filter.as_str();
    if !text_equals(f, "min") && !text_equals(f, "max") && !text_equals(f, "avg") {
        let mut m = String::new();
        proof {
            reveal_strlit("Expected filter to be min, max, or avg, got ");
            reveal_strlit(" instead");
        }
        m.append("Expected filter to be min, max, or avg, got ");
        m.append(f);
        m.append(" instead");
        Err(m)
    } else {
        Ok(())
    }
}

/// The file that holds the samples of a channel of a dataset at a rate
/// modifier: the filter is named, and must be known, only for downsampled
/// rates.
pub fn make_file_path(name: String, channel: DataType, rate_modifier: u8, filter: String) -> (r: Result<String, String>)
    ensures
        rate_modifier == 0 || is_filter_name(filter@) ==> (r matches Ok(p) && p@ == spec_file_path(
            name@,
            channel,
            rate_modifier,
            filter@,
        )),
        rate_modifier != 0 && !is_filter_name(filter@) ==> (r matches Err(m) && m@
            == spec_filter_message(filter@)),
{
    if rate_modifier != 0 {
        validate_filter(&filter)?;
    }
    proof {
        reveal_strlit("cache/");
        reveal_strlit("/");
        reveal_strlit("-rate-");
        reveal_strlit(".bin");
        reveal_strlit("-");
    }
    let mut file_path = String::new();
    file_path.append("cache/");
    file_path.append(name.as_str());
    file_path.append("/");
    push_debug_text(&mut file_path, &channel);
    file_path.append("-rate-");
    push_decimal(&mut file_path, rate_modifier as u64);
    if rate_modifier == 0 {
        file_path.append(".bin");
    } else {
        file_path.append("-");
        file_path.append(filter.as_str());
        file_path.append(".bin");
    }
    Ok(file_path)
}

/// The number of samples on either side of a sample that the low-pass filter
/// of filtered reads looks at.
pub open spec fn filter_half_order() -> int {
    512
}

/// The message for a filtered read that starts too early.
pub open spec fn spec_filter_start_message() -> Seq<char> {
    "Start for filtered data must be at least 512 samples."@
}

/// The samples a filtered read of `[start, end)` needs: the range widened by
/// half the filter order on each side, and the number of samples it yields.
/// Refused when `start` leaves no room for the filter before it.
pub fn widen_for_filter(start: u64, end: u64) -> (r: Result<(u64, u64, u64), String>)
    requires
        start >= filter_half_order() ==> start <= end && end + filter_half_order() <= u64::MAX,
    ensures
        start < filter_half_order() ==> (r matches Err(m) && m@ == spec_filter_start_message()),
        start >= filter_half_order() ==> r == Ok::<(u64, u64, u64), String>(
            (
                (start - filter_half_order()) as u64,
                (end + filter_half_order()) as u64,
                (end - start) as u64,
            ),
        ),
{
    if start < 512 {
        let mut m = String::new();
        proof {
            reveal_strlit("Start for filtered data must be at least ");
            reveal_strlit(" samples.");
            reveal_strlit("Start for filtered data must be at least 512 samples.");
            reveal_strlit("512");
        }
        m.append("Start for filtered data must be at least ");
        push_decimal(&mut m, 512);
        m.append(" samples.");
        assert(spec_decimal(512) =~= "512"@) by {
            reveal_with_fuel(spec_decimal, 4);
        }
        assert(m@ =~= spec_filter_start_message());
        return Err(m);
    }
    let old_range = end - start;
    Ok((start - 512, end + 512, old_range))
}

/// The little-endian 32-bit word held by bytes `4 * i` to `4 * i + 3` of `b`.
pub open spec fn le_u32_at(b: Seq<u8>, i: int) -> int {
    b[4 * i] + 256 * b[4 * i + 1] + 65536 * b[4 * i + 2] + 16777216 * b[4 * i + 3]
}

/// How many samples a read of `length` samples takes from `available` whole
/// samples: `length` of them, or as many as there are.
pub open spec fn samples_taken(available: int, length: int) -> int {
    if available < length { available } else { length }
}

/// The samples (as the bit patterns of little-endian 32-bit words) that a read
/// of `length` samples gets from the bytes of a file from its start on: whole
/// samples only, at most `length` of them, none when `length` is zero.
pub fn sample_words(bytes: &[u8], length: usize) -> (r: Vec<u32>)
    ensures
        r@.len() == samples_taken((bytes@.len() / 4) as int, length as int),
        forall|i: int| 0 <= i < r@.len() ==> r@[i] as int == le_u32_at(bytes@, i),
{
    let total = bytes.len();
    let available = total / 4;
    let count = if available < length { available } else { length };
    let mut r: Vec<u32> = Vec::new();
    while r.len() < count
        invariant
            total == bytes@.len(),
            available == bytes@.len() / 4,
            count as int == samples_taken((bytes@.len() / 4) as int, length as int),
            count <= available,
            r@.len() <= count,
            forall|i: int| 0 <= i < r@.len() ==> r@[i] as int == le_u32_at(bytes@, i),
        decreases count - r@.len(),
    {
        let i = r.len();
        assert(4 * i + 4 <= total) by (nonlinear_arith)
            requires
                i < available,
                available == total / 4,
        ;
        let b0: u32 = bytes[4 * i] as u32;
        let b1: u32 = bytes[4 * i + 1] as u32;
        let b2: u32 = bytes[4 * i + 2] as u32;
        let b3: u32 = bytes[4 * i + 3] as u32;
        assert(b0 + 256 * b1 + 65536 * b2 + 16777216 * b3 <= u32::MAX) by (nonlinear_arith)
            requires
                b0 <= 255,
                b1 <= 255,
                b2 <= 255,
                b3 <= 255,
        ;
        let w: u32 = b0 + 256 * b1 + 65536 * b2 + 16777216 * b3;
        r.push(w);
    }
    r
}

/// The byte at which sample `index` of a sample file begins: each sample is
/// four bytes. `None` when that is past what a file offset can hold.
pub fn sample_offset(index: u64) -> (r: Option<u64>)
    ensures
        4 * index <= u64::MAX ==> r == Some((4 * index) as u64),
        4 * index > u64::MAX ==> r is None,
{
    if index > u64::MAX / 4 {
        None
    } else {
        Some(4 * index)
    }
}

} // verus!
