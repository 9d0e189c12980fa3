use vstd::prelude::*;
use crate::data_format::data_type::{
    DataType, spec_num_packed_bytes, spec_unpack, spec_unpacked_types,
};
use crate::data_format::descriptors::{
    DataFileDescriptor, DataFrameDescriptor, all_packable, frames_of, sequence_size, spec_packed_len,
    valid_frame_sequence,
};
use crate::hamming::{decode, decoded_blocks};
use crate::ingestion::support_types::{ProgressTracker, REPORT_INTERVAL};

verus! {

/// Whether two data types are the same.
pub fn same_type(a: &DataType, b: &DataType) -> (r: bool)
    ensures
        r == (*a == *b),
{
    match (a, b) {
        (DataType::Accelerometer(x), DataType::Accelerometer(y)) => match (x, y) {
            (crate::data_format::data_type::Axis::X, crate::data_format::data_type::Axis::X) => true,
            (crate::data_format::data_type::Axis::Y, crate::data_format::data_type::Axis::Y) => true,
            (crate::data_format::data_type::Axis::Z, crate::data_format::data_type::Axis::Z) => true,
            _ => false,
        },
        (DataType::Gps, DataType::Gps) => true,
        (DataType::MuxCheck(x), DataType::MuxCheck(y)) => *x == *y,
        (DataType::Padding, DataType::Padding) => true,
        (DataType::StrainGauge(x), DataType::StrainGauge(y)) => *x == *y,
        (DataType::PackedSwitch(x), DataType::PackedSwitch(y)) => {
            let mut i: usize = 0;
            while i < 8
                invariant
                    i <= 8,
                    x@.len() == 8,
                    y@.len() == 8,
                    *a == DataType::PackedSwitch(*x),
                    *b == DataType::PackedSwitch(*y),
                    forall|j: int| 0 <= j < i ==> x@[j] == y@[j],
                decreases 8 - i,
            {
                let same = match (x[i], y[i]) {
                    (None, None) => true,
                    (Some(p), Some(q)) => p == q,
                    _ => false,
                };
                if !same {
                    assert(x@[i as int] != y@[i as int]);
                    return false;
                }
                i = i + 1;
            }
            assert(x@ =~= y@);
            proof {
                vstd::array::axiom_array_ext_equal(*x, *y);
            }
            true
        },
        (DataType::LoneSwitch(x), DataType::LoneSwitch(y)) => *x == *y,
        _ => false,
    }
}


/// All packed channels of a sequence of frames, frame after frame.
pub open spec fn packed_sequence(frames: Seq<Seq<DataType>>) -> Seq<DataType>
    decreases frames.len(),
{
    if frames.len() == 0 {
        Seq::empty()
    } else {
        packed_sequence(frames.drop_last()) + frames.last()
    }
}

/// The types of the unpacked values of the packed channels `chs`, in order.
pub open spec fn unpacked_sequence(chs: Seq<DataType>) -> Seq<DataType>
    decreases chs.len(),
{
    if chs.len() == 0 {
        Seq::empty()
    } else {
        unpacked_sequence(chs.drop_last()) + spec_unpacked_types(chs.last())
    }
}

/// The distinct items of `s`, in the order of their first occurrence.
pub open spec fn distinct_types(s: Seq<DataType>) -> Seq<DataType>
    decreases s.len(),
{
    if s.len() == 0 {
        Seq::empty()
    } else {
        let d = distinct_types(s.drop_last());
        if d.contains(s.last()) {
            d
        } else {
            d.push(s.last())
        }
    }
}

/// The number of occurrences of `t` in `s`.
pub open spec fn occurrences(s: Seq<DataType>, t: DataType) -> nat
    decreases s.len(),
{
    if s.len() == 0 {
        0
    } else {
        occurrences(s.drop_last(), t) + if s.last() == t {
            1nat
        } else {
            0nat
        }
    }
}

/// The position of the first occurrence of `t` in `s`.
pub open spec fn first_index(s: Seq<DataType>, t: DataType) -> int
    decreases s.len(),
{
    if s.len() == 0 {
        0
    } else if s[0] == t {
        0
    } else {
        1 + first_index(s.drop_first(), t)
    }
}

proof fn lemma_first_index(s: Seq<DataType>, t: DataType)
    requires
        s.contains(t),
    ensures
        0 <= first_index(s, t) < s.len(),
        s[first_index(s, t)] == t,
        forall|j: int| 0 <= j < first_index(s, t) ==> s[j] != t,
    decreases s.len(),
{
    if s[0] != t {
        let k = choose|k: int| 0 <= k < s.len() && s[k] == t;
        assert(s.drop_first()[k - 1] == t);
        lemma_first_index(s.drop_first(), t);
        assert forall|j: int| 0 <= j < first_index(s, t) implies s[j] != t by {
            if j > 0 {
                assert(s[j] == s.drop_first()[j - 1]);
            }
        }
    }
}

/// The position in `outputs` of the output for values of type `with_type`.
pub fn find_output_with_type(outputs: &Vec<DataType>, with_type: &DataType) -> (r: usize)
    requires
        outputs@.contains(*with_type),
    ensures
        r == first_index(outputs@, *with_type),
        r < outputs@.len(),
        outputs@[r as int] == *with_type,
{
    proof {
        lemma_first_index(outputs@, *with_type);
    }
    let mut i: usize = 0;
    while i < outputs.len()
        invariant
            outputs@.contains(*with_type),
            0 <= first_index(outputs@, *with_type) < outputs@.len(),
            outputs@[first_index(outputs@, *with_type)] == *with_type,
            forall|j: int| 0 <= j < first_index(outputs@, *with_type) ==> outputs@[j] != *with_type,
            i <= first_index(outputs@, *with_type),
        decreases outputs@.len() - i,
    {
        if same_type(&outputs[i], with_type) {
            return i;
        }
        i = i + 1;
    }
    i
}

/// The outputs of the values of a packed channel of type `typ`: for each of
/// its unpacked types, the position of the output for that type.
pub open spec fn spec_destinations(outputs: Seq<DataType>, typ: DataType) -> Seq<usize> {
    spec_unpacked_types(typ).map_values(|u: DataType| first_index(outputs, u) as usize)
}

/// Every unpacked type of `typ` has an output.
pub open spec fn has_outputs(outputs: Seq<DataType>, typ: DataType) -> bool {
    forall|j: int| 0 <= j < spec_unpacked_types(typ).len() ==> outputs.contains(
        #[trigger] spec_unpacked_types(typ)[j],
    )
}

/// For each value that a packed channel of type `typ` unpacks to, the
/// position of its output.
pub fn find_outputs(outputs: &Vec<DataType>, typ: &DataType) -> (r: Vec<usize>)
    requires
        has_outputs(outputs@, *typ),
    ensures
        r@ == spec_destinations(outputs@, *typ),
{
    let unpacked = typ.unpacked_types();
    let mut r: Vec<usize> = Vec::new();
    let mut j: usize = 0;
    while j < unpacked.len()
        invariant
            unpacked@ == spec_unpacked_types(*typ),
            has_outputs(outputs@, *typ),
            j <= unpacked@.len(),
            r@ == spec_destinations(outputs@, *typ).take(j as int),
        decreases unpacked@.len() - j,
    {
        let position = find_output_with_type(outputs, &unpacked[j]);
        r.push(position);
        assert(r@ =~= spec_destinations(outputs@, *typ).take(j + 1));
        j = j + 1;
    }
    assert(spec_destinations(outputs@, *typ).take(j as int) =~= spec_destinations(outputs@, *typ));
    r
}

/// One step of reading a frame sequence: how many packed bytes to read, what
/// they hold, and the output of each value they unpack to.
pub struct ReadStep {
    pub num_bytes: usize,
    pub unpacker: DataType,
    /// Indexes into the outputs, says which output each unpacked value should
    /// be written to.
    pub destinations: Vec<usize>,
}

/// The plain value of a read step.
pub open spec fn step_view(s: ReadStep) -> (usize, DataType, Seq<usize>) {
    (s.num_bytes, s.unpacker, s.destinations@)
}

/// The plain values of a sequence of read steps.
pub open spec fn steps_view(s: Seq<ReadStep>) -> Seq<(usize, DataType, Seq<usize>)> {
    s.map_values(|x: ReadStep| step_view(x))
}

/// The read step for a packed channel of type `t`.
pub open spec fn spec_step(outputs: Seq<DataType>, t: DataType) -> (usize, DataType, Seq<usize>) {
    (spec_num_packed_bytes(t) as usize, t, spec_destinations(outputs, t))
}

/// The flat list of the packed channels of a data file descriptor.
fn packed_channels_of(descriptor: &DataFileDescriptor) -> (r: Vec<DataType>)
    ensures
        r@ == packed_sequence(descriptor.frames()),
{
    let frames = descriptor.frame_sequence();
    let ghost fs = frames_of(frames@);
    let mut r: Vec<DataType> = Vec::new();
    let mut i: usize = 0;
    while i < frames.len()
        invariant
            fs == frames_of(frames@),
            fs == descriptor.frames(),
            i <= frames@.len(),
            r@ == packed_sequence(fs.take(i as int)),
        decreases frames@.len() - i,
    {
        assert(fs.take(i + 1).drop_last() == fs.take(i as int));
        let frame = &frames[i];
        let ghost before = r@;
        let mut k: usize = 0;
        while k < frame.len()
            invariant
                k <= frame@.len(),
                r@ == before + frame@.take(k as int),
            decreases frame@.len() - k,
        {
            r.push(frame[k]);
            assert(r@ =~= before + frame@.take(k + 1));
            k = k + 1;
        }
        assert(frame@.take(k as int) == frame@);
        assert(fs[i as int] == frame@);
        i = i + 1;
    }
    assert(fs.take(i as int) == fs);
    r
}

/// The read steps for one pass through the frame sequence: one per packed
/// channel, frame after frame.
pub fn build_read_sequence(descriptor: &DataFileDescriptor, outputs: &Vec<DataType>) -> (r: Vec<ReadStep>)
    requires
        forall|k: int|
            0 <= k < packed_sequence(descriptor.frames()).len() ==> has_outputs(
                outputs@,
                #[trigger] packed_sequence(descriptor.frames())[k],
            ),
        forall|k: int|
            0 <= k < packed_sequence(descriptor.frames()).len() ==> !(
            #[trigger] packed_sequence(descriptor.frames())[k] is LoneSwitch),
    ensures
        steps_view(r@) == packed_sequence(descriptor.frames()).map_values(
            |t: DataType| spec_step(outputs@, t),
        ),
{
    let channels = packed_channels_of(descriptor);
    let mut read_sequence: Vec<ReadStep> = Vec::new();
    let mut k: usize = 0;
    while k < channels.len()
        invariant
            channels@ == packed_sequence(descriptor.frames()),
            forall|k: int|
                0 <= k < channels@.len() ==> has_outputs(outputs@, #[trigger] channels@[k]),
            forall|k: int| 0 <= k < channels@.len() ==> !(#[trigger] channels@[k] is LoneSwitch),
            k <= channels@.len(),
            steps_view(read_sequence@) == channels@.take(k as int).map_values(
                |t: DataType| spec_step(outputs@, t),
            ),
        decreases channels@.len() - k,
    {
        let typ = channels[k];
        let step = ReadStep {
            num_bytes: typ.num_packed_bytes(),
            unpacker: typ,
            destinations: find_outputs(outputs, &typ),
        };
        assert(step_view(step) == spec_step(outputs@, typ));
        let ghost before = read_sequence@;
        read_sequence.push(step);
        assert(steps_view(read_sequence@) =~= steps_view(before).push(step_view(step)));
        assert(channels@.take(k + 1).map_values(|t: DataType| spec_step(outputs@, t))
            =~= channels@.take(k as int).map_values(|t: DataType| spec_step(outputs@, t)).push(
            spec_step(outputs@, typ),
        ));
        assert(steps_view(read_sequence@) =~= channels@.take(k + 1).map_values(
            |t: DataType| spec_step(outputs@, t),
        ));
        k = k + 1;
    }
    assert(channels@.take(k as int) == channels@);
    read_sequence
}


proof fn lemma_occurrences_absent(s: Seq<DataType>, t: DataType)
    requires
        !distinct_types(s).contains(t),
    ensures
        occurrences(s, t) == 0,
    decreases s.len(),
{
    if s.len() > 0 {
        let d = distinct_types(s.drop_last());
        if d.contains(s.last()) {
            lemma_occurrences_absent(s.drop_last(), t);
        } else {
            assert(d.push(s.last()).contains(s.last()) ==> true);
            assert(distinct_types(s) == d.push(s.last()));
            assert(distinct_types(s)[d.len() as int] == s.last());
            assert forall|j: int| 0 <= j < d.len() implies d[j] != t by {
                assert(distinct_types(s)[j] == d[j]);
            }
            lemma_occurrences_absent(s.drop_last(), t);
        }
    }
}

proof fn lemma_distinct_no_duplicates(s: Seq<DataType>)
    ensures
        distinct_types(s).no_duplicates(),
    decreases s.len(),
{
    if s.len() > 0 {
        lemma_distinct_no_duplicates(s.drop_last());
    }
}

proof fn lemma_occurrences_prefix(s: Seq<DataType>, k: int, t: DataType)
    requires
        0 <= k <= s.len(),
    ensures
        occurrences(s.take(k), t) <= occurrences(s, t),
    decreases s.len() - k,
{
    if k < s.len() {
        assert(s.take(k + 1).drop_last() == s.take(k));
        lemma_occurrences_prefix(s, k + 1, t);
    } else {
        assert(s.take(k) == s);
    }
}

/// The position of `t` in `types`, if it is there.
fn position_of(types: &Vec<DataType>, t: &DataType) -> (r: Option<usize>)
    ensures
        r matches Some(i) ==> i < types@.len() && types@[i as int] == *t,
        r is None ==> !types@.contains(*t),
{
    let mut i: usize = 0;
    while i < types.len()
        invariant
            i <= types@.len(),
            forall|j: int| 0 <= j < i ==> types@[j] != *t,
        decreases types@.len() - i,
    {
        if same_type(&types[i], t) {
            return Some(i);
        }
        i = i + 1;
    }
    None
}

/// The unpacked types of the packed channels `chs`, in order.
fn unpacked_channels_of(chs: &Vec<DataType>) -> (r: Vec<DataType>)
    ensures
        r@ == unpacked_sequence(chs@),
{
    let mut r: Vec<DataType> = Vec::new();
    let mut i: usize = 0;
    while i < chs.len()
        invariant
            i <= chs@.len(),
            r@ == unpacked_sequence(chs@.take(i as int)),
        decreases chs@.len() - i,
    {
        assert(chs@.take(i + 1).drop_last() == chs@.take(i as int));
        let mut u = chs[i].unpacked_types();
        r.append(&mut u);
        i = i + 1;
    }
    assert(chs@.take(i as int) == chs@);
    r
}

/// The unpacked types of a data file descriptor's values, in order.
pub open spec fn all_unpacked(descriptor: DataFileDescriptor) -> Seq<DataType> {
    unpacked_sequence(packed_sequence(descriptor.frames()))
}

/// Some unpacked type appears more than 255 times in one pass through the
/// frame sequence, too often for its multiple of the base sample rate to fit
/// in a byte.
pub open spec fn rate_overflows(descriptor: DataFileDescriptor) -> bool {
    exists|t: DataType| occurrences(all_unpacked(descriptor), t) > 255
}

/// The outputs of a data file: each unpacked type once, in order of first
/// appearance, with the number of times it appears in one pass through the
/// frame sequence (the multiple of the base sample rate it is sampled at).
/// `None` when such a number does not fit in a byte.
pub fn get_output_info(descriptor: &DataFileDescriptor) -> (r: Option<(Vec<DataType>, Vec<u8>)>)
    ensures
        r is None <==> rate_overflows(*descriptor),
        r matches Some((outputs, multipliers)) ==> {
            &&& outputs@ == distinct_types(all_unpacked(*descriptor))
            &&& multipliers@.len() == outputs@.len()
            &&& forall|i: int|
                0 <= i < outputs@.len() ==> #[trigger] multipliers@[i] == occurrences(
                    all_unpacked(*descriptor),
                    outputs@[i],
                )
        },
{
    let channels = packed_channels_of(descriptor);
    let all = unpacked_channels_of(&channels);
    let ghost u = all@;
    let mut types: Vec<DataType> = Vec::new();
    let mut counts: Vec<u8> = Vec::new();
    let mut k: usize = 0;
    while k < all.len()
        invariant
            u == all@,
            u == all_unpacked(*descriptor),
            k <= u.len(),
            types@ == distinct_types(u.take(k as int)),
            counts@.len() == types@.len(),
            forall|i: int|
                0 <= i < types@.len() ==> #[trigger] counts@[i] == occurrences(
                    u.take(k as int),
                    types@[i],
                ),
        decreases u.len() - k,
    {
        let typ = all[k];
        assert(u.take(k + 1).drop_last() == u.take(k as int));
        assert(u.take(k + 1).last() == typ);
        proof {
            lemma_occurrences_prefix(u, k + 1, typ);
        }
        proof {
            lemma_distinct_no_duplicates(u.take(k as int));
        }
        let ghost before_counts = counts@;
        match position_of(&types, &typ) {
            Some(i) => {
                let c = counts[i];
                if c == 255 {
                    assert(occurrences(u.take(k + 1), typ) == 256);
                    assert(occurrences(all_unpacked(*descriptor), typ) > 255);
                    return None;
                }
                counts.set(i, c + 1);
                assert forall|j: int| 0 <= j < types@.len() implies #[trigger] counts@[j]
                    == occurrences(u.take(k + 1), types@[j]) by {
                    if j != i {
                        assert(types@[j] != types@[i as int]);
                    }
                }
            },
            None => {
                proof {
                    lemma_occurrences_absent(u.take(k as int), typ);
                }
                types.push(typ);
                counts.push(1);
                assert forall|j: int| 0 <= j < types@.len() implies #[trigger] counts@[j]
                    == occurrences(u.take(k + 1), types@[j]) by {
                    if j < types@.len() - 1 {
                        assert(counts@[j] == before_counts[j]);
                        assert(types@[j] != typ);
                    }
                }
            },
        }
        k = k + 1;
    }
    assert(u.take(k as int) == u);
    assert forall|t: DataType| occurrences(all_unpacked(*descriptor), t) <= 255 by {
        if types@.contains(t) {
            let i = choose|i: int| 0 <= i < types@.len() && types@[i] == t;
            assert(counts@[i] == occurrences(u, t));
        } else {
            lemma_occurrences_absent(u, t);
        }
    }
    Some((types, counts))
}

/// The writes of zipping destinations with values: each value goes to the
/// output at the same position, as far as both sequences go.
pub open spec fn zip_writes(dests: Seq<usize>, values: Seq<u32>) -> Seq<(usize, u32)> {
    let n = if dests.len() <= values.len() {
        dests.len()
    } else {
        values.len()
    };
    Seq::new(n, |i: int| (dests[i], values[i]))
}

/// The writes of one read step on the bytes that start at its data: each
/// unpacked value, by the bit pattern of its `f32`, with its output; or `Err`
/// when the data is corrupt.
pub open spec fn spec_step_writes(step: (usize, DataType, Seq<usize>), bytes: Seq<u8>) -> Result<
    Seq<(usize, u32)>,
    (),
> {
    match spec_unpack(step.1, bytes.take(step.0 as int)) {
        Ok(values) => Ok(zip_writes(step.2, values)),
        Err(e) => Err(e),
    }
}

/// The number of bytes that the read steps `steps` consume.
pub open spec fn steps_len(steps: Seq<(usize, DataType, Seq<usize>)>) -> nat
    decreases steps.len(),
{
    if steps.len() == 0 {
        0
    } else {
        steps_len(steps.drop_last()) + steps.last().0 as nat
    }
}

/// The writes of running the read steps `steps` one after the other on a
/// decoded frame sequence, each step on the bytes after those of the steps
/// before it; `Err` when a step finds corrupt data.
pub open spec fn spec_frame_writes(steps: Seq<(usize, DataType, Seq<usize>)>, frame: Seq<u8>) -> Result<
    Seq<(usize, u32)>,
    (),
>
    decreases steps.len(),
{
    if steps.len() == 0 {
        Ok(Seq::empty())
    } else {
        match spec_frame_writes(steps.drop_last(), frame) {
            Ok(before) => match spec_step_writes(
                steps.last(),
                frame.skip(steps_len(steps.drop_last()) as int),
            ) {
                Ok(last) => Ok(before + last),
                Err(e) => Err(e),
            },
            Err(e) => Err(e),
        }
    }
}

/// A read step reads as many bytes as its data type packs into.
pub open spec fn step_fits(step: (usize, DataType, Seq<usize>)) -> bool {
    &&& step.0 == spec_num_packed_bytes(step.1)
    &&& !(step.1 is LoneSwitch)
}

/// The plain value of the result of unpacking values.
pub open spec fn writes_view(r: Result<Vec<(usize, u32)>, ()>) -> Result<Seq<(usize, u32)>, ()> {
    match r {
        Ok(w) => Ok(w@),
        Err(e) => Err(e),
    }
}

/// Unpacks the data of one read step from the start of `frame_ptr` and pairs
/// each value with the output it goes to.
pub fn execute_read_step(step: &ReadStep, frame_ptr: &[u8]) -> (r: Result<Vec<(usize, u32)>, ()>)
    requires
        step_fits(step_view(*step)),
        step.num_bytes <= frame_ptr@.len(),
    ensures
        writes_view(r) == spec_step_writes(step_view(*step), frame_ptr@),
{
    let data = vstd::slice::slice_subrange(frame_ptr, 0, step.num_bytes);
    assert(data@ == frame_ptr@.take(step.num_bytes as int));
    let values = match step.unpacker.unpack_bits(data) {
        Ok(values) => values,
        Err(e) => {
            return Err(e);
        },
    };
    let n = if step.destinations.len() <= values.len() {
        step.destinations.len()
    } else {
        values.len()
    };
    let mut writes: Vec<(usize, u32)> = Vec::new();
    let mut i: usize = 0;
    while i < n
        invariant
            n <= step.destinations@.len(),
            n <= values@.len(),
            i <= n,
            writes@ == zip_writes(step.destinations@, values@).take(i as int),
            zip_writes(step.destinations@, values@).len() == n,
        decreases n - i,
    {
        writes.push((step.destinations[i], values[i]));
        assert(writes@ =~= zip_writes(step.destinations@, values@).take(i + 1));
        i = i + 1;
    }
    assert(writes@ =~= zip_writes(step.destinations@, values@));
    Ok(writes)
}

proof fn lemma_steps_len_take(steps: Seq<(usize, DataType, Seq<usize>)>, k: int)
    requires
        0 <= k < steps.len(),
    ensures
        steps_len(steps.take(k + 1)) == steps_len(steps.take(k)) + steps[k].0,
        steps_len(steps.take(k)) + steps[k].0 <= steps_len(steps),
    decreases steps.len() - k,
{
    assert(steps.take(k + 1).drop_last() == steps.take(k));
    if k + 1 < steps.len() {
        lemma_steps_len_take(steps, k + 1);
    } else {
        assert(steps.take(k + 1) == steps);
    }
}

/// Runs the read steps of one pass through the frame sequence on a decoded
/// frame sequence and collects the writes of all its values, in order.
pub fn run_read_sequence(read_sequence: &Vec<ReadStep>, frame: &[u8]) -> (r: Result<
    Vec<(usize, u32)>,
    (),
>)
    requires
        forall|k: int|
            0 <= k < read_sequence@.len() ==> step_fits(#[trigger] step_view(read_sequence@[k])),
        steps_len(steps_view(read_sequence@)) <= frame@.len(),
    ensures
        writes_view(r) == spec_frame_writes(steps_view(read_sequence@), frame@),
{
    let ghost steps = steps_view(read_sequence@);
    let mut writes: Vec<(usize, u32)> = Vec::new();
    let mut offset: usize = 0;
    let mut k: usize = 0;
    while k < read_sequence.len()
        invariant
            steps == steps_view(read_sequence@),
            forall|k: int|
                0 <= k < read_sequence@.len() ==> step_fits(#[trigger] step_view(read_sequence@[k])),
            steps_len(steps) <= frame@.len(),
            k <= steps.len(),
            offset == steps_len(steps.take(k as int)),
            spec_frame_writes(steps.take(k as int), frame@) == Ok::<Seq<(usize, u32)>, ()>(
                writes@,
            ),
        decreases steps.len() - k,
    {
        let step = &read_sequence[k];
        assert(steps[k as int] == step_view(*step));
        proof {
            lemma_steps_len_take(steps, k as int);
        }
        assert(steps.take(k + 1).drop_last() == steps.take(k as int));
        assert(steps.take(k + 1).last() == step_view(*step));
        let rest = vstd::slice::slice_subrange(frame, offset, frame.len());
        assert(rest@ == frame@.skip(offset as int));
        let mut step_writes = match execute_read_step(step, rest) {
            Ok(w) => w,
            Err(e) => {
                assert(spec_frame_writes(steps, frame@) is Err) by {
                    lemma_frame_writes_err(steps, frame@, k + 1);
                }
                return Err(e);
            },
        };
        writes.append(&mut step_writes);
        offset = offset + step.num_bytes;
        k = k + 1;
    }
    assert(steps.take(k as int) == steps);
    Ok(writes)
}

/// Once a prefix of the steps fails, running all of them fails.
proof fn lemma_frame_writes_err(steps: Seq<(usize, DataType, Seq<usize>)>, frame: Seq<u8>, k: int)
    requires
        0 <= k <= steps.len(),
        spec_frame_writes(steps.take(k), frame) is Err,
    ensures
        spec_frame_writes(steps, frame) is Err,
    decreases steps.len() - k,
{
    if k < steps.len() {
        assert(steps.take(k + 1).drop_last() == steps.take(k));
        lemma_frame_writes_err(steps, frame, k + 1);
    } else {
        assert(steps.take(k) == steps);
    }
}


/// Every packed channel of a valid frame sequence can be read by a step.
pub proof fn lemma_packed_sequence_packable(frames: Seq<Seq<DataType>>)
    requires
        forall|i: int| 0 <= i < frames.len() ==> all_packable(#[trigger] frames[i]),
    ensures
        all_packable(packed_sequence(frames)),
    decreases frames.len(),
{
    if frames.len() > 0 {
        let prefix = frames.drop_last();
        assert forall|i: int| 0 <= i < prefix.len() implies all_packable(#[trigger] prefix[i]) by {
            assert(prefix[i] == frames[i]);
        }
        lemma_packed_sequence_packable(prefix);
        let all = packed_sequence(frames);
        assert(all == packed_sequence(prefix) + frames.last());
        assert(all_packable(frames[frames.len() - 1]));
        assert forall|i: int| 0 <= i < all.len() implies !(#[trigger] all[i] is LoneSwitch) by {
            if i >= packed_sequence(prefix).len() {
                assert(all[i] == frames.last()[i - packed_sequence(prefix).len()]);
            }
        }
    }
}

/// Whatever occurs in `s` occurs among its distinct items.
proof fn lemma_distinct_contains(s: Seq<DataType>, t: DataType)
    requires
        s.contains(t),
    ensures
        distinct_types(s).contains(t),
    decreases s.len(),
{
    let d = distinct_types(s.drop_last());
    if s.last() == t {
        if !d.contains(t) {
            assert(d.push(t)[d.len() as int] == t);
        }
    } else {
        let k = choose|k: int| 0 <= k < s.len() && s[k] == t;
        assert(s.drop_last()[k] == t);
        lemma_distinct_contains(s.drop_last(), t);
        let j = choose|j: int| 0 <= j < d.len() && d[j] == t;
        if !d.contains(s.last()) {
            assert(d.push(s.last())[j] == t);
        }
    }
}

/// Each unpacked type of each packed channel occurs in the unpacked sequence.
proof fn lemma_unpacked_sequence_contains(chs: Seq<DataType>, k: int, j: int)
    requires
        0 <= k < chs.len(),
        0 <= j < spec_unpacked_types(chs[k]).len(),
    ensures
        unpacked_sequence(chs).contains(spec_unpacked_types(chs[k])[j]),
    decreases chs.len(),
{
    let prefix = unpacked_sequence(chs.drop_last());
    let all = unpacked_sequence(chs);
    if k == chs.len() - 1 {
        assert(all[prefix.len() + j] == spec_unpacked_types(chs[k])[j]);
    } else {
        assert(chs.drop_last()[k] == chs[k]);
        lemma_unpacked_sequence_contains(chs.drop_last(), k, j);
        let i = choose|i: int| 0 <= i < prefix.len() && prefix[i] == spec_unpacked_types(chs[k])[j];
        assert(all[i] == prefix[i]);
    }
}

/// The packed length of two sequences of channels one after the other.
proof fn lemma_packed_len_append(a: Seq<DataType>, b: Seq<DataType>)
    ensures
        spec_packed_len(a + b) == spec_packed_len(a) + spec_packed_len(b),
    decreases b.len(),
{
    if b.len() > 0 {
        assert((a + b).drop_last() == a + b.drop_last());
        lemma_packed_len_append(a, b.drop_last());
    } else {
        assert(a + b == a);
    }
}

/// One pass through the frame sequence packs as many bytes as its channels.
proof fn lemma_packed_sequence_len(frames: Seq<Seq<DataType>>)
    ensures
        spec_packed_len(packed_sequence(frames)) == sequence_size(frames),
    decreases frames.len(),
{
    if frames.len() > 0 {
        lemma_packed_sequence_len(frames.drop_last());
        lemma_packed_len_append(packed_sequence(frames.drop_last()), frames.last());
    }
}

/// The read steps of channels consume as many bytes as the channels pack.
pub proof fn lemma_steps_len(outputs: Seq<DataType>, chs: Seq<DataType>)
    ensures
        steps_len(chs.map_values(|t: DataType| spec_step(outputs, t))) == spec_packed_len(chs),
    decreases chs.len(),
{
    let steps = chs.map_values(|t: DataType| spec_step(outputs, t));
    if chs.len() > 0 {
        assert(steps.drop_last() == chs.drop_last().map_values(|t: DataType| spec_step(outputs, t)));
        lemma_steps_len(outputs, chs.drop_last());
        assert(steps.last() == spec_step(outputs, chs.last()));
        assert(spec_num_packed_bytes(chs.last()) <= 4);
    }
}

/// The outputs of a data file descriptor: each unpacked type once, in order of
/// first appearance.
pub open spec fn spec_outputs(descriptor: DataFileDescriptor) -> Seq<DataType> {
    distinct_types(all_unpacked(descriptor))
}

/// The read steps for one pass through a data file descriptor's frame sequence.
pub open spec fn spec_read_sequence(descriptor: DataFileDescriptor) -> Seq<(usize, DataType, Seq<usize>)> {
    packed_sequence(descriptor.frames()).map_values(
        |t: DataType| spec_step(spec_outputs(descriptor), t),
    )
}

/// The writes of unpacking the first `m` frame sequences of `input`, each
/// `size` bytes long: each is Hamming decoded and then run through `steps`;
/// `Err` when one of them is corrupt.
pub open spec fn spec_file_writes(
    steps: Seq<(usize, DataType, Seq<usize>)>,
    input: Seq<u8>,
    size: nat,
    m: nat,
) -> Result<Seq<(usize, u32)>, ()>
    decreases m,
{
    if m == 0 {
        Ok(Seq::empty())
    } else {
        match spec_file_writes(steps, input, size, (m - 1) as nat) {
            Ok(before) => match decoded_blocks(
                input.subrange((m - 1) * size, (m * size) as int),
                size / 8,
            ) {
                Some(frame) => match spec_frame_writes(steps, frame) {
                    Ok(last) => Ok(before + last),
                    Err(e) => Err(e),
                },
                None => Err(()),
            },
            Err(e) => Err(e),
        }
    }
}

/// Once the first `m` frame sequences fail, so do all that follow.
proof fn lemma_file_writes_err(
    steps: Seq<(usize, DataType, Seq<usize>)>,
    input: Seq<u8>,
    size: nat,
    m: nat,
    n: nat,
)
    requires
        m <= n,
        spec_file_writes(steps, input, size, m) is Err,
    ensures
        spec_file_writes(steps, input, size, n) is Err,
    decreases n - m,
{
    if m < n {
        lemma_file_writes_err(steps, input, size, m, (n - 1) as nat);
    }
}

/// Why a packed data file could not be unpacked.
#[derive(Clone, Copy, Debug, PartialEq, Eq)]
pub enum UnpackError {
    /// An unpacked type appears more than 255 times in one pass through the
    /// frame sequence.
    RateOverflow,
    /// A frame sequence fails its Hamming decoding or a mux check.
    CorruptData,
}

/// The byte count at the last progress report, and the reports made, when
/// `m` frame sequences of `size` bytes of a file of `total` bytes have been
/// read: a report of the bytes so far and the total each time more than ten
/// million bytes have passed since the last one.
pub open spec fn batch_progress(total: u64, size: nat, m: nat) -> (nat, Seq<(u64, u64)>)
    decreases m,
{
    if m == 0 {
        (0, Seq::empty())
    } else {
        let (last, reports) = batch_progress(total, size, (m - 1) as nat);
        let so_far = m * size;
        if so_far - last > REPORT_INTERVAL {
            (so_far, reports.push((so_far as u64, total)))
        } else {
            (last, reports)
        }
    }
}

/// Unpacks a packed data file: the outputs, each with the multiple of the base
/// sample rate it is sampled at, the writes of every value to its output, in
/// the order of the file, and the progress reports, in order. Each whole frame
/// sequence of `input` is Hamming decoded and read step by step; bytes after
/// the last whole one are ignored. Progress is reported every ten million
/// bytes or so.
pub fn unpack(
    descriptor: &DataFileDescriptor,
    input: &[u8],
) -> (r: Result<(Vec<DataType>, Vec<u8>, Vec<(usize, u32)>, Vec<(u64, u64)>), UnpackError>)
    requires
        sequence_size(descriptor.frames()) > 0,
    ensures
        rate_overflows(*descriptor) ==> r == Err::<
            (Vec<DataType>, Vec<u8>, Vec<(usize, u32)>, Vec<(u64, u64)>),
            UnpackError,
        >(UnpackError::RateOverflow),
        !rate_overflows(*descriptor) ==> {
            &&& r is Ok <==> spec_file_writes(
                spec_read_sequence(*descriptor),
                input@,
                sequence_size(descriptor.frames()),
                input@.len() / sequence_size(descriptor.frames()),
            ) is Ok
            &&& r matches Err(e) ==> e == UnpackError::CorruptData
        },
        r matches Ok((outputs, multipliers, writes, reports)) ==> {
            &&& reports@ == batch_progress(
                input@.len() as u64,
                sequence_size(descriptor.frames()),
                input@.len() / sequence_size(descriptor.frames()),
            ).1
            &&& outputs@ == spec_outputs(*descriptor)
            &&& multipliers@.len() == outputs@.len()
            &&& forall|i: int|
                0 <= i < outputs@.len() ==> #[trigger] multipliers@[i] == occurrences(
                    all_unpacked(*descriptor),
                    outputs@[i],
                )
            &&& spec_file_writes(
                spec_read_sequence(*descriptor),
                input@,
                sequence_size(descriptor.frames()),
                input@.len() / sequence_size(descriptor.frames()),
            ) == Ok::<Seq<(usize, u32)>, ()>(writes@)
        },
{
    let frames = descriptor.frame_sequence();
    let ghost fs = descriptor.frames();
    let size = descriptor.frame_sequence_size();
    let (outputs, multipliers) = match get_output_info(descriptor) {
        Some(info) => info,
        None => {
            return Err(UnpackError::RateOverflow);
        },
    };
    let ghost chs = packed_sequence(fs);
    proof {
        lemma_packed_sequence_packable(fs);
        assert forall|k: int| 0 <= k < chs.len() implies has_outputs(outputs@, #[trigger] chs[k]) by {
            assert forall|j: int| 0 <= j < spec_unpacked_types(chs[k]).len() implies outputs@.contains(
                #[trigger] spec_unpacked_types(chs[k])[j],
            ) by {
                lemma_unpacked_sequence_contains(chs, k, j);
                lemma_distinct_contains(unpacked_sequence(chs), spec_unpacked_types(chs[k])[j]);
            }
        }
    }
    let read_sequence = build_read_sequence(descriptor, &outputs);
    let ghost steps = steps_view(read_sequence@);
    proof {
        assert(steps == spec_read_sequence(*descriptor));
        lemma_steps_len(outputs@, chs);
        lemma_packed_sequence_len(fs);
        assert forall|k: int| 0 <= k < read_sequence@.len() implies step_fits(
            #[trigger] step_view(read_sequence@[k]),
        ) by {
            assert(steps[k] == step_view(read_sequence@[k]));
            assert(steps[k] == spec_step(outputs@, chs[k]));
        }
    }
    let mut progress_tracker = ProgressTracker::new(input.len() as u64);
    let mut writes: Vec<(usize, u32)> = Vec::new();
    let mut reports: Vec<(u64, u64)> = Vec::new();
    let mut pos: usize = 0;
    let ghost mut m: nat = 0;
    while size <= input.len() - pos
        invariant
            steps == steps_view(read_sequence@),
            steps == spec_read_sequence(*descriptor),
            forall|k: int|
                0 <= k < read_sequence@.len() ==> step_fits(#[trigger] step_view(read_sequence@[k])),
            steps_len(steps) == size,
            size == sequence_size(fs),
            fs == descriptor.frames(),
            !rate_overflows(*descriptor),
            size > 0,
            size % 8 == 0,
            pos <= input@.len(),
            pos == m * size,
            progress_tracker.so_far() == pos,
            progress_tracker.total() == input@.len(),
            progress_tracker.last() == batch_progress(input@.len() as u64, size as nat, m).0,
            reports@ == batch_progress(input@.len() as u64, size as nat, m).1,
            spec_file_writes(steps, input@, size as nat, m) == Ok::<Seq<(usize, u32)>, ()>(
                writes@,
            ),
        decreases input@.len() - pos,
    {
        let next = pos + size;
        assert(next == (m + 1) * size) by (nonlinear_arith)
            requires
                pos == m * size,
                next == pos + size,
        ;
        assert(m + 1 <= input@.len() / (size as nat)) by (nonlinear_arith)
            requires
                next == (m + 1) * size,
                next <= input@.len(),
                size > 0,
        ;
        let mut data_frame = vstd::slice::slice_to_vec(
            vstd::slice::slice_subrange(input, pos, next),
        );
        if decode(&mut data_frame).is_err() {
            proof {
                lemma_file_writes_err(steps, input@, size as nat, m + 1, input@.len() / (size as nat));
            }
            return Err(UnpackError::CorruptData);
        }
        let mut frame_writes = match run_read_sequence(&read_sequence, data_frame.as_slice()) {
            Ok(w) => w,
            Err(_) => {
                proof {
                    lemma_file_writes_err(steps, input@, size as nat, m + 1, input@.len() / (size as nat));
                }
                return Err(UnpackError::CorruptData);
            },
        };
        writes.append(&mut frame_writes);
        if let Some(report) = progress_tracker.step(size as u64) {
            reports.push(report);
        }
        pos = next;
        proof {
            m = m + 1;
        }
    }
    assert(m == input@.len() / (size as nat)) by (nonlinear_arith)
        requires
            pos == m * size,
            pos <= input@.len(),
            input@.len() < pos + size,
            size > 0,
    ;
    Ok((outputs, multipliers, writes, reports))
}

/// A read step of padding writes nothing and never fails, whatever its bytes.
pub proof fn law_padding_step_writes_nothing(n: usize, dests: Seq<usize>, bytes: Seq<u8>)
    ensures
        spec_step_writes((n, DataType::Padding, dests), bytes) == Ok::<Seq<(usize, u32)>, ()>(
            Seq::empty(),
        ),
{
    assert(zip_writes(dests, Seq::empty()) =~= Seq::<(usize, u32)>::empty());
}

/// The bytes that padding steps read do not matter: two decoded frame
/// sequences that agree on every byte that a step of another type reads give
/// the same writes, or fail alike.
pub proof fn law_padding_bytes_ignored(
    steps: Seq<(usize, DataType, Seq<usize>)>,
    f1: Seq<u8>,
    f2: Seq<u8>,
)
    requires
        f1.len() == f2.len(),
        steps_len(steps) <= f1.len(),
        forall|k: int, i: int|
            #![trigger steps[k], f1[i]]
            0 <= k < steps.len() && !(steps[k].1 is Padding) && steps_len(steps.take(k)) <= i
                < steps_len(steps.take(k)) + steps[k].0 ==> f1[i] == f2[i],
    ensures
        spec_frame_writes(steps, f1) == spec_frame_writes(steps, f2),
    decreases steps.len(),
{
    if steps.len() > 0 {
        let init = steps.drop_last();
        let m = steps.len() - 1;
        assert(steps.take(m) =~= init);
        assert forall|k: int, i: int|
            #![trigger init[k], f1[i]]
            0 <= k < init.len() && !(init[k].1 is Padding) && steps_len(init.take(k)) <= i
                < steps_len(init.take(k)) + init[k].0 implies f1[i] == f2[i] by {
            assert(init.take(k) =~= steps.take(k));
            assert(steps[k] == init[k]);
        }
        law_padding_bytes_ignored(init, f1, f2);
        let last = steps.last();
        let l = steps_len(init);
        if last.1 is Padding {
            law_padding_step_writes_nothing(last.0, last.2, f1.skip(l as int));
            law_padding_step_writes_nothing(last.0, last.2, f2.skip(l as int));
        } else {
            assert forall|j: int| 0 <= j < last.0 implies #[trigger] f1[l + j] == f2[l + j] by {
                assert(steps[m] == last);
                assert(f1[l + j] == f2[l + j]);
            }
            assert(f1.skip(l as int).take(last.0 as int) =~= f2.skip(l as int).take(last.0 as int));
        }
    }
}

} // verus!
