use vstd::prelude::*;
use crate::data_format::data_type::{
    Axis, DataType, spec_num_packed_bytes, spec_unpacked_types,
};
use crate::text::{spec_debug_text, spec_decimal, push_debug_text, push_decimal};

verus! {

/// The data types of one data frame, in the order in which they are packed.
pub type DataFrameDescriptor = Vec<DataType>;

/// No item of `frame` is a lone switch, which only occurs in unpacked data.
pub open spec fn all_packable(frame: Seq<DataType>) -> bool {
    forall|i: int| 0 <= i < frame.len() ==> !(#[trigger] frame[i] is LoneSwitch)
}

/// The number of packed bytes of all the items of `frame`.
pub open spec fn spec_packed_len(frame: Seq<DataType>) -> nat
    decreases frame.len(),
{
    if frame.len() == 0 {
        0
    } else {
        spec_packed_len(frame.drop_last()) + spec_num_packed_bytes(frame.last())
    }
}

/// The byte range `[start, start + len)` of a frame includes a byte reserved for
/// a Hamming code: the eighth byte of a block, at a position that leaves 7
/// when divided by 8.
pub open spec fn covers_reserved_byte(start: nat, len: nat) -> bool {
    start / 8 != (start + len) / 8
}

/// Item `i` of `frame` occupies a byte reserved for a Hamming code without
/// being padding.
pub open spec fn blocks_hamming_code(frame: Seq<DataType>, i: int) -> bool {
    &&& covers_reserved_byte(spec_packed_len(frame.take(i)), spec_num_packed_bytes(frame[i]))
    &&& !(frame[i] is Padding)
}

/// Every reserved byte of `frame` is padding, and the frame is a whole number
/// of eight-byte blocks.
pub open spec fn hamming_compatible(frame: Seq<DataType>) -> bool {
    &&& forall|i: int| 0 <= i < frame.len() ==> !#[trigger] blocks_hamming_code(frame, i)
    &&& spec_packed_len(frame) % 8 == 0
}

/// The message for the item `t` at `index` that occupies a reserved byte.
pub open spec fn spec_item_message(t: DataType, index: nat) -> Seq<char> {
    "The "@ + spec_debug_text(t) + " at index "@ + spec_decimal(index)
        + " is incompatible with a Hamming code"@
}

/// The message for a frame of `size` bytes that is not a whole number of blocks.
pub open spec fn spec_size_message(size: nat) -> Seq<char> {
    "Data frame size must be a multiple of 8 bytes, got "@ + spec_decimal(size) + " instead."@
}

pub proof fn lemma_packed_len_take(frame: Seq<DataType>, i: int)
    requires
        0 <= i < frame.len(),
    ensures
        spec_packed_len(frame.take(i + 1)) == spec_packed_len(frame.take(i))
            + spec_num_packed_bytes(frame[i]),
{
    assert(frame.take(i + 1).drop_last() == frame.take(i));
}

pub proof fn lemma_packed_len_bound(frame: Seq<DataType>)
    ensures
        spec_packed_len(frame) <= 4 * frame.len(),
    decreases frame.len(),
{
    if frame.len() > 0 {
        lemma_packed_len_bound(frame.drop_last());
    }
}

/// Checks that every eighth byte is a padding byte so that a hamming code can
/// be added to the data.
pub fn check_hamming_code_compatibility(dfd: &DataFrameDescriptor) -> (r: Result<(), String>)
    requires
        all_packable(dfd@),
        dfd@.len() <= usize::MAX / 8,
    ensures
        r is Ok <==> hamming_compatible(dfd@),
        r matches Err(m) ==> ({
            ||| exists|i: int|
                0 <= i < dfd@.len() && #[trigger] blocks_hamming_code(dfd@, i) && (forall|j: int|
                    0 <= j < i ==> !#[trigger] blocks_hamming_code(dfd@, j)) && m@
                    == spec_item_message(dfd@[i], i as nat)
            ||| (forall|i: int|
                0 <= i < dfd@.len() ==> !#[trigger] blocks_hamming_code(dfd@, i)) && m@
                == spec_size_message(spec_packed_len(dfd@))
        }),
{
    let mut byte_counter: usize = 0;
    let mut next_hamming_code_byte: usize = 8;
    let mut index: usize = 0;
    while index < dfd.len()
        invariant
            all_packable(dfd@),
            dfd@.len() <= usize::MAX / 8,
            index <= dfd@.len(),
            byte_counter == spec_packed_len(dfd@.take(index as int)),
            byte_counter <= 4 * index,
            next_hamming_code_byte % 8 == 0,
            byte_counter < next_hamming_code_byte <= byte_counter + 8,
            forall|j: int| 0 <= j < index ==> !#[trigger] blocks_hamming_code(dfd@, j),
        decreases dfd@.len() - index,
    {
        let typ = &dfd[index];
        proof {
            lemma_packed_len_take(dfd@, index as int);
        }
        let start = byte_counter;
        byte_counter = byte_counter + typ.num_packed_bytes();
        assert(covers_reserved_byte(start as nat, spec_num_packed_bytes(*typ)) == (byte_counter
            >= next_hamming_code_byte));
        if byte_counter >= next_hamming_code_byte {
            if matches!(typ, DataType::Padding) {
                // The counter just advanced by a single byte, so it landed
                // exactly on the reserved byte.
                next_hamming_code_byte = next_hamming_code_byte + 8;
            } else {
                let mut m = String::new();
                proof {
                    reveal_strlit("The ");
                    reveal_strlit(" at index ");
                    reveal_strlit(" is incompatible with a Hamming code");
                }
                m.append("The ");
                push_debug_text(&mut m, typ);
                m.append(" at index ");
                push_decimal(&mut m, index as u64);
                m.append(" is incompatible with a Hamming code");
                assert(blocks_hamming_code(dfd@, index as int));
                return Err(m);
            }
        }
        index = index + 1;
    }
    assert(dfd@.take(dfd@.len() as int) == dfd@);
    if byte_counter % 8 == 0 {
        Ok(())
    } else {
        let mut m = String::new();
        proof {
            reveal_strlit("Data frame size must be a multiple of 8 bytes, got ");
            reveal_strlit(" instead.");
        }
        m.append("Data frame size must be a multiple of 8 bytes, got ");
        push_decimal(&mut m, byte_counter as u64);
        m.append(" instead.");
        Err(m)
    }
}



/// The plain values of a sequence of data frames.
pub open spec fn frames_of(v: Seq<DataFrameDescriptor>) -> Seq<Seq<DataType>> {
    v.map_values(|f: DataFrameDescriptor| f@)
}

/// The total number of packed bytes of a sequence of data frames.
pub open spec fn sequence_size(frames: Seq<Seq<DataType>>) -> nat
    decreases frames.len(),
{
    if frames.len() == 0 {
        0
    } else {
        sequence_size(frames.drop_last()) + spec_packed_len(frames.last())
    }
}

/// Every frame can be packed and leaves room for Hamming codes, and the whole
/// sequence is small enough to count in a `usize`.
pub open spec fn valid_frame_sequence(frames: Seq<Seq<DataType>>) -> bool {
    &&& forall|i: int|
        0 <= i < frames.len() ==> {
            &&& all_packable(#[trigger] frames[i])
            &&& frames[i].len() <= usize::MAX / 8
            &&& hamming_compatible(frames[i])
        }
    &&& sequence_size(frames) <= usize::MAX
}

/// A data file whose frames all share one sample rate and follow each other
/// in a fixed sequence.
pub struct DataFileDescriptor {
    sample_rate: i32,
    frame_sequence: Vec<DataFrameDescriptor>,
}

impl DataFileDescriptor {
    #[verifier::type_invariant]
    spec fn valid(self) -> bool {
        valid_frame_sequence(frames_of(self.frame_sequence@))
    }

    /// The frames of the sequence, as plain values.
    pub closed spec fn frames(self) -> Seq<Seq<DataType>> {
        frames_of(self.frame_sequence@)
    }

    /// The sample rate, in samples per second.
    pub closed spec fn spec_rate(self) -> i32 {
        self.sample_rate
    }

    /// Creates a descriptor from frames that all leave room for Hamming codes.
    pub fn new(sample_rate: i32, frame_sequence: Vec<DataFrameDescriptor>) -> (r: Self)
        requires
            valid_frame_sequence(frames_of(frame_sequence@)),
        ensures
            r.frames() == frames_of(frame_sequence@),
            r.spec_rate() == sample_rate,
    {
        Self { sample_rate, frame_sequence }
    }

    /// Get a reference to the data file descriptor's sample rate.
    pub fn sample_rate(&self) -> (r: i32)
        ensures
            r == self.spec_rate(),
    {
        self.sample_rate
    }

    /// Get a reference to the data file descriptor's frame sequence.
    pub fn frame_sequence(&self) -> (r: &[DataFrameDescriptor])
        ensures
            frames_of(r@) == self.frames(),
            valid_frame_sequence(frames_of(r@)),
    {
        proof {
            use_type_invariant(self);
        }
        self.frame_sequence.as_slice()
    }

    /// The number of packed bytes of one pass through the frame sequence.
    pub fn frame_sequence_size(&self) -> (r: usize)
        ensures
            r == sequence_size(self.frames()),
            r % 8 == 0,
    {
        proof {
            use_type_invariant(self);
        }
        let ghost frames = frames_of(self.frame_sequence@);
        let mut total: usize = 0;
        let mut i: usize = 0;
        while i < self.frame_sequence.len()
            invariant
                frames == frames_of(self.frame_sequence@),
                valid_frame_sequence(frames),
                i <= frames.len(),
                total == sequence_size(frames.take(i as int)),
                total % 8 == 0,
            decreases frames.len() - i,
        {
            assert(frames.take(i + 1).drop_last() == frames.take(i as int));
            proof {
                lemma_sequence_size_prefix(frames, i + 1);
            }
            let frame = &self.frame_sequence[i];
            assert(frame@ == frames[i as int]);
            let n = frame_packed_len(frame);
            total = total + n;
            i = i + 1;
        }
        assert(frames.take(i as int) == frames);
        total
    }
}

proof fn lemma_sequence_size_prefix(frames: Seq<Seq<DataType>>, k: int)
    requires
        0 <= k <= frames.len(),
    ensures
        sequence_size(frames.take(k)) <= sequence_size(frames),
    decreases frames.len() - k,
{
    if k < frames.len() {
        assert(frames.take(k + 1).drop_last() == frames.take(k));
        lemma_sequence_size_prefix(frames, k + 1);
    } else {
        assert(frames.take(k) == frames);
    }
}

/// The number of packed bytes of a data frame.
pub fn frame_packed_len(frame: &DataFrameDescriptor) -> (r: usize)
    requires
        all_packable(frame@),
        frame@.len() <= usize::MAX / 8,
    ensures
        r == spec_packed_len(frame@),
{
    let mut total: usize = 0;
    let mut i: usize = 0;
    while i < frame.len()
        invariant
            all_packable(frame@),
            frame@.len() <= usize::MAX / 8,
            i <= frame@.len(),
            total == spec_packed_len(frame@.take(i as int)),
            total <= 4 * i,
        decreases frame@.len() - i,
    {
        proof {
            lemma_packed_len_take(frame@, i as int);
        }
        total = total + frame[i].num_packed_bytes();
        i = i + 1;
    }
    assert(frame@.take(i as int) == frame@);
    total
}


/// A frame of a packed switch byte, a mux check, a four-byte value and two
/// bytes of padding leaves room for Hamming codes and is one block long.
pub proof fn lemma_padded_frame_compatible(f: Seq<DataType>)
    requires
        f.len() == 5,
        f[0] is PackedSwitch,
        f[1] is MuxCheck,
        !(f[2] is LoneSwitch) && spec_num_packed_bytes(f[2]) == 4,
        f[3] is Padding,
        f[4] is Padding,
    ensures
        all_packable(f),
        hamming_compatible(f),
        spec_packed_len(f) == 8,
{
    assert(f.take(0) =~= Seq::<DataType>::empty());
    lemma_packed_len_take(f, 0);
    lemma_packed_len_take(f, 1);
    lemma_packed_len_take(f, 2);
    lemma_packed_len_take(f, 3);
    lemma_packed_len_take(f, 4);
    assert(f.take(5) == f);
    assert(spec_packed_len(f.take(1)) == 1);
    assert(spec_packed_len(f.take(2)) == 2);
    assert(spec_packed_len(f.take(3)) == 6);
    assert(spec_packed_len(f.take(4)) == 7);
    assert(spec_packed_len(f) == 8);
    assert forall|i: int| 0 <= i < f.len() implies !#[trigger] blocks_hamming_code(f, i) by {
        if i == 0 {
        } else if i == 1 {
        } else if i == 2 {
        } else if i == 3 {
        } else {
        }
    }
}

/// The switch byte of the example frames: switches 0, 1 and 2 in bits 4, 6
/// and 7.
pub open spec fn example_switches() -> [Option<u8>; 8] {
    [None, None, None, None, Some(0u8), None, Some(1u8), Some(2u8)]
}

fn example_frame(check: u8, value: DataType) -> (r: DataFrameDescriptor)
    ensures
        r@ == seq![
            DataType::PackedSwitch(example_switches()),
            DataType::MuxCheck(check),
            value,
            DataType::Padding,
            DataType::Padding,
        ],
{
    let switch_descriptor = DataType::PackedSwitch([None, None, None, None, Some(0u8), None, Some(1u8), Some(2u8)]);
    let mut frame: DataFrameDescriptor = Vec::new();
    frame.push(switch_descriptor);
    frame.push(DataType::MuxCheck(check));
    frame.push(value);
    frame.push(DataType::Padding);
    frame.push(DataType::Padding);
    assert(frame@ =~= seq![
        DataType::PackedSwitch(example_switches()),
        DataType::MuxCheck(check),
        value,
        DataType::Padding,
        DataType::Padding,
    ]);
    frame
}

/// The value sampled in frame `i` of the example: strain gauges 0 to 3, then
/// the accelerometer's X, Y and Z axes.
pub open spec fn example_value(i: int) -> DataType {
    if i < 4 {
        DataType::StrainGauge(i as usize)
    } else if i == 4 {
        DataType::Accelerometer(Axis::X)
    } else if i == 5 {
        DataType::Accelerometer(Axis::Y)
    } else {
        DataType::Accelerometer(Axis::Z)
    }
}

/// The descriptor of the example data files: seven frames at 10 000 samples
/// per second, frame `i` holding the switch byte, mux check `i` and the value
/// `example_value(i)`, padded to eight bytes.
pub fn example_file_descriptor() -> (r: DataFileDescriptor)
    ensures
        r.spec_rate() == 10_000,
        r.frames().len() == 7,
        forall|i: int|
            0 <= i < 7 ==> #[trigger] r.frames()[i] == seq![
                DataType::PackedSwitch(example_switches()),
                DataType::MuxCheck(i as u8),
                example_value(i),
                DataType::Padding,
                DataType::Padding,
            ],
{
    let mut frames: Vec<DataFrameDescriptor> = Vec::new();
    let mut i: u8 = 0;
    while i < 7
        invariant
            i <= 7,
            frames@.len() == i,
            forall|j: int|
                0 <= j < i ==> #[trigger] frames@[j]@ == seq![
                    DataType::PackedSwitch(example_switches()),
                    DataType::MuxCheck(j as u8),
                    example_value(j),
                    DataType::Padding,
                    DataType::Padding,
                ],
        decreases 7 - i,
    {
        let value = if i < 4 {
            DataType::StrainGauge(i as usize)
        } else if i == 4 {
            DataType::Accelerometer(Axis::X)
        } else if i == 5 {
            DataType::Accelerometer(Axis::Y)
        } else {
            DataType::Accelerometer(Axis::Z)
        };
        frames.push(example_frame(i, value));
        i = i + 1;
    }
    let ghost fs = frames_of(frames@);
    assert forall|j: int| 0 <= j < fs.len() implies {
        &&& all_packable(#[trigger] fs[j])
        &&& fs[j].len() <= usize::MAX / 8
        &&& hamming_compatible(fs[j])
    } by {
        lemma_padded_frame_compatible(fs[j]);
    }
    assert(sequence_size(fs) == 56) by {
        assert forall|j: int| 0 <= j < fs.len() implies spec_packed_len(#[trigger] fs[j]) == 8 by {
            lemma_padded_frame_compatible(fs[j]);
        }
        lemma_sequence_size_uniform(fs, 8);
    }
    DataFileDescriptor::new(10_000, frames)
}

proof fn lemma_sequence_size_uniform(frames: Seq<Seq<DataType>>, size: nat)
    requires
        forall|j: int| 0 <= j < frames.len() ==> spec_packed_len(#[trigger] frames[j]) == size,
    ensures
        sequence_size(frames) == frames.len() * size,
    decreases frames.len(),
{
    if frames.len() > 0 {
        assert forall|j: int| 0 <= j < frames.drop_last().len() implies spec_packed_len(
            #[trigger] frames.drop_last()[j],
        ) == size by {
            assert(frames.drop_last()[j] == frames[j]);
        }
        lemma_sequence_size_uniform(frames.drop_last(), size);
        assert(frames.last() == frames[frames.len() - 1]);
        assert((frames.len() - 1) * size + size == frames.len() * size) by (nonlinear_arith);
    }
}

} // verus!
