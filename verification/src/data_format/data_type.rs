use vstd::prelude::*;

verus! {

/// An axis of a three-dimensional sensor.
#[derive(Clone, Copy, Debug, PartialEq, Eq, Hash)]
pub enum Axis {
    X,
    Y,
    Z,
}

/// What a run of packed bytes in a data frame holds.
#[derive(Clone, Copy, Debug, PartialEq, Eq, Hash)]
pub enum DataType {
    /// Indicates a f32 value for a particular axis of the accelerometer.
    Accelerometer(Axis),
    /// Indicates a f32 value recorded by the GPS.
    Gps,
    /// Indicates that a specific byte is expected to indicate the selection
    /// of certain muxes. An error is thrown if this byte is not
    /// exactly found.
    MuxCheck(u8),
    /// Indicates a byte that does not store any information (primarily used
    /// to make room for Hamming codes)
    Padding,
    /// Indicates a f32 value recorded from the strain gauge with this index.
    StrainGauge(usize),
    /// Indicates a byte that only stores if a number of switches are open
    /// or closed. Each bit may optionally contain the value of
    /// another switch, identified by its number.
    PackedSwitch([Option<u8>; 8]),
    /// Indicates a f32 that only stores if a single switch is closed.
    LoneSwitch(u8),
}

/// The bit pattern of the `f32` value `1.0`.
pub open spec fn one_bits() -> u32 {
    0x3f80_0000u32
}

/// The unpacked channels that the switch bits `bits` feed, in bit order: one
/// lone switch for each bit that is assigned to a switch.
pub open spec fn switch_channels(bits: Seq<Option<u8>>) -> Seq<DataType>
    decreases bits.len(),
{
    if bits.len() == 0 {
        Seq::empty()
    } else {
        let prefix = switch_channels(bits.drop_last());
        match bits.last() {
            Some(id) => prefix.push(DataType::LoneSwitch(id)),
            None => prefix,
        }
    }
}

/// The values that a packed switch byte holds: for each assigned bit, in bit
/// order, the bit pattern of `1.0` when the bit is set and of `0.0` when not.
pub open spec fn switch_values(bits: Seq<Option<u8>>, byte: u8) -> Seq<u32>
    decreases bits.len(),
{
    if bits.len() == 0 {
        Seq::empty()
    } else {
        let prefix = switch_values(bits.drop_last(), byte);
        match bits.last() {
            Some(_) => prefix.push(
                if (byte >> (bits.len() - 1) as u8) & 1u8 == 1u8 {
                    one_bits()
                } else {
                    0u32
                },
            ),
            None => prefix,
        }
    }
}

/// The unsigned integer that four bytes encode, least significant first.
pub open spec fn le_u32(b: Seq<u8>) -> int {
    b[0] + 256 * b[1] + 65536 * b[2] + 16777216 * b[3]
}

/// The types of the unpacked streams that data of type `t` unpacks to.
pub open spec fn spec_unpacked_types(t: DataType) -> Seq<DataType> {
    match t {
        DataType::MuxCheck(_) | DataType::Padding => Seq::empty(),
        DataType::PackedSwitch(bits) => switch_channels(bits@),
        _ => seq![t],
    }
}

/// The number of packed bytes that data of type `t` occupies.
pub open spec fn spec_num_packed_bytes(t: DataType) -> nat {
    match t {
        DataType::MuxCheck(_) | DataType::Padding | DataType::PackedSwitch(_) => 1,
        _ => 4,
    }
}

/// The values that the packed bytes `input` of type `t` unpack to, each given
/// by the bit pattern of its `f32`, or `Err` when a mux check does not match.
pub open spec fn spec_unpack(t: DataType, input: Seq<u8>) -> Result<Seq<u32>, ()> {
    match t {
        DataType::MuxCheck(expecting) => if input[0] == expecting {
            Ok(Seq::empty())
        } else {
            Err(())
        },
        DataType::Padding => Ok(Seq::empty()),
        DataType::PackedSwitch(bits) => Ok(switch_values(bits@, input[0])),
        _ => Ok(seq![le_u32(input) as u32]),
    }
}

/// The packed bytes that hold, for data of type `t`, the value with bit pattern
/// `value` (for four-byte types) and the switch states `switches` (one bit per
/// switch bit of a packed switch byte).
pub open spec fn spec_pack(t: DataType, value: u32, switches: u8) -> Seq<u8> {
    match t {
        DataType::MuxCheck(data) => seq![data],
        DataType::Padding => seq![0u8],
        DataType::PackedSwitch(bits) => seq![switch_byte(bits@, switches)],
        _ => seq![
            (value & 0xffu32) as u8,
            ((value >> 8u32) & 0xffu32) as u8,
            ((value >> 16u32) & 0xffu32) as u8,
            ((value >> 24u32) & 0xffu32) as u8,
        ],
    }
}

/// The switch byte that keeps the bits of `switches` that are assigned to a
/// switch and clears the others.
pub open spec fn switch_byte(bits: Seq<Option<u8>>, switches: u8) -> u8 {
    switches & assigned_bits(bits, 8)
}

/// The mask of the first `n` bits of `bits` that are assigned to a switch.
pub open spec fn assigned_bits(bits: Seq<Option<u8>>, n: nat) -> u8
    decreases n,
{
    if n == 0 {
        0u8
    } else {
        let prev = assigned_bits(bits, (n - 1) as nat);
        if bits[n - 1] is Some {
            prev | (1u8 << (n - 1) as u8)
        } else {
            prev
        }
    }
}


/// The values that packing `value` and `switches` as type `t` stores: the
/// value itself for four-byte types, the state of each assigned switch bit for
/// a packed switch byte, and nothing for mux checks and padding.
pub open spec fn spec_packed_values(t: DataType, value: u32, switches: u8) -> Seq<u32> {
    match t {
        DataType::MuxCheck(_) | DataType::Padding => Seq::empty(),
        DataType::PackedSwitch(bits) => switch_values(bits@, switches),
        _ => seq![value],
    }
}

proof fn lemma_switch_values_len(bits: Seq<Option<u8>>, byte: u8)
    ensures
        switch_values(bits, byte).len() == switch_channels(bits).len(),
    decreases bits.len(),
{
    if bits.len() > 0 {
        lemma_switch_values_len(bits.drop_last(), byte);
    }
}

/// Whatever bytes it is given, unpacking yields one value for each stream
/// that the type unpacks to.
pub proof fn law_unpack_matches_unpacked_types(t: DataType, input: Seq<u8>)
    requires
        !(t is LoneSwitch),
    ensures
        spec_unpack(t, input) matches Ok(v) ==> v.len() == spec_unpacked_types(t).len(),
{
    if let DataType::PackedSwitch(bits) = t {
        lemma_switch_values_len(bits@, input[0]);
    }
}

proof fn lemma_switch_values_agree(bits: Seq<Option<u8>>, b1: u8, b2: u8)
    requires
        bits.len() <= 8,
        forall|i: int|
            0 <= i < bits.len() && (#[trigger] bits[i]) is Some ==> (b1 >> i as u8) & 1u8 == (b2
                >> i as u8) & 1u8,
    ensures
        switch_values(bits, b1) == switch_values(bits, b2),
    decreases bits.len(),
{
    if bits.len() > 0 {
        let k = bits.len() - 1;
        assert forall|i: int|
            0 <= i < bits.drop_last().len() && (#[trigger] bits.drop_last()[i]) is Some implies (b1
                >> i as u8) & 1u8 == (b2 >> i as u8) & 1u8 by {
            assert(bits.drop_last()[i] == bits[i]);
        }
        lemma_switch_values_agree(bits.drop_last(), b1, b2);
        if bits.last() is Some {
            assert(bits[k] is Some);
        }
    }
}

proof fn lemma_assigned_bits(bits: Seq<Option<u8>>, n: nat, i: int)
    requires
        n <= 8,
        0 <= i < n,
        bits.len() >= n,
    ensures
        (assigned_bits(bits, n) >> i as u8) & 1u8 == (if bits[i] is Some { 1u8 } else { 0u8 }),
    decreases n,
{
    let prev = assigned_bits(bits, (n - 1) as nat);
    let k = (n - 1) as u8;
    let iu = i as u8;
    if i < n - 1 {
        lemma_assigned_bits(bits, (n - 1) as nat, i);
        assert(iu < k && k < 8 ==> ((prev | (1u8 << k)) >> iu) & 1u8 == (prev >> iu) & 1u8)
            by (bit_vector);
    } else {
        assert(n - 1 < 8);
        assert(prev < (1u8 << k)) by {
            lemma_assigned_bits_bound(bits, (n - 1) as nat);
        }
        assert(k < 8 && prev < (1u8 << k) ==> ((prev | (1u8 << k)) >> k) & 1u8 == 1u8)
            by (bit_vector);
        assert(k < 8 && prev < (1u8 << k) ==> (prev >> k) & 1u8 == 0u8) by (bit_vector);
    }
}

proof fn lemma_assigned_bits_bound(bits: Seq<Option<u8>>, n: nat)
    requires
        n < 8,
        bits.len() >= n,
    ensures
        assigned_bits(bits, n) < (1u8 << n as u8),
    decreases n,
{
    if n == 0 {
        assert(0u8 < (1u8 << 0u8)) by (bit_vector);
    } else {
        let prev = assigned_bits(bits, (n - 1) as nat);
        let k = (n - 1) as u8;
        lemma_assigned_bits_bound(bits, (n - 1) as nat);
        assert(k < 7 && prev < (1u8 << k) ==> (prev | (1u8 << k)) < (1u8 << (k + 1) as u8)
            && prev < (1u8 << (k + 1) as u8)) by (bit_vector);
    }
}

/// Unpacking the bytes that packing produces gives back the packed values.
pub proof fn law_unpack_inverts_pack(t: DataType, value: u32, switches: u8)
    requires
        !(t is LoneSwitch),
    ensures
        spec_pack(t, value, switches).len() == spec_num_packed_bytes(t),
        spec_unpack(t, spec_pack(t, value, switches)) == Ok::<Seq<u32>, ()>(
            spec_packed_values(t, value, switches),
        ),
{
    match t {
        DataType::PackedSwitch(bits) => {
            let a = assigned_bits(bits@, 8);
            assert forall|i: int|
                0 <= i < bits@.len() && (#[trigger] bits@[i]) is Some implies ((switches & a) >> i as u8)
                    & 1u8 == (switches >> i as u8) & 1u8 by {
                lemma_assigned_bits(bits@, 8, i);
                let iu = i as u8;
                assert(iu < 8 && (a >> iu) & 1u8 == 1u8 ==> ((switches & a) >> iu) & 1u8 == (
                switches >> iu) & 1u8) by (bit_vector);
            }
            lemma_switch_values_agree(bits@, switches & a, switches);
        },
        DataType::MuxCheck(_) | DataType::Padding => {},
        _ => {
            let b = spec_pack(t, value, switches);
            assert((value & 0xffu32) as u8 + 256 * (((value >> 8u32) & 0xffu32) as u8) + 65536 * ((
            (value >> 16u32) & 0xffu32) as u8) + 16777216 * (((value >> 24u32) & 0xffu32) as u8)
                == value) by (bit_vector);
        },
    }
}

impl DataType {
    /// Unpacks packed bytes into individual values, each given by the bit
    /// pattern of its `f32`.
    pub fn unpack_bits(&self, input: &[u8]) -> (r: Result<Vec<u32>, ()>)
        requires
            input@.len() == spec_num_packed_bytes(*self),
            !(*self is LoneSwitch),
        ensures
            r matches Ok(v) ==> spec_unpack(*self, input@) == Ok::<Seq<u32>, ()>(v@),
            r is Err <==> spec_unpack(*self, input@) is Err,
            r matches Ok(v) ==> v@.len() == spec_unpacked_types(*self).len(),
    {
        proof {
            law_unpack_matches_unpacked_types(*self, input@);
        }
        match self {
            DataType::MuxCheck(expecting) => {
                if input[0] == *expecting {
                    Ok(Vec::new())
                } else {
                    Err(())
                }
            },
            DataType::Padding => Ok(Vec::new()),
            DataType::PackedSwitch(bits) => {
                let mut result: Vec<u32> = Vec::new();
                let byte = input[0];
                let mut bit_index: usize = 0;
                while bit_index < 8
                    invariant
                        bit_index <= 8,
                        bits@.len() == 8,
                        byte == input@[0],
                        result@ == switch_values(bits@.take(bit_index as int), byte),
                    decreases 8 - bit_index,
                {
                    assert(bits@.take(bit_index + 1).drop_last() == bits@.take(bit_index as int));
                    if bits[bit_index].is_some() {
                        let mask: u8 = 1u8 << bit_index as u8;
                        let bi = bit_index as u8;
                        assert(bi < 8 ==> ((byte & (1u8 << bi)) == (1u8 << bi)) == ((byte >> bi)
                            & 1u8 == 1u8)) by (bit_vector);
                        result.push(if byte & mask == mask { 0x3f80_0000u32 } else { 0u32 });
                    }
                    bit_index = bit_index + 1;
                }
                assert(bits@.take(8) == bits@);
                Ok(result)
            },
            _ => {
                let b0 = input[0];
                let b1 = input[1];
                let b2 = input[2];
                let b3 = input[3];
                let v: u32 = (b0 as u32) | ((b1 as u32) << 8u32) | ((b2 as u32) << 16u32) | ((
                b3 as u32) << 24u32);
                assert(((b0 as u32) | ((b1 as u32) << 8u32) | ((b2 as u32) << 16u32) | ((
                b3 as u32) << 24u32)) == b0 + 256 * b1 + 65536 * b2 + 16777216 * b3)
                    by (bit_vector);
                let mut result: Vec<u32> = Vec::new();
                result.push(v);
                Ok(result)
            },
        }
    }

    /// The packed bytes for one datum of this type: `value` is the bit pattern
    /// of a four-byte value and `switches` holds one state per switch bit.
    pub fn pack(&self, value: u32, switches: u8) -> (r: Vec<u8>)
        requires
            !(*self is LoneSwitch),
        ensures
            r@ == spec_pack(*self, value, switches),
    {
        let mut result: Vec<u8> = Vec::new();
        match self {
            DataType::MuxCheck(data) => result.push(*data),
            DataType::Padding => result.push(0u8),
            DataType::PackedSwitch(bits) => {
                let mut byte: u8 = 0;
                let mut bit_index: usize = 0;
                assert(switches & 0u8 == 0u8) by (bit_vector);
                while bit_index < 8
                    invariant
                        bit_index <= 8,
                        bits@.len() == 8,
                        byte == switches & assigned_bits(bits@, bit_index as nat),
                    decreases 8 - bit_index,
                {
                    let bi = bit_index as u8;
                    let ghost prev = assigned_bits(bits@, bit_index as nat);
                    if bits[bit_index].is_some() {
                        assert(bi < 8 ==> (switches & prev) | (switches & (1u8 << bi)) == switches
                            & (prev | (1u8 << bi))) by (bit_vector);
                        byte = byte | (switches & (1u8 << bi));
                    }
                    bit_index = bit_index + 1;
                }
                result.push(byte);
            },
            _ => {
                result.push((value & 0xffu32) as u8);
                result.push(((value >> 8u32) & 0xffu32) as u8);
                result.push(((value >> 16u32) & 0xffu32) as u8);
                result.push(((value >> 24u32) & 0xffu32) as u8);
            },
        }
        result
    }

    /// Returns the types of data streams that data of this type can be
    /// unpacked to.
    pub fn unpacked_types(&self) -> (r: Vec<DataType>)
        ensures
            r@ == spec_unpacked_types(*self),
    {
        match self {
            DataType::MuxCheck(..) | DataType::Padding => Vec::new(),
            // One lone switch for every bit that holds a switch.
            DataType::PackedSwitch(bits) => {
                let mut result: Vec<DataType> = Vec::new();
                let mut i: usize = 0;
                while i < 8
                    invariant
                        i <= 8,
                        bits@.len() == 8,
                        result@ == switch_channels(bits@.take(i as int)),
                    decreases 8 - i,
                {
                    assert(bits@.take(i + 1).drop_last() == bits@.take(i as int));
                    if let Some(id) = bits[i] {
                        result.push(DataType::LoneSwitch(id));
                    }
                    i = i + 1;
                }
                assert(bits@.take(8) == bits@);
                result
            },
            // Data type is the same for packed and unpacked representations.
            _ => {
                let mut result: Vec<DataType> = Vec::new();
                result.push(*self);
                result
            },
        }
    }

    /// Returns the number of bytes that this data type consumes to unpack
    /// its values.
    pub fn num_packed_bytes(&self) -> (r: usize)
        requires
            !(*self is LoneSwitch),
        ensures
            r == spec_num_packed_bytes(*self),
    {
        match self {
            DataType::MuxCheck(..) | DataType::Padding | DataType::PackedSwitch(..) => 1,
            _ => 4,
        }
    }
}

/// A padding byte stores no information: whatever it holds, it unpacks to no
/// value and never counts as corrupt.
pub proof fn law_padding_unpacks_to_nothing(bytes: Seq<u8>)
    ensures
        spec_unpack(DataType::Padding, bytes) == Ok::<Seq<u32>, ()>(Seq::empty()),
{
}

} // verus!
