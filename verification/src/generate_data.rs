//! Packing generated samples into the bytes of a data file, frame after frame,
//! as the unpacker reads them back.
use vstd::prelude::*;
use crate::data_format::data_type::{
    DataType, law_unpack_inverts_pack, spec_num_packed_bytes, spec_pack, spec_packed_values,
};
use crate::data_format::descriptors::{
    DataFileDescriptor, all_packable, frames_of, sequence_size, valid_frame_sequence,
};
use crate::hamming::{
    block, bytes_in_order, bytes_of_word, code_byte, decoded_blocks, is_codeword_for,
    law_decode_codeword, lemma_bytes_round_trip, lemma_word_round_trip, word_in_block, word_of,
    encode_u64,
};
use crate::ingestion::unpack::{spec_hamming_stage, without_code_byte};
use crate::data_format::descriptors::{
    blocks_hamming_code, covers_reserved_byte, hamming_compatible, lemma_packed_len_take,
    spec_packed_len,
};
use crate::data_format::file_descriptor::{FileDescriptor, frame_channels, well_formed};
use crate::ingestion::unpack::{
    ReadFrameError, spec_read_frames, spec_try_read_frame, to_channels, unpack_frame,
};
use crate::ingestion::execution::{
    lemma_packed_sequence_packable, lemma_steps_len, packed_sequence, spec_destinations,
    spec_file_writes, spec_frame_writes, spec_outputs, spec_read_sequence, spec_step,
    spec_step_writes, steps_len, zip_writes,
};

verus! {

/// The packed bytes of one sample for each channel of `chs`, in order: channel
/// `k` holds the value with bit pattern `samples[k].0` and the switch states
/// `samples[k].1`.
pub open spec fn spec_pack_all(chs: Seq<DataType>, samples: Seq<(u32, u8)>) -> Seq<u8>
    decreases chs.len(),
{
    if chs.len() == 0 {
        Seq::empty()
    } else {
        let k = chs.len() - 1;
        spec_pack_all(chs.drop_last(), samples) + spec_pack(chs.last(), samples[k].0, samples[k].1)
    }
}

/// The writes that reading back the samples packed for `chs` makes: for each
/// channel in order, each of its packed values to the output of its unpacked
/// type.
pub open spec fn spec_sample_writes(
    outputs: Seq<DataType>,
    chs: Seq<DataType>,
    samples: Seq<(u32, u8)>,
) -> Seq<(usize, u32)>
    decreases chs.len(),
{
    if chs.len() == 0 {
        Seq::empty()
    } else {
        let k = chs.len() - 1;
        spec_sample_writes(outputs, chs.drop_last(), samples) + zip_writes(
            spec_destinations(outputs, chs.last()),
            spec_packed_values(chs.last(), samples[k].0, samples[k].1),
        )
    }
}

/// Appends the packed bytes of one datum of type `typ`: the value with bit
/// pattern `value` for four-byte types, the states `switches` of the assigned
/// bits of a packed switch byte, a mux check's own byte, or a zero byte of
/// padding.
pub fn generate_datum(typ: &DataType, value: u32, switches: u8, append_to: &mut Vec<u8>)
    requires
        !(*typ is LoneSwitch),
    ensures
        final(append_to)@ == old(append_to)@ + spec_pack(*typ, value, switches),
{
    let mut bytes = typ.pack(value, switches);
    append_to.append(&mut bytes);
}

/// Appends the packed bytes of one pass through the frame sequence: one
/// sample per packed channel, frame after frame.
pub fn generate_pass(descriptor: &DataFileDescriptor, samples: &Vec<(u32, u8)>, buffer: &mut Vec<u8>)
    requires
        samples@.len() == packed_sequence(descriptor.frames()).len(),
    ensures
        final(buffer)@ == old(buffer)@ + spec_pack_all(packed_sequence(descriptor.frames()), samples@),
{
    let frames = descriptor.frame_sequence();
    let ghost fs = descriptor.frames();
    let ghost start = buffer@;
    proof {
        assert forall|i: int| 0 <= i < fs.len() implies all_packable(#[trigger] fs[i]) by {
            assert(valid_frame_sequence(fs));
        }
        lemma_packed_sequence_packable(fs);
        lemma_packed_sequence_prefix_len(fs, fs.len() as int);
    }
    let n = samples.len();
    let mut k: usize = 0;
    let mut i: usize = 0;
    while i < frames.len()
        invariant
            n == samples@.len(),
            fs == frames_of(frames@),
            fs == descriptor.frames(),
            valid_frame_sequence(fs),
            samples@.len() == packed_sequence(fs).len(),
            i <= fs.len(),
            k == packed_sequence(fs.take(i as int)).len(),
            packed_sequence(fs.take(i as int)).len() <= packed_sequence(fs).len(),
            forall|j: int| 0 <= j <= fs.len() ==> packed_sequence(fs.take(j)).len() <= packed_sequence(fs).len(),
            buffer@ == start + spec_pack_all(packed_sequence(fs.take(i as int)), samples@),
        decreases fs.len() - i,
    {
        let frame = &frames[i];
        assert(frame@ == fs[i as int]);
        assert(fs.take(i + 1).drop_last() == fs.take(i as int));
        let ghost before = packed_sequence(fs.take(i as int));
        assert(packed_sequence(fs.take(i + 1)) == before + frame@);
        let mut j: usize = 0;
        while j < frame.len()
            invariant
                all_packable(frame@),
                n == samples@.len(),
                samples@.len() == packed_sequence(fs).len(),
                before.len() + frame@.len() <= packed_sequence(fs).len(),
                j <= frame@.len(),
                k == before.len() + j,
                buffer@ == start + spec_pack_all(before + frame@.take(j as int), samples@),
            decreases frame@.len() - j,
        {
            let ghost chs = before + frame@.take(j as int);
            assert((before + frame@.take(j + 1)).drop_last() == chs);
            assert((before + frame@.take(j + 1)).last() == frame@[j as int]);
            let (value, switches) = samples[k];
            generate_datum(&frame[j], value, switches, buffer);
            k = k + 1;
            j = j + 1;
        }
        assert(frame@.take(j as int) == frame@);
        i = i + 1;
    }
    assert(fs.take(i as int) == fs);
}

proof fn lemma_packed_sequence_prefix_len(fs: Seq<Seq<DataType>>, j: int)
    requires
        0 <= j <= fs.len(),
    ensures
        forall|i: int| 0 <= i <= j ==> packed_sequence(fs.take(i)).len() <= packed_sequence(fs.take(j)).len(),
        fs.take(fs.len() as int) == fs,
    decreases j,
{
    assert(fs.take(fs.len() as int) == fs);
    if j > 0 {
        lemma_packed_sequence_prefix_len(fs, j - 1);
        assert(fs.take(j).drop_last() == fs.take(j - 1));
    }
}

/// The packed bytes of the channels `chs` are as many as their read steps read.
proof fn lemma_pack_all_len(outputs: Seq<DataType>, chs: Seq<DataType>, samples: Seq<(u32, u8)>)
    requires
        all_packable(chs),
        samples.len() >= chs.len(),
    ensures
        spec_pack_all(chs, samples).len() == steps_len(
            chs.map_values(|t: DataType| spec_step(outputs, t)),
        ),
    decreases chs.len(),
{
    lemma_steps_len(outputs, chs);
    if chs.len() > 0 {
        let k = chs.len() - 1;
        assert(all_packable(chs.drop_last()));
        lemma_pack_all_len(outputs, chs.drop_last(), samples);
        lemma_steps_len(outputs, chs.drop_last());
        assert(!(chs[k] is LoneSwitch));
        law_unpack_inverts_pack(chs.last(), samples[k].0, samples[k].1);
    }
}

/// Reading packed samples back: running the read steps of the channels `chs`
/// on the bytes packed for them, whatever follows, writes each packed value to
/// the output of its unpacked type, and every mux check passes.
pub proof fn law_read_steps_invert_packing(
    outputs: Seq<DataType>,
    chs: Seq<DataType>,
    samples: Seq<(u32, u8)>,
    rest: Seq<u8>,
)
    requires
        all_packable(chs),
        samples.len() >= chs.len(),
    ensures
        spec_frame_writes(
            chs.map_values(|t: DataType| spec_step(outputs, t)),
            spec_pack_all(chs, samples) + rest,
        ) == Ok::<Seq<(usize, u32)>, ()>(spec_sample_writes(outputs, chs, samples)),
    decreases chs.len(),
{
    if chs.len() > 0 {
        let k = chs.len() - 1;
        let prefix = chs.drop_last();
        let t = chs.last();
        let packed_last = spec_pack(t, samples[k].0, samples[k].1);
        let steps = chs.map_values(|u: DataType| spec_step(outputs, u));
        let frame = spec_pack_all(chs, samples) + rest;
        assert(all_packable(prefix));
        assert(!(chs[k] is LoneSwitch));
        assert(steps.drop_last() == prefix.map_values(|u: DataType| spec_step(outputs, u)));
        assert(frame == spec_pack_all(prefix, samples) + (packed_last + rest));
        law_read_steps_invert_packing(outputs, prefix, samples, packed_last + rest);
        lemma_pack_all_len(outputs, prefix, samples);
        law_unpack_inverts_pack(t, samples[k].0, samples[k].1);
        let off = steps_len(steps.drop_last());
        assert(frame.skip(off as int) == packed_last + rest);
        assert(steps.last() == spec_step(outputs, t));
        assert((packed_last + rest).take(spec_num_packed_bytes(t) as int) == packed_last);
        assert(spec_step_writes(steps.last(), frame.skip(off as int)) == Ok::<
            Seq<(usize, u32)>,
            (),
        >(zip_writes(spec_destinations(outputs, t), spec_packed_values(t, samples[k].0, samples[k].1))));
    } else {
        assert(chs.map_values(|t: DataType| spec_step(outputs, t)).len() == 0);
    }
}

/// One generated pass through a data file's frame sequence reads back as the
/// generated samples: every packed value goes to the output of its unpacked
/// type, in order, and no mux check fails.
pub proof fn law_unpack_reads_generated_pass(d: DataFileDescriptor, samples: Seq<(u32, u8)>)
    requires
        valid_frame_sequence(d.frames()),
        samples.len() == packed_sequence(d.frames()).len(),
    ensures
        spec_frame_writes(
            spec_read_sequence(d),
            spec_pack_all(packed_sequence(d.frames()), samples),
        ) == Ok::<Seq<(usize, u32)>, ()>(
            spec_sample_writes(spec_outputs(d), packed_sequence(d.frames()), samples),
        ),
{
    let fs = d.frames();
    assert forall|i: int| 0 <= i < fs.len() implies all_packable(#[trigger] fs[i]) by {}
    lemma_packed_sequence_packable(fs);
    let chs = packed_sequence(fs);
    law_read_steps_invert_packing(spec_outputs(d), chs, samples, Seq::empty());
    assert(spec_pack_all(chs, samples) + Seq::<u8>::empty() == spec_pack_all(chs, samples));
}

/// The writes of reading back generated passes, one after the other.
pub open spec fn spec_passes_writes(
    outputs: Seq<DataType>,
    chs: Seq<DataType>,
    passes: Seq<Seq<(u32, u8)>>,
) -> Seq<(usize, u32)>
    decreases passes.len(),
{
    if passes.len() == 0 {
        Seq::empty()
    } else {
        spec_passes_writes(outputs, chs, passes.drop_last()) + spec_sample_writes(
            outputs,
            chs,
            passes.last(),
        )
    }
}

/// A data file whose whole frame sequences Hamming decode to generated passes
/// reads back as the samples of all the passes, in order.
pub proof fn law_unpack_reads_generated_file(
    d: DataFileDescriptor,
    input: Seq<u8>,
    passes: Seq<Seq<(u32, u8)>>,
)
    requires
        valid_frame_sequence(d.frames()),
        sequence_size(d.frames()) > 0,
        passes.len() <= input.len() / sequence_size(d.frames()),
        forall|i: int|
            0 <= i < passes.len() ==> (#[trigger] passes[i]).len() == packed_sequence(
                d.frames(),
            ).len() && decoded_blocks(
                input.subrange(
                    i * sequence_size(d.frames()),
                    (i + 1) * sequence_size(d.frames()),
                ),
                sequence_size(d.frames()) / 8,
            ) == Some(spec_pack_all(packed_sequence(d.frames()), passes[i])),
    ensures
        spec_file_writes(
            spec_read_sequence(d),
            input,
            sequence_size(d.frames()),
            passes.len(),
        ) == Ok::<Seq<(usize, u32)>, ()>(
            spec_passes_writes(spec_outputs(d), packed_sequence(d.frames()), passes),
        ),
    decreases passes.len(),
{
    if passes.len() > 0 {
        let m = passes.len() - 1;
        let prefix = passes.drop_last();
        assert forall|i: int|
            0 <= i < prefix.len() implies (#[trigger] prefix[i]).len() == packed_sequence(
                d.frames(),
            ).len() && decoded_blocks(
                input.subrange(
                    i * sequence_size(d.frames()),
                    (i + 1) * sequence_size(d.frames()),
                ),
                sequence_size(d.frames()) / 8,
            ) == Some(spec_pack_all(packed_sequence(d.frames()), prefix[i])) by {
            assert(prefix[i] == passes[i]);
        }
        law_unpack_reads_generated_file(d, input, prefix);
        assert(passes[m] == passes.last());
        law_unpack_reads_generated_pass(d, passes.last());
    }
}

/// The values that samples packed for the channels `chs` hold, channel after
/// channel.
pub open spec fn spec_all_packed_values(chs: Seq<DataType>, samples: Seq<(u32, u8)>) -> Seq<u32>
    decreases chs.len(),
{
    if chs.len() == 0 {
        Seq::empty()
    } else {
        let k = chs.len() - 1;
        spec_all_packed_values(chs.drop_last(), samples) + spec_packed_values(
            chs.last(),
            samples[k].0,
            samples[k].1,
        )
    }
}

/// The bytes of one generated frame of `d`: the frame id, then one sample for
/// each of the frame's packed channels.
pub open spec fn spec_frame_bytes(d: FileDescriptor, id: int, samples: Seq<(u32, u8)>) -> Seq<u8> {
    seq![id as u8] + spec_pack_all(frame_channels(d, id), samples)
}

/// The values that reading a generated frame yields, with their unpacked
/// channels.
pub open spec fn spec_frame_values(d: FileDescriptor, id: int, samples: Seq<(u32, u8)>) -> Seq<(usize, u32)> {
    to_channels(
        d.unpacked_channel_assignments@[id].start as int,
        spec_all_packed_values(frame_channels(d, id), samples),
    )
}

/// Appends one generated frame: its id (its lowest byte), then the packed
/// bytes of one sample for each of its packed channels.
pub fn generate_frame(
    descriptor: &FileDescriptor,
    frame_id: usize,
    samples: &Vec<(u32, u8)>,
    buffer: &mut Vec<u8>,
)
    requires
        well_formed(*descriptor),
        frame_id < descriptor.packed_channel_assignments@.len(),
        samples@.len() == frame_channels(*descriptor, frame_id as int).len(),
    ensures
        final(buffer)@ == old(buffer)@ + spec_frame_bytes(*descriptor, frame_id as int, samples@),
{
    let ghost chs = frame_channels(*descriptor, frame_id as int);
    let ghost start_bytes = buffer@;
    buffer.push(frame_id as u8);
    let start = descriptor.packed_channel_assignments[frame_id].start;
    let end = descriptor.packed_channel_assignments[frame_id].end;
    proof {
        lemma_frame_channels_packable(*descriptor, frame_id as int);
    }
    let mut c: usize = start;
    while c < end
        invariant
            well_formed(*descriptor),
            frame_id < descriptor.packed_channel_assignments@.len(),
            start == descriptor.packed_channel_assignments@[frame_id as int].start,
            end == descriptor.packed_channel_assignments@[frame_id as int].end,
            start <= end <= descriptor.packed_channels@.len(),
            chs == frame_channels(*descriptor, frame_id as int),
            all_packable(chs),
            samples@.len() == chs.len(),
            start <= c <= end,
            buffer@ == start_bytes + seq![frame_id as u8] + spec_pack_all(chs.take(c - start), samples@),
        decreases end - c,
    {
        let ghost k = c - start;
        assert(chs.take(k + 1).drop_last() == chs.take(k));
        assert(chs[k] == descriptor.packed_channels@[c as int]);
        let (value, switches) = samples[c - start];
        generate_datum(&descriptor.packed_channels[c], value, switches, buffer);
        c = c + 1;
    }
    assert(chs.take(c - start) == chs);
}

proof fn lemma_frame_channels_packable(d: FileDescriptor, f: int)
    requires
        well_formed(d),
        0 <= f < d.packed_channel_assignments@.len(),
    ensures
        all_packable(frame_channels(d, f)),
        d.packed_channel_assignments@[f].start <= d.packed_channel_assignments@[f].end
            <= d.packed_channels@.len(),
{
    let pr = d.packed_channel_assignments@[f];
    assert forall|i: int| 0 <= i < frame_channels(d, f).len() implies !(
    #[trigger] frame_channels(d, f)[i] is LoneSwitch) by {
        assert(frame_channels(d, f)[i] == d.packed_channels@[pr.start + i]);
    }
}

/// The packed bytes of samples for `chs` are as many as the channels pack.
proof fn lemma_pack_all_packed_len(chs: Seq<DataType>, samples: Seq<(u32, u8)>)
    requires
        all_packable(chs),
        samples.len() >= chs.len(),
    ensures
        spec_pack_all(chs, samples).len() == spec_packed_len(chs),
    decreases chs.len(),
{
    if chs.len() > 0 {
        let k = chs.len() - 1;
        assert(all_packable(chs.drop_last()));
        lemma_pack_all_packed_len(chs.drop_last(), samples);
        assert(!(chs[k] is LoneSwitch));
        law_unpack_inverts_pack(chs.last(), samples[k].0, samples[k].1);
    }
}

/// The packed bytes for the first `n` channels start the packed bytes for all.
proof fn lemma_pack_all_prefix(chs: Seq<DataType>, samples: Seq<(u32, u8)>, n: int)
    requires
        all_packable(chs),
        samples.len() >= chs.len(),
        0 <= n <= chs.len(),
    ensures
        spec_pack_all(chs, samples).take(spec_packed_len(chs.take(n)) as int) == spec_pack_all(
            chs.take(n),
            samples,
        ),
        spec_packed_len(chs.take(n)) <= spec_packed_len(chs),
        spec_pack_all(chs.take(n), samples).len() == spec_packed_len(chs.take(n)),
    decreases chs.len() - n,
{
    assert(all_packable(chs.take(n)));
    lemma_pack_all_packed_len(chs.take(n), samples);
    if n < chs.len() {
        lemma_pack_all_prefix(chs, samples, n + 1);
        lemma_packed_len_take(chs, n);
        assert(chs.take(n + 1).drop_last() == chs.take(n));
        assert(chs.take(n + 1).last() == chs[n]);
        lemma_pack_all_packed_len(chs, samples);
        let all = spec_pack_all(chs, samples);
        let shorter = spec_pack_all(chs.take(n), samples);
        let longer = spec_pack_all(chs.take(n + 1), samples);
        let ln = spec_packed_len(chs.take(n));
        let ln1 = spec_packed_len(chs.take(n + 1));
        assert(longer == shorter + spec_pack(chs[n], samples[n].0, samples[n].1));
        assert(longer.take(ln as int) =~= shorter);
        assert(all.take(ln as int) =~= all.take(ln1 as int).take(ln as int));
    } else {
        assert(chs.take(n) == chs);
    }
}

/// Unpacking the first `n` channels of bytes packed from samples gives back
/// the packed values of those channels.
proof fn lemma_unpack_generated(chs: Seq<DataType>, samples: Seq<(u32, u8)>, rest: Seq<u8>, n: nat)
    requires
        all_packable(chs),
        samples.len() >= chs.len(),
        n <= chs.len(),
    ensures
        unpack_frame(chs, spec_pack_all(chs, samples) + rest, n) == Ok::<Seq<u32>, Seq<u32>>(
            spec_all_packed_values(chs.take(n as int), samples),
        ),
    decreases n,
{
    if n > 0 {
        let k = n - 1;
        lemma_unpack_generated(chs, samples, rest, (n - 1) as nat);
        lemma_pack_all_prefix(chs, samples, k);
        lemma_pack_all_prefix(chs, samples, n as int);
        lemma_packed_len_take(chs, k);
        assert(chs.take(n as int).drop_last() == chs.take(k));
        assert(chs.take(n as int).last() == chs[k]);
        assert(!(chs[k] is LoneSwitch));
        law_unpack_inverts_pack(chs[k], samples[k].0, samples[k].1);
        let all = spec_pack_all(chs, samples);
        let data = all + rest;
        let off = spec_packed_len(chs.take(k));
        let piece = spec_pack(chs[k], samples[k].0, samples[k].1);
        let before = spec_pack_all(chs.take(k), samples);
        assert(spec_pack_all(chs.take(n as int), samples) == before + piece);
        lemma_pack_all_packed_len(chs, samples);
        assert(before.len() == off);
        assert(off + piece.len() == spec_packed_len(chs.take(n as int)));
        assert(all.take((off + piece.len()) as int) == before + piece);
        assert(data.subrange(off as int, (off + piece.len()) as int) =~= all.take(
            (off + piece.len()) as int,
        ).subrange(off as int, (off + piece.len()) as int));
        assert(data.subrange(off as int, (off + spec_num_packed_bytes(chs[k])) as int) =~= piece);
    }
}

/// Reading a generated frame from the front of the decoded bytes takes the
/// whole frame, whatever follows it, and yields each packed value of its
/// samples on the frame's unpacked channels, in order.
pub proof fn law_reader_reads_generated_frame(
    d: FileDescriptor,
    id: int,
    samples: Seq<(u32, u8)>,
    rest: Seq<u8>,
)
    requires
        well_formed(d),
        0 <= id < d.packed_channel_assignments@.len(),
        id < 256,
        samples.len() >= frame_channels(d, id).len(),
    ensures
        spec_try_read_frame(d, spec_frame_bytes(d, id, samples) + rest) == (
            Ok::<nat, ReadFrameError>(1 + spec_packed_len(frame_channels(d, id))),
            spec_frame_values(d, id, samples),
        ),
{
    let chs = frame_channels(d, id);
    lemma_frame_channels_packable(d, id);
    lemma_pack_all_packed_len(chs, samples);
    let packed = spec_pack_all(chs, samples);
    let buf = spec_frame_bytes(d, id, samples) + rest;
    assert(buf[0] == id as u8);
    assert(buf.skip(1) =~= packed + rest);
    lemma_unpack_generated(chs, samples, rest, chs.len());
    assert(chs.take(chs.len() as int) == chs);
}

/// A stream of generated frames, each given by its id and its samples.
pub open spec fn spec_stream_bytes(d: FileDescriptor, frames: Seq<(int, Seq<(u32, u8)>)>) -> Seq<u8>
    decreases frames.len(),
{
    if frames.len() == 0 {
        Seq::empty()
    } else {
        spec_frame_bytes(d, frames[0].0, frames[0].1) + spec_stream_bytes(d, frames.drop_first())
    }
}

/// The values that reading a stream of generated frames yields, in order.
pub open spec fn spec_stream_values(d: FileDescriptor, frames: Seq<(int, Seq<(u32, u8)>)>) -> Seq<(usize, u32)>
    decreases frames.len(),
{
    if frames.len() == 0 {
        Seq::empty()
    } else {
        spec_frame_values(d, frames[0].0, frames[0].1) + spec_stream_values(d, frames.drop_first())
    }
}

/// Reading the decoded bytes of a stream of generated frames yields the
/// values of every frame, in order, leaves no byte behind and stops only for
/// want of data.
pub proof fn law_reader_reads_generated_stream(d: FileDescriptor, frames: Seq<(int, Seq<(u32, u8)>)>)
    requires
        well_formed(d),
        forall|i: int|
            0 <= i < frames.len() ==> 0 <= (#[trigger] frames[i]).0 < d.packed_channel_assignments@.len()
                && frames[i].0 < 256 && frames[i].1.len() >= frame_channels(d, frames[i].0).len(),
    ensures
        spec_read_frames(d, spec_stream_bytes(d, frames)) == (
            spec_stream_values(d, frames),
            Seq::<u8>::empty(),
            ReadFrameError::NotEnoughData,
        ),
    decreases frames.len(),
{
    let buf = spec_stream_bytes(d, frames);
    if frames.len() > 0 {
        let (id, samples) = frames[0];
        let rest = spec_stream_bytes(d, frames.drop_first());
        assert forall|i: int|
            0 <= i < frames.drop_first().len() implies 0 <= (#[trigger] frames.drop_first()[i]).0
                < d.packed_channel_assignments@.len() && frames.drop_first()[i].0 < 256
                && frames.drop_first()[i].1.len() >= frame_channels(
                d,
                frames.drop_first()[i].0,
            ).len() by {
            assert(frames.drop_first()[i] == frames[i + 1]);
        }
        law_reader_reads_generated_stream(d, frames.drop_first());
        law_reader_reads_generated_frame(d, id, samples, rest);
        let first = spec_frame_bytes(d, id, samples);
        lemma_frame_channels_packable(d, id);
        lemma_pack_all_packed_len(frame_channels(d, id), samples);
        assert(first.len() == 1 + spec_packed_len(frame_channels(d, id)));
        assert(buf.skip(first.len() as int) =~= rest);
    } else {
        assert(buf.len() == 0);
    }
}

/// The number of blocks that framing a stream of `len` bytes takes from it:
/// seven bytes each, while at least eight are left.
pub open spec fn stream_block_count(len: nat) -> nat {
    if len < 8 {
        0
    } else {
        ((len - 1) / 7) as nat
    }
}

/// Seven payload bytes with a zero byte in the place that holds the check
/// bits of a word in the byte order `little`.
pub open spec fn with_code_byte(p: Seq<u8>, little: bool) -> Seq<u8> {
    if little {
        seq![0u8] + p
    } else {
        p.push(0u8)
    }
}

/// `t` holds `m` blocks, each the code word, in the byte order `little`, for
/// seven bytes of `s` in turn with a zero code byte.
pub open spec fn encodes_payloads(t: Seq<u8>, s: Seq<u8>, m: nat, little: bool) -> bool {
    &&& t.len() == 8 * m
    &&& forall|k: int|
        0 <= k < m ==> #[trigger] is_codeword_for(
            word_of(block(t, k), little),
            word_of(with_code_byte(s.subrange(7 * k, 7 * k + 7), little), little),
        )
}

/// Takes the Hamming encoded blocks of as much of a stream as possible: while
/// at least eight bytes are left, the first seven, with a zero byte for the
/// code, make one word in the byte order `little`, which is encoded.
pub fn take_encoded_blocks(buffer: &mut Vec<u8>, little: bool) -> (r: Vec<u8>)
    ensures
        encodes_payloads(r@, old(buffer)@, stream_block_count(old(buffer)@.len()), little),
        final(buffer)@ == old(buffer)@.skip((7 * stream_block_count(old(buffer)@.len())) as int),
{
    let ghost original = buffer@;
    let mut out: Vec<u8> = Vec::new();
    let ghost mut m: int = 0;
    while buffer.len() >= 8
        invariant
            0 <= m,
            7 * m <= original.len(),
            buffer@ == original.skip(7 * m),
            encodes_payloads(out@, original, m as nat, little),
            original.len() >= 8 ==> m <= (original.len() - 1) / 7,
            original.len() < 8 ==> m == 0,
        decreases buffer@.len(),
    {
        let mut chunk: Vec<u8> = Vec::new();
        if !little {
            let mut j: usize = 0;
            while j < 7
                invariant
                    j <= 7,
                    buffer@.len() >= 8,
                    chunk@ == buffer@.take(j as int),
                decreases 7 - j,
            {
                chunk.push(buffer[j]);
                assert(chunk@ =~= buffer@.take(j + 1));
                j = j + 1;
            }
            chunk.push(0u8);
        } else {
            chunk.push(0u8);
            let mut j: usize = 0;
            while j < 7
                invariant
                    j <= 7,
                    buffer@.len() >= 8,
                    chunk@ == seq![0u8] + buffer@.take(j as int),
                decreases 7 - j,
            {
                chunk.push(buffer[j]);
                assert(chunk@ =~= seq![0u8] + buffer@.take(j + 1));
                j = j + 1;
            }
        }
        let ghost payload = original.subrange(7 * m, 7 * m + 7);
        assert(buffer@.take(7) =~= payload);
        assert(chunk@ =~= with_code_byte(payload, little));
        proof {
            lemma_bytes_round_trip(chunk@, little);
            assert(chunk@[code_byte(little)] == 0);
        }
        let word = word_in_block(chunk.as_slice(), little);
        let code = encode_u64(word);
        let mut encoded = bytes_in_order(code, little);
        proof {
            lemma_word_round_trip(code, little);
        }
        let ghost out_before = out@;
        out.append(&mut encoded);
        proof {
            assert forall|k: int| 0 <= k < m + 1 implies #[trigger] is_codeword_for(
                word_of(block(out@, k), little),
                word_of(with_code_byte(original.subrange(7 * k, 7 * k + 7), little), little),
            ) by {
                if k < m {
                    assert(block(out@, k) =~= block(out_before, k));
                } else {
                    assert(block(out@, k) =~= bytes_of_word(code, little));
                }
            }
        }
        let tail = buffer.split_off(7);
        *buffer = tail;
        proof {
            m = m + 1;
        }
        assert(buffer@ =~= original.skip(7 * m));
    }
    assert(m == stream_block_count(original.len()) as int) by (nonlinear_arith)
        requires
            original.skip(7 * m).len() < 8,
            7 * m <= original.len(),
            original.skip(7 * m).len() == original.len() - 7 * m,
            original.len() >= 8 ==> m <= (original.len() - 1) / 7,
            original.len() < 8 ==> m == 0,
    ;
    out
}

/// Hamming decoding, in the byte order `little`, blocks written from a stream
/// gives back the stream: every block decodes, and its payload is the seven
/// bytes it was written from.
pub proof fn law_reader_decodes_written_blocks(
    t: Seq<u8>,
    s: Seq<u8>,
    m: nat,
    little: bool,
    post: Seq<u8>,
)
    requires
        encodes_payloads(t, s, m, little),
        7 * m <= s.len(),
    ensures
        spec_hamming_stage(t, post, little) == (Seq::<u8>::empty(), post + s.take((7 * m) as int), true),
    decreases m,
{
    if m == 0 {
        assert(t =~= Seq::<u8>::empty());
        assert(post + s.take(0) =~= post);
    } else {
        let p0 = s.subrange(0, 7);
        let b0 = with_code_byte(p0, little);
        let z: int = 0;
        assert(is_codeword_for(
            word_of(block(t, z), little),
            word_of(with_code_byte(s.subrange(7 * z, 7 * z + 7), little), little),
        ));
        assert(s.subrange(7 * z, 7 * z + 7) == p0);
        assert(t.take(8) =~= block(t, 0));
        law_decode_codeword(word_of(block(t, 0), little), word_of(b0, little));
        lemma_bytes_round_trip(b0, little);
        assert(without_code_byte(b0, little) =~= p0);
        let t1 = t.skip(8);
        let s1 = s.skip(7);
        assert forall|k: int| 0 <= k < m - 1 implies #[trigger] is_codeword_for(
            word_of(block(t1, k), little),
            word_of(with_code_byte(s1.subrange(7 * k, 7 * k + 7), little), little),
        ) by {
            assert(block(t1, k) =~= block(t, k + 1));
            assert(s1.subrange(7 * k, 7 * k + 7) =~= s.subrange(7 * (k + 1), 7 * (k + 1) + 7));
            assert(is_codeword_for(
                word_of(block(t, k + 1), little),
                word_of(with_code_byte(s.subrange(7 * (k + 1), 7 * (k + 1) + 7), little), little),
            ));
        }
        law_reader_decodes_written_blocks(t1, s1, (m - 1) as nat, little, post + p0);
        assert(post + p0 + s1.take(7 * (m - 1)) =~= post + s.take((7 * m) as int));
    }
}

/// The bytes that the reader decodes from blocks written from a stream of
/// generated frames read back as the values of every frame, in order: through
/// the Hamming stage and the reading of frames, what the writer wrote is what
/// the reader reads.
pub proof fn law_reader_reads_written_frames(
    d: FileDescriptor,
    frames: Seq<(int, Seq<(u32, u8)>)>,
    t: Seq<u8>,
    m: nat,
    little: bool,
)
    requires
        well_formed(d),
        forall|i: int|
            0 <= i < frames.len() ==> 0 <= (#[trigger] frames[i]).0 < d.packed_channel_assignments@.len()
                && frames[i].0 < 256 && frames[i].1.len() >= frame_channels(d, frames[i].0).len(),
        encodes_payloads(t, spec_stream_bytes(d, frames), m, little),
        7 * m == spec_stream_bytes(d, frames).len(),
    ensures
        ({
            let (rest, decoded, ok) = spec_hamming_stage(t, Seq::empty(), little);
            &&& ok
            &&& rest == Seq::<u8>::empty()
            &&& spec_read_frames(d, decoded) == (
                spec_stream_values(d, frames),
                Seq::<u8>::empty(),
                ReadFrameError::NotEnoughData,
            )
        }),
{
    let s = spec_stream_bytes(d, frames);
    law_reader_decodes_written_blocks(t, s, m, little, Seq::empty());
    assert(Seq::<u8>::empty() + s.take((7 * m) as int) =~= s);
    law_reader_reads_generated_stream(d, frames);
}

/// The reserved bytes among the first `n` items of a frame that passes the
/// Hamming compatibility check pack to zero.
proof fn lemma_reserved_bytes_zero(f: Seq<DataType>, samples: Seq<(u32, u8)>, n: int)
    requires
        all_packable(f),
        forall|i: int| 0 <= i < f.len() ==> !#[trigger] blocks_hamming_code(f, i),
        samples.len() >= f.len(),
        0 <= n <= f.len(),
    ensures
        spec_pack_all(f.take(n), samples).len() == spec_packed_len(f.take(n)),
        forall|p: int|
            0 <= p < spec_packed_len(f.take(n)) && p % 8 == 7 ==> #[trigger] spec_pack_all(
                f.take(n),
                samples,
            )[p] == 0,
    decreases n,
{
    assert(all_packable(f.take(n)));
    lemma_pack_all_packed_len(f.take(n), samples);
    if n > 0 {
        let k = n - 1;
        lemma_reserved_bytes_zero(f, samples, k);
        lemma_packed_len_take(f, k);
        assert(f.take(n).drop_last() == f.take(k));
        assert(f.take(n).last() == f[k]);
        assert(!(f[k] is LoneSwitch));
        law_unpack_inverts_pack(f[k], samples[k].0, samples[k].1);
        let start = spec_packed_len(f.take(k));
        let len = spec_num_packed_bytes(f[k]);
        let before = spec_pack_all(f.take(k), samples);
        let piece = spec_pack(f[k], samples[k].0, samples[k].1);
        assert(spec_pack_all(f.take(n), samples) == before + piece);
        assert forall|p: int|
            0 <= p < spec_packed_len(f.take(n)) && p % 8 == 7 implies #[trigger] spec_pack_all(
                f.take(n),
                samples,
            )[p] == 0 by {
            if p >= start {
                assert(start <= p < start + len);
                assert(covers_reserved_byte(start, len));
                assert(!blocks_hamming_code(f, k));
                assert(f[k] is Padding);
            }
        }
    }
}

/// A frame that passes the Hamming compatibility check leaves a zero byte at
/// every byte reserved for a Hamming code (the eighth of each block of
/// eight), whatever samples are packed into it, and fills whole blocks.
pub proof fn law_compatible_frame_leaves_room(f: Seq<DataType>, samples: Seq<(u32, u8)>)
    requires
        all_packable(f),
        hamming_compatible(f),
        samples.len() >= f.len(),
    ensures
        spec_pack_all(f, samples).len() % 8 == 0,
        forall|p: int|
            0 <= p < spec_pack_all(f, samples).len() && p % 8 == 7 ==> #[trigger] spec_pack_all(
                f,
                samples,
            )[p] == 0,
{
    lemma_reserved_bytes_zero(f, samples, f.len() as int);
    assert(f.take(f.len() as int) == f);
}

} // verus!
