use vstd::prelude::*;
use crate::data_format::data_type::{
    DataType, spec_num_packed_bytes, spec_unpack, spec_unpacked_types,
    law_unpack_matches_unpacked_types,
};
use crate::data_format::descriptors::{
    all_packable, spec_packed_len, lemma_packed_len_take, lemma_packed_len_bound,
};
use crate::util::{ProgressTracker, advanced};
use crate::hamming::{
    block, bytes_of_word, decode_words, machine_little, native_little_endian, spec_decode, word_decoded, word_not_decodable,
    word_of,
};
use crate::text::{spec_decimal, push_decimal};
use crate::data_format::file_descriptor::{
    FileDescriptor, well_formed, frame_channels, unpacked_count,
};

verus! {

/// Why a data frame could not be read from the decoded bytes.
#[derive(Clone, Copy, Debug, PartialEq, Eq)]
pub enum ReadFrameError {
    /// The frame is not complete yet.
    NotEnoughData,
    /// The frame id names no frame of the descriptor.
    UnknownFrame(u8),
    /// A mux check of the frame with this id failed.
    CorruptData(u8),
}

/// The values of the first `n` channels `chs` of a frame whose payload is
/// `data`: `Ok` with all of them, or `Err` with those of the channels before
/// the first one whose bytes fail to unpack.
pub open spec fn unpack_frame(chs: Seq<DataType>, data: Seq<u8>, n: nat) -> Result<Seq<u32>, Seq<u32>>
    decreases n,
{
    if n == 0 {
        Ok(Seq::empty())
    } else {
        match unpack_frame(chs, data, (n - 1) as nat) {
            Err(v) => Err(v),
            Ok(v) => {
                let off = spec_packed_len(chs.take(n - 1));
                match spec_unpack(
                    chs[n - 1],
                    data.subrange(off as int, (off + spec_num_packed_bytes(chs[n - 1])) as int),
                ) {
                    Ok(w) => Ok(v + w),
                    Err(_) => Err(v),
                }
            }
        }
    }
}

/// Values paired with the consecutive unpacked channel indices from `start`.
pub open spec fn to_channels(start: int, values: Seq<u32>) -> Seq<(usize, u32)> {
    Seq::new(values.len(), |k: int| ((start + k) as usize, values[k]))
}

/// The outcome of reading one frame from the front of the decoded bytes
/// `buf`: the number of bytes the frame occupies (its id byte and its payload)
/// or why it could not be read, and the values it yields, paired with their
/// unpacked channels (those before a failed mux check, when one fails).
pub open spec fn spec_try_read_frame(d: FileDescriptor, buf: Seq<u8>) -> (
    Result<nat, ReadFrameError>,
    Seq<(usize, u32)>,
) {
    if buf.len() == 0 {
        (Err(ReadFrameError::NotEnoughData), Seq::empty())
    } else if buf[0] >= d.packed_channel_assignments@.len() {
        (Err(ReadFrameError::UnknownFrame(buf[0])), Seq::empty())
    } else {
        let chs = frame_channels(d, buf[0] as int);
        let len = spec_packed_len(chs);
        let start = d.unpacked_channel_assignments@[buf[0] as int].start;
        if buf.len() < 1 + len {
            (Err(ReadFrameError::NotEnoughData), Seq::empty())
        } else {
            match unpack_frame(chs, buf.skip(1), chs.len()) {
                Ok(v) => (Ok(1 + len), to_channels(start as int, v)),
                Err(v) => (Err(ReadFrameError::CorruptData(buf[0])), to_channels(start as int, v)),
            }
        }
    }
}

/// Reading as many whole frames as possible from the decoded bytes `buf`: the
/// values they yield, the bytes left, and why reading stopped.
pub open spec fn spec_read_frames(d: FileDescriptor, buf: Seq<u8>) -> (
    Seq<(usize, u32)>,
    Seq<u8>,
    ReadFrameError,
)
    decreases buf.len(),
{
    let (res, vals) = spec_try_read_frame(d, buf);
    match res {
        Ok(m) => if 1 <= m <= buf.len() {
            let (more, rest, stop) = spec_read_frames(d, buf.skip(m as int));
            (vals + more, rest, stop)
        } else {
            (vals, buf, ReadFrameError::NotEnoughData)
        },
        Err(e) => (vals, buf, e),
    }
}

pub proof fn lemma_packed_len_prefix(chs: Seq<DataType>, k: int)
    requires
        0 <= k <= chs.len(),
    ensures
        spec_packed_len(chs.take(k)) <= spec_packed_len(chs),
    decreases chs.len() - k,
{
    if k < chs.len() {
        lemma_packed_len_take(chs, k);
        lemma_packed_len_prefix(chs, k + 1);
    } else {
        assert(chs.take(k) == chs);
    }
}

pub proof fn lemma_unpacked_count_prefix(chs: Seq<DataType>, k: int)
    requires
        0 <= k <= chs.len(),
    ensures
        unpacked_count(chs.take(k)) <= unpacked_count(chs),
    decreases chs.len() - k,
{
    if k < chs.len() {
        assert(chs.take(k + 1).drop_last() == chs.take(k));
        lemma_unpacked_count_prefix(chs, k + 1);
    } else {
        assert(chs.take(k) == chs);
    }
}

pub proof fn lemma_unpack_frame_err_persists(chs: Seq<DataType>, data: Seq<u8>, n: nat, m: nat)
    requires
        n <= m,
        unpack_frame(chs, data, n) is Err,
    ensures
        unpack_frame(chs, data, m) == unpack_frame(chs, data, n),
    decreases m - n,
{
    if m > n {
        lemma_unpack_frame_err_persists(chs, data, n, (m - 1) as nat);
    }
}

pub proof fn lemma_unpack_frame_count(chs: Seq<DataType>, data: Seq<u8>, n: nat)
    requires
        n <= chs.len(),
        all_packable(chs),
    ensures
        unpack_frame(chs, data, n) matches Ok(v) ==> v.len() == unpacked_count(chs.take(n as int)),
        unpack_frame(chs, data, n) matches Err(v) ==> v.len() <= unpacked_count(chs.take(n as int)),
    decreases n,
{
    if n > 0 {
        lemma_unpack_frame_count(chs, data, (n - 1) as nat);
        assert(chs.take(n as int).drop_last() == chs.take(n - 1));
        let off = spec_packed_len(chs.take(n - 1));
        law_unpack_matches_unpacked_types(
            chs[n - 1],
            data.subrange(off as int, (off + spec_num_packed_bytes(chs[n - 1])) as int),
        );
    }
}



/// The message for a frame that stops the reading of frames.
pub open spec fn spec_frame_error_message(e: ReadFrameError) -> Seq<char> {
    match e {
        ReadFrameError::UnknownFrame(id) => "Unknown data frame "@ + spec_decimal(id as nat),
        ReadFrameError::CorruptData(id) => "Corrupt data in data frame "@ + spec_decimal(id as nat),
        ReadFrameError::NotEnoughData => Seq::empty(),
    }
}

/// The message for a block whose Hamming code reports an error.
pub open spec fn spec_hamming_message() -> Seq<char> {
    "Error detected during Hamming decode"@
}

/// A decoded block without the byte that holds its word's check bits.
pub open spec fn without_code_byte(b: Seq<u8>, little: bool) -> Seq<u8> {
    if little {
        b.skip(1)
    } else {
        b.take(7)
    }
}

/// What Hamming decoding a block of eight bytes yields, its words read in the
/// byte order `little`: the seven bytes of the decoded word other than the
/// one that held the check bits, or `None` when the word does not decode.
pub open spec fn block_payload(b: Seq<u8>, little: bool) -> Option<Seq<u8>> {
    match spec_decode(word_of(b, little)) {
        Ok(d) => Some(without_code_byte(bytes_of_word(d, little), little)),
        Err(_) => None,
    }
}

/// The Hamming stage of pushing bytes: blocks of eight bytes are taken from
/// the front of `pre` and their payloads appended to `post`, until fewer than
/// eight bytes are left or a block does not decode. The result is the bytes
/// left in `pre`, the bytes in `post`, and whether every block decoded; a
/// block that does not decode has been taken but not appended.
pub open spec fn spec_hamming_stage(pre: Seq<u8>, post: Seq<u8>, little: bool) -> (Seq<u8>, Seq<u8>, bool)
    decreases pre.len(),
{
    if pre.len() < 8 {
        (pre, post, true)
    } else {
        match block_payload(pre.take(8), little) {
            Some(p) => spec_hamming_stage(pre.skip(8), post + p, little),
            None => (pre.skip(8), post, false),
        }
    }
}

/// The Hamming stage does not depend on how the bytes arrive: decoding `a`
/// and then, from what is left, `a` followed by `b`, gives what decoding all
/// of `a` and `b` at once gives; and when a block of `a` fails, so does the
/// whole.
pub proof fn law_hamming_stage_split(a: Seq<u8>, b: Seq<u8>, post: Seq<u8>, little: bool)
    ensures
        ({
            let (a2, post2, ok) = spec_hamming_stage(a, post, little);
            &&& ok ==> spec_hamming_stage(a2 + b, post2, little) == spec_hamming_stage(
                a + b,
                post,
                little,
            )
            &&& !ok ==> spec_hamming_stage(a + b, post, little) == (a2 + b, post2, false)
        }),
    decreases a.len(),
{
    if a.len() >= 8 {
        assert((a + b).take(8) =~= a.take(8));
        assert((a + b).skip(8) =~= a.skip(8) + b);
        match block_payload(a.take(8), little) {
            Some(p) => {
                law_hamming_stage_split(a.skip(8), b, post + p, little);
            },
            None => {},
        }
    }
}

/// Unpacking the first `n` channels reads only their bytes: bytes after them
/// do not change the result.
proof fn lemma_unpack_frame_prefix(chs: Seq<DataType>, data: Seq<u8>, y: Seq<u8>, n: nat)
    requires
        n <= chs.len(),
        data.len() >= spec_packed_len(chs),
    ensures
        unpack_frame(chs, data + y, n) == unpack_frame(chs, data, n),
    decreases n,
{
    if n > 0 {
        lemma_unpack_frame_prefix(chs, data, y, (n - 1) as nat);
        lemma_packed_len_take(chs, n - 1);
        lemma_packed_len_prefix(chs, n as int);
        let off = spec_packed_len(chs.take(n - 1));
        let end = off + spec_num_packed_bytes(chs[n - 1]);
        assert((data + y).subrange(off as int, end as int) =~= data.subrange(off as int, end as int));
    }
}

/// Reading one frame that is whole, or refused for another reason than want
/// of data, does not depend on the bytes after it.
proof fn lemma_try_read_frame_prefix(d: FileDescriptor, buf: Seq<u8>, y: Seq<u8>)
    requires
        well_formed(d),
        spec_try_read_frame(d, buf).0 != Err::<nat, ReadFrameError>(ReadFrameError::NotEnoughData),
    ensures
        spec_try_read_frame(d, buf + y) == spec_try_read_frame(d, buf),
{
    assert((buf + y)[0] == buf[0]);
    if buf[0] < d.packed_channel_assignments@.len() {
        let chs = frame_channels(d, buf[0] as int);
        assert((buf + y).skip(1) =~= buf.skip(1) + y);
        lemma_unpack_frame_prefix(chs, buf.skip(1), y, chs.len());
    }
}

/// Reading frames does not depend on how the decoded bytes arrive: when
/// reading `x` stops for want of data, reading `x` followed by `y` gives the
/// values read from `x` and then what reading the bytes left of `x`, followed
/// by `y`, gives.
pub proof fn law_read_frames_split(d: FileDescriptor, x: Seq<u8>, y: Seq<u8>)
    requires
        well_formed(d),
        spec_read_frames(d, x).2 == ReadFrameError::NotEnoughData,
    ensures
        ({
            let (v1, r1, _) = spec_read_frames(d, x);
            let (v2, r2, s2) = spec_read_frames(d, r1 + y);
            spec_read_frames(d, x + y) == (v1 + v2, r2, s2)
        }),
    decreases x.len(),
{
    let (res, vals) = spec_try_read_frame(d, x);
    match res {
        Ok(m) => {
            lemma_try_read_frame_prefix(d, x, y);
            assert((x + y).skip(m as int) =~= x.skip(m as int) + y);
            law_read_frames_split(d, x.skip(m as int), y);
            let (more, rest, stop) = spec_read_frames(d, x.skip(m as int));
            let (v2, r2, s2) = spec_read_frames(d, rest + y);
            assert(vals + more + v2 =~= vals + (more + v2));
        },
        Err(e) => {
            assert(vals =~= Seq::<(usize, u32)>::empty());
            let (v2, r2, s2) = spec_read_frames(d, x + y);
            assert(Seq::<(usize, u32)>::empty() + v2 =~= v2);
        },
    }
}

/// The reports that a progress step adds.
pub open spec fn report_seq(report: Option<(u64, u64)>) -> Seq<(u64, u64)> {
    match report {
        Some(x) => seq![x],
        None => Seq::empty(),
    }
}

/// A copy of `buf[from..to]`.
fn copy_range(buf: &Vec<u8>, from: usize, to: usize) -> (r: Vec<u8>)
    requires
        from <= to <= buf@.len(),
    ensures
        r@ == buf@.subrange(from as int, to as int),
{
    let mut r: Vec<u8> = Vec::new();
    let mut k: usize = from;
    while k < to
        invariant
            from <= k <= to,
            to <= buf@.len(),
            r@ == buf@.subrange(from as int, k as int),
        decreases to - k,
    {
        r.push(buf[k]);
        assert(r@ =~= buf@.subrange(from as int, k + 1));
        k = k + 1;
    }
    r
}

/// Unpacks the frame payloads of a byte stream and hands the values on.
///
/// Bytes arrive in blocks of eight carrying a Hamming code; once decoded, a
/// frame is an id byte followed by the packed bytes of the frame's channels.
/// Each unpacked value is queued, with the index of its unpacked channel, for
/// the caller to take with `take_output`; progress reports are queued for
/// `take_reports`.
pub struct DataFrameReader {
    pre_hamming_decode_buffer: Vec<u8>,
    post_hamming_decode_buffer: Vec<u8>,
    progress: ProgressTracker,
    descriptor: FileDescriptor,
    output: Vec<(usize, u32)>,
    reports: Vec<(u64, u64)>,
    little_endian: bool,
}

impl DataFrameReader {
    /// The bytes still waiting for Hamming decoding.
    pub closed spec fn pre_buffer(self) -> Seq<u8> {
        self.pre_hamming_decode_buffer@
    }

    /// The decoded bytes that do not yet form a whole frame.
    pub closed spec fn post_buffer(self) -> Seq<u8> {
        self.post_hamming_decode_buffer@
    }

    /// The progress tracker of the input stream.
    pub closed spec fn progress(self) -> ProgressTracker {
        self.progress
    }

    /// The descriptor of the frames.
    pub closed spec fn descriptor(self) -> FileDescriptor {
        self.descriptor
    }

    /// The unpacked values not yet taken, with their unpacked channels.
    pub closed spec fn output(self) -> Seq<(usize, u32)> {
        self.output@
    }

    /// The progress reports not yet taken.
    pub closed spec fn reports(self) -> Seq<(u64, u64)> {
        self.reports@
    }

    /// The byte order in which the words of the Hamming code are read: that
    /// of the machine, least significant byte first or not.
    pub closed spec fn little(self) -> bool {
        self.little_endian
    }

    /// Creates a reader for a stream of `size` bytes with the given frame
    /// layout, reporting progress every million bytes.
    pub fn new(size: u64, descriptor: FileDescriptor) -> (r: Self)
        requires
            well_formed(descriptor),
        ensures
            r.pre_buffer() == Seq::<u8>::empty(),
            r.post_buffer() == Seq::<u8>::empty(),
            r.output() == Seq::<(usize, u32)>::empty(),
            r.reports() == Seq::<(u64, u64)>::empty(),
            r.descriptor() == descriptor,
            r.progress().total() == size,
            r.progress().so_far() == 0,
            r.progress().last() == 9,
            r.progress().interval() == 1_000_000,
            r.little() == machine_little(),
    {
        DataFrameReader {
            pre_hamming_decode_buffer: Vec::new(),
            post_hamming_decode_buffer: Vec::new(),
            progress: ProgressTracker::new(size, 1_000_000),
            descriptor,
            output: Vec::new(),
            reports: Vec::new(),
            little_endian: native_little_endian(),
        }
    }

    /// Takes the unpacked values produced so far, each with the index of its
    /// unpacked channel.
    pub fn take_output(&mut self) -> (r: Vec<(usize, u32)>)
        ensures
            r@ == old(self).output(),
            final(self).output() == Seq::<(usize, u32)>::empty(),
            final(self).pre_buffer() == old(self).pre_buffer(),
            final(self).post_buffer() == old(self).post_buffer(),
            final(self).progress() == old(self).progress(),
            final(self).descriptor() == old(self).descriptor(),
            final(self).little() == old(self).little(),
            final(self).reports() == old(self).reports(),
    {
        let mut r: Vec<(usize, u32)> = Vec::new();
        core::mem::swap(&mut r, &mut self.output);
        r
    }

    /// Takes the progress reports produced so far: bytes so far and total.
    pub fn take_reports(&mut self) -> (r: Vec<(u64, u64)>)
        ensures
            r@ == old(self).reports(),
            final(self).reports() == Seq::<(u64, u64)>::empty(),
            final(self).pre_buffer() == old(self).pre_buffer(),
            final(self).post_buffer() == old(self).post_buffer(),
            final(self).progress() == old(self).progress(),
            final(self).descriptor() == old(self).descriptor(),
            final(self).little() == old(self).little(),
            final(self).output() == old(self).output(),
    {
        let mut r: Vec<(u64, u64)> = Vec::new();
        core::mem::swap(&mut r, &mut self.reports);
        r
    }

    /// Reads whole frames from the decoded bytes until too few are left for
    /// the next frame, or a frame is refused.
    fn read_as_many_frames_as_possible(&mut self) -> (r: Result<(), String>)
        requires
            well_formed(old(self).descriptor()),
        ensures
            ({
                let (vals, rest, stop) = spec_read_frames(old(self).descriptor(), old(self).post_buffer());
                &&& final(self).output() == old(self).output() + vals
                &&& final(self).post_buffer() == rest
                &&& r is Ok <==> stop == ReadFrameError::NotEnoughData
                &&& r matches Err(m) ==> m@ == spec_frame_error_message(stop)
            }),
            final(self).pre_buffer() == old(self).pre_buffer(),
            final(self).progress() == old(self).progress(),
            final(self).descriptor() == old(self).descriptor(),
            final(self).little() == old(self).little(),
            final(self).reports() == old(self).reports(),
    {
        let ghost d = self.descriptor;
        let ghost total = spec_read_frames(d, self.post_hamming_decode_buffer@);
        let ghost out0 = self.output@;
        loop
            invariant
                well_formed(self.descriptor),
                self.descriptor == d,
                d == old(self).descriptor,
                self.little_endian == old(self).little_endian,
                self.pre_hamming_decode_buffer@ == old(self).pre_hamming_decode_buffer@,
                self.progress == old(self).progress,
                self.reports@ == old(self).reports@,
                out0 == old(self).output@,
                total == spec_read_frames(d, old(self).post_hamming_decode_buffer@),
                self.output@ + spec_read_frames(d, self.post_hamming_decode_buffer@).0 == out0
                    + total.0,
                spec_read_frames(d, self.post_hamming_decode_buffer@).1 == total.1,
                spec_read_frames(d, self.post_hamming_decode_buffer@).2 == total.2,
            decreases self.post_hamming_decode_buffer@.len(),
        {
            let ghost before = self.post_hamming_decode_buffer@;
            let ghost out_before = self.output@;
            match self.try_read_frame() {
                Ok(()) => {
                    assert(out_before + spec_read_frames(d, before).0 =~= self.output@
                        + spec_read_frames(d, self.post_hamming_decode_buffer@).0);
                },
                Err(ReadFrameError::NotEnoughData) => {
                    assert(self.output@ =~= out0 + total.0);
                    return Ok(());
                },
                Err(e) => {
                    assert(self.output@ =~= out0 + total.0);
                    let mut m = String::new();
                    match e {
                        ReadFrameError::UnknownFrame(id) => {
                            proof {
                                reveal_strlit("Unknown data frame ");
                            }
                            m.append("Unknown data frame ");
                            push_decimal(&mut m, id as u64);
                        },
                        _ => {
                            proof {
                                reveal_strlit("Corrupt data in data frame ");
                            }
                            m.append("Corrupt data in data frame ");
                            if let ReadFrameError::CorruptData(id) = e {
                                push_decimal(&mut m, id as u64);
                            }
                        },
                    }
                    return Err(m);
                },
            }
        }
    }

    /// Records `extended_by` more bytes of input, queueing a progress report
    /// when one is due.
    fn track_progress(&mut self, extended_by: usize)
        requires
            old(self).progress().so_far() + extended_by <= u64::MAX,
            old(self).progress().so_far() + extended_by >= old(self).progress().last(),
        ensures
            exists|report: Option<(u64, u64)>|
                advanced(old(self).progress(), extended_by as u64, final(self).progress(), report)
                    && final(self).reports() == old(self).reports() + report_seq(report),
            final(self).pre_buffer() == old(self).pre_buffer(),
            final(self).post_buffer() == old(self).post_buffer(),
            final(self).descriptor() == old(self).descriptor(),
            final(self).little() == old(self).little(),
            final(self).output() == old(self).output(),
    {
        let report = self.progress.step(extended_by as u64);
        let ghost reports0 = self.reports@;
        if let Some(x) = report {
            self.reports.push(x);
        }
        assert(self.reports@ =~= reports0 + report_seq(report));
    }

    /// Appends `bytes` to the bytes waiting for Hamming decoding.
    fn push_to_pre_hamming_decode_buffer(&mut self, bytes: &[u8])
        requires
            old(self).progress().so_far() + bytes@.len() <= u64::MAX,
            old(self).progress().so_far() + bytes@.len() >= old(self).progress().last(),
        ensures
            final(self).pre_buffer() == old(self).pre_buffer() + bytes@,
            exists|report: Option<(u64, u64)>|
                advanced(old(self).progress(), bytes@.len() as u64, final(self).progress(), report)
                    && final(self).reports() == old(self).reports() + report_seq(report),
            final(self).post_buffer() == old(self).post_buffer(),
            final(self).descriptor() == old(self).descriptor(),
            final(self).little() == old(self).little(),
            final(self).output() == old(self).output(),
    {
        let old_len = self.pre_hamming_decode_buffer.len();
        self.pre_hamming_decode_buffer.extend_from_slice(bytes);
        let extended_by = self.pre_hamming_decode_buffer.len() - old_len;
        self.track_progress(extended_by);
    }

    /// Decodes every whole block of eight bytes waiting for Hamming decoding,
    /// keeping the seven bytes of each that do not hold the check bits, and
    /// stops at the first block that reports an error.
    fn hamming_decode_as_many_chunks_as_possible(&mut self) -> (r: Result<(), String>)
        ensures
            ({
                let (pre2, post2, ok) = spec_hamming_stage(
                    old(self).pre_buffer(),
                    old(self).post_buffer(),
                    old(self).little(),
                );
                &&& final(self).pre_buffer() == pre2
                &&& final(self).post_buffer() == post2
                &&& r is Ok <==> ok
            }),
            r matches Err(m) ==> m@ == spec_hamming_message(),
            final(self).progress() == old(self).progress(),
            final(self).descriptor() == old(self).descriptor(),
            final(self).little() == old(self).little(),
            final(self).output() == old(self).output(),
            final(self).reports() == old(self).reports(),
    {
        let ghost goal = spec_hamming_stage(
            self.pre_hamming_decode_buffer@,
            self.post_hamming_decode_buffer@,
            self.little_endian,
        );
        while self.pre_hamming_decode_buffer.len() >= 8
            invariant
                spec_hamming_stage(
                    self.pre_hamming_decode_buffer@,
                    self.post_hamming_decode_buffer@,
                    self.little_endian,
                ) == goal,
                goal == spec_hamming_stage(
                    old(self).pre_hamming_decode_buffer@,
                    old(self).post_hamming_decode_buffer@,
                    old(self).little_endian,
                ),
                self.progress == old(self).progress,
                self.descriptor == old(self).descriptor,
                self.little_endian == old(self).little_endian,
                self.output == old(self).output,
                self.reports == old(self).reports,
            decreases self.pre_hamming_decode_buffer@.len(),
        {
            let ghost pre = self.pre_hamming_decode_buffer@;
            let mut chunk = self.pre_hamming_decode_buffer.split_off(8);
            core::mem::swap(&mut chunk, &mut self.pre_hamming_decode_buffer);
            assert(chunk@ =~= pre.take(8));
            assert(self.pre_hamming_decode_buffer@ =~= pre.skip(8));
            assert(block(chunk@, 0) =~= chunk@);
            let ghost coded = chunk@;
            if decode_words(chunk.as_mut_slice(), self.little_endian).is_err() {
                proof {
                    assert(word_not_decodable(coded, self.little_endian, 0));
                    assert(block_payload(pre.take(8), self.little_endian) is None);
                    assert(spec_hamming_stage(pre, self.post_hamming_decode_buffer@, self.little_endian)
                        == (pre.skip(8), self.post_hamming_decode_buffer@, false));
                }
                let mut m = String::new();
                proof {
                    reveal_strlit("Error detected during Hamming decode");
                }
                m.append("Error detected during Hamming decode");
                return Err(m);
            }
            proof {
                assert(word_decoded(coded, self.little_endian, chunk@, 0));
                assert(block(chunk@, 0) =~= chunk@);
            }
            let ghost decoded = chunk@;
            // Remove the byte that held the Hamming code.
            if self.little_endian {
                chunk.remove(0);
            } else {
                chunk.pop();
            }
            assert(chunk@ =~= without_code_byte(decoded, self.little_endian));
            self.post_hamming_decode_buffer.append(&mut chunk);
        }
        Ok(())
    }

    /// Takes in more bytes of the stream: decodes every whole block of eight,
    /// then reads every whole frame of the decoded bytes.
    pub fn push_bytes(&mut self, bytes: &[u8]) -> (r: Result<(), String>)
        requires
            well_formed(old(self).descriptor()),
            old(self).progress().so_far() + bytes@.len() <= u64::MAX,
            old(self).progress().so_far() + bytes@.len() >= old(self).progress().last(),
        ensures
            pushed(*old(self), bytes@, *final(self), r),
    {
        let ghost s0 = *self;
        self.push_to_pre_hamming_decode_buffer(bytes);
        let ghost s1 = *self;
        let h = self.hamming_decode_as_many_chunks_as_possible();
        let ghost s2 = *self;
        if let Err(m) = h {
            return Err(m);
        }
        self.read_as_many_frames_as_possible()
    }

    /// The id of the frame at the front of the decoded bytes.
    fn try_read_frame_id(&self) -> (r: Result<usize, ReadFrameError>)
        ensures
            self.post_buffer().len() == 0 ==> r == Err::<usize, ReadFrameError>(
                ReadFrameError::NotEnoughData,
            ),
            self.post_buffer().len() > 0 ==> r == Ok::<usize, ReadFrameError>(
                self.post_buffer()[0] as usize,
            ),
    {
        if self.post_hamming_decode_buffer.len() == 0 {
            Err(ReadFrameError::NotEnoughData)
        } else {
            Ok(self.post_hamming_decode_buffer[0] as usize)
        }
    }

    /// Reads one frame from the front of the decoded bytes, queueing its
    /// values and removing its bytes.
    fn try_read_frame(&mut self) -> (r: Result<(), ReadFrameError>)
        requires
            well_formed(old(self).descriptor()),
        ensures
            ({
                let (res, vals) = spec_try_read_frame(old(self).descriptor(), old(self).post_buffer());
                &&& final(self).output() == old(self).output() + vals
                &&& match res {
                    Ok(m) => r is Ok && 1 <= m <= old(self).post_buffer().len()
                        && final(self).post_buffer() == old(self).post_buffer().skip(m as int),
                    Err(e) => r == Err::<(), ReadFrameError>(e) && final(self).post_buffer()
                        == old(self).post_buffer(),
                }
            }),
            final(self).pre_buffer() == old(self).pre_buffer(),
            final(self).progress() == old(self).progress(),
            final(self).descriptor() == old(self).descriptor(),
            final(self).little() == old(self).little(),
            final(self).reports() == old(self).reports(),
    {
        let frame_id = self.try_read_frame_id()?;
        if frame_id >= self.descriptor.packed_channel_assignments.len() {
            return Err(ReadFrameError::UnknownFrame(frame_id as u8));
        }
        let (start, end, frame_length) = get_packed_frame_info(&self.descriptor, frame_id);
        let ghost chs = frame_channels(self.descriptor, frame_id as int);
        let mut offset = setup_read_ptr(&self.post_hamming_decode_buffer, frame_length)?;
        let mut unpacked_channel_index = get_first_unpacked_channel_index(&self.descriptor, frame_id);
        let ghost ustart = unpacked_channel_index;
        let ghost buf = self.post_hamming_decode_buffer@;
        let ghost out0 = self.output@;
        let ulen = self.descriptor.unpacked_channels.len();
        proof {
            lemma_unpack_frame_count(chs, buf.skip(1), chs.len());
            lemma_unpacked_count_prefix(chs, chs.len() as int);
            assert(chs.take(chs.len() as int) == chs);
        }
        let mut c: usize = start;
        while c < end
            invariant
                well_formed(self.descriptor),
                frame_id < self.descriptor.packed_channel_assignments@.len(),
                start == self.descriptor.packed_channel_assignments@[frame_id as int].start,
                end == self.descriptor.packed_channel_assignments@[frame_id as int].end,
                ustart == self.descriptor.unpacked_channel_assignments@[frame_id as int].start,
                chs == frame_channels(self.descriptor, frame_id as int),
                buf == self.post_hamming_decode_buffer@,
                buf.len() >= 1 + spec_packed_len(chs),
                frame_id == buf[0],
                ulen == self.descriptor.unpacked_channels@.len(),
                ustart + unpacked_count(chs) <= ulen,
                self.pre_hamming_decode_buffer == old(self).pre_hamming_decode_buffer,
                self.progress == old(self).progress,
                self.reports == old(self).reports,
                self.descriptor == old(self).descriptor,
                self.little_endian == old(self).little_endian,
                out0 == old(self).output@,
                buf == old(self).post_hamming_decode_buffer@,
                start <= c <= end,
                offset == 1 + spec_packed_len(chs.take(c - start)),
                unpack_frame(chs, buf.skip(1), (c - start) as nat) is Ok,
                self.output@ == out0 + to_channels(
                    ustart as int,
                    unpack_frame(chs, buf.skip(1), (c - start) as nat)->Ok_0,
                ),
                unpacked_channel_index == ustart + unpack_frame(chs, buf.skip(1), (c - start) as nat)->Ok_0.len(),
            decreases end - c,
        {
            let ghost k = c - start;
            proof {
                lemma_packed_len_take(chs, k);
                lemma_packed_len_prefix(chs, k + 1);
                lemma_unpack_frame_count(chs, buf.skip(1), (k + 1) as nat);
                lemma_unpacked_count_prefix(chs, k + 1);
                assert(chs[k] == self.descriptor.packed_channels@[c as int]);
            }
            let typ = self.descriptor.packed_channels[c];
            proof {
                let off = spec_packed_len(chs.take(k));
                assert(buf.subrange(offset as int, offset + spec_num_packed_bytes(typ)) =~= buf.skip(
                    1,
                ).subrange(off as int, (off + spec_num_packed_bytes(chs[k])) as int));
                lemma_unpack_frame_count(chs, buf.skip(1), k as nat);
                assert(chs.take(k + 1).drop_last() == chs.take(k));
                assert(unpacked_count(chs.take(k + 1)) == unpacked_count(chs.take(k))
                    + spec_unpacked_types(typ).len());
            }
            let res = unpack_datum_from_channel(
                &typ,
                &self.post_hamming_decode_buffer,
                &mut offset,
                &mut self.output,
                &mut unpacked_channel_index,
            );
            if res.is_err() {
                proof {
                    lemma_unpack_frame_err_persists(chs, buf.skip(1), (k + 1) as nat, chs.len());
                }
                return Err(ReadFrameError::CorruptData(frame_id as u8));
            }
            c = c + 1;
        }
        // Remove the byte that holds the frame id, and the payload.
        let tail = self.post_hamming_decode_buffer.split_off(1 + frame_length);
        self.post_hamming_decode_buffer = tail;
        Ok(())
    }
}

/// `after` is `before` after pushing `bytes`, with outcome `r`: the bytes join
/// those waiting for Hamming decoding and count towards progress; whole
/// blocks are decoded into `mid` (see `spec_hamming_stage`); and, when they all
/// decode, whole frames are read from `mid` (see `spec_read_frames`).
pub open spec fn pushed(
    before: DataFrameReader,
    bytes: Seq<u8>,
    after: DataFrameReader,
    r: Result<(), String>,
) -> bool {
    let pre1 = before.pre_buffer() + bytes;
    &&& after.descriptor() == before.descriptor()
    &&& exists|report: Option<(u64, u64)>|
        advanced(before.progress(), bytes.len() as u64, after.progress(), report) && after.reports()
            == before.reports() + report_seq(report)
    &&& after.little() == before.little()
    &&& ({
        let (pre2, mid, ok) = spec_hamming_stage(pre1, before.post_buffer(), before.little());
        &&& after.pre_buffer() == pre2
        &&& if ok {
            let (vals, rest, stop) = spec_read_frames(before.descriptor(), mid);
            &&& after.output() == before.output() + vals
            &&& after.post_buffer() == rest
            &&& r is Ok <==> stop == ReadFrameError::NotEnoughData
            &&& r matches Err(m) ==> m@ == spec_frame_error_message(stop)
        } else {
            &&& after.output() == before.output()
            &&& after.post_buffer() == mid
            &&& r matches Err(m) && m@ == spec_hamming_message()
        }
    })
}

/// The index of the first unpacked channel of frame `frame_id`.
fn get_first_unpacked_channel_index(file_descriptor: &FileDescriptor, frame_id: usize) -> (r: usize)
    requires
        frame_id < file_descriptor.unpacked_channel_assignments@.len(),
    ensures
        r == file_descriptor.unpacked_channel_assignments@[frame_id as int].start,
{
    file_descriptor.unpacked_channel_assignments[frame_id].start
}

/// The range of packed channels of frame `frame_id` and their packed length.
fn get_packed_frame_info(descriptor: &FileDescriptor, frame_id: usize) -> (r: (usize, usize, usize))
    requires
        well_formed(*descriptor),
        frame_id < descriptor.packed_channel_assignments@.len(),
    ensures
        r.0 == descriptor.packed_channel_assignments@[frame_id as int].start,
        r.1 == descriptor.packed_channel_assignments@[frame_id as int].end,
        r.2 == spec_packed_len(frame_channels(*descriptor, frame_id as int)),
{
    let (start, end) = get_packed_channels(descriptor, frame_id);
    let ghost chs = frame_channels(*descriptor, frame_id as int);
    let mut frame_length: usize = 0;
    let mut c: usize = start;
    proof {
        lemma_packed_len_bound(descriptor.packed_channels@);
    }
    while c < end
        invariant
            well_formed(*descriptor),
            frame_id < descriptor.packed_channel_assignments@.len(),
            start == descriptor.packed_channel_assignments@[frame_id as int].start,
            end == descriptor.packed_channel_assignments@[frame_id as int].end,
            chs == frame_channels(*descriptor, frame_id as int),
            start <= c <= end,
            frame_length == spec_packed_len(chs.take(c - start)),
            frame_length <= 4 * (c - start),
        decreases end - c,
    {
        proof {
            lemma_packed_len_take(chs, c - start);
            assert(chs[c - start] == descriptor.packed_channels@[c as int]);
        }
        frame_length = frame_length + descriptor.packed_channels[c].num_packed_bytes();
        c = c + 1;
    }
    assert(chs.take(end - start) == chs);
    (start, end, frame_length)
}

/// The range of packed channels of frame `frame_id`.
fn get_packed_channels(descriptor: &FileDescriptor, frame_id: usize) -> (r: (usize, usize))
    requires
        frame_id < descriptor.packed_channel_assignments@.len(),
    ensures
        r.0 == descriptor.packed_channel_assignments@[frame_id as int].start,
        r.1 == descriptor.packed_channel_assignments@[frame_id as int].end,
{
    let channels = &descriptor.packed_channel_assignments[frame_id];
    (channels.start, channels.end)
}

/// The offset of the payload of the frame at the front of `input_buffer`, if
/// the whole frame is there.
fn setup_read_ptr(input_buffer: &Vec<u8>, frame_length: usize) -> (r: Result<usize, ReadFrameError>)
    ensures
        input_buffer@.len() < 1 + frame_length ==> r == Err::<usize, ReadFrameError>(
            ReadFrameError::NotEnoughData,
        ),
        input_buffer@.len() >= 1 + frame_length ==> r == Ok::<usize, ReadFrameError>(1),
{
    if input_buffer.len() < 1 || input_buffer.len() - 1 < frame_length {
        return Err(ReadFrameError::NotEnoughData);
    }
    Ok(1)
}

/// Unpacks the datum of type `channel_typ` at `data_ptr` and queues its values
/// for consecutive unpacked channels from `unpacked_channel_index`.
fn unpack_datum_from_channel(
    channel_typ: &DataType,
    buf: &Vec<u8>,
    data_ptr: &mut usize,
    output: &mut Vec<(usize, u32)>,
    unpacked_channel_index: &mut usize,
) -> (r: Result<(), ()>)
    requires
        !(*channel_typ is LoneSwitch),
        *old(data_ptr) + spec_num_packed_bytes(*channel_typ) <= buf@.len(),
        *old(unpacked_channel_index) + spec_unpacked_types(*channel_typ).len() <= usize::MAX,
    ensures
        ({
            let bytes = buf@.subrange(
                *old(data_ptr) as int,
                *old(data_ptr) + spec_num_packed_bytes(*channel_typ),
            );
            match spec_unpack(*channel_typ, bytes) {
                Ok(v) => {
                    &&& r is Ok
                    &&& *final(data_ptr) == *old(data_ptr) + spec_num_packed_bytes(*channel_typ)
                    &&& final(output)@ == old(output)@ + to_channels(
                        *old(unpacked_channel_index) as int,
                        v,
                    )
                    &&& *final(unpacked_channel_index) == *old(unpacked_channel_index) + v.len()
                },
                Err(_) => r is Err && final(output)@ == old(output)@,
            }
        }),
{
    let n = channel_typ.num_packed_bytes();
    let total = buf.len();
    assert(*data_ptr + n <= total);
    let bytes = copy_range(buf, *data_ptr, *data_ptr + n);
    let values = match channel_typ.unpack_bits(bytes.as_slice()) {
        Ok(v) => v,
        Err(e) => return Err(e),
    };
    *data_ptr = *data_ptr + n;
    write_datum_to_unpacked_channels(values, output, unpacked_channel_index);
    Ok(())
}

/// Queues `values` for consecutive unpacked channels from
/// `unpacked_channel_index`, which it advances past them.
fn write_datum_to_unpacked_channels(
    values: Vec<u32>,
    output: &mut Vec<(usize, u32)>,
    unpacked_channel_index: &mut usize,
)
    requires
        *old(unpacked_channel_index) + values@.len() <= usize::MAX,
    ensures
        final(output)@ == old(output)@ + to_channels(*old(unpacked_channel_index) as int, values@),
        *final(unpacked_channel_index) == *old(unpacked_channel_index) + values@.len(),
{
    let ghost start = *unpacked_channel_index;
    let ghost out0 = output@;
    let mut k: usize = 0;
    while k < values.len()
        invariant
            k <= values@.len(),
            start + values@.len() <= usize::MAX,
            *unpacked_channel_index == start + k,
            output@ == out0 + to_channels(start as int, values@.take(k as int)),
        decreases values@.len() - k,
    {
        output.push((*unpacked_channel_index, values[k]));
        *unpacked_channel_index = *unpacked_channel_index + 1;
        assert(output@ =~= out0 + to_channels(start as int, values@.take(k + 1)));
        k = k + 1;
    }
    assert(values@.take(k as int) == values@);
}


/// The Hamming stage appends to the decoded bytes already there: what it
/// appends, and what it leaves, do not depend on them.
proof fn lemma_hamming_stage_appends(pre: Seq<u8>, post: Seq<u8>, little: bool)
    ensures
        ({
            let (rest, decoded, ok) = spec_hamming_stage(pre, Seq::empty(), little);
            spec_hamming_stage(pre, post, little) == (rest, post + decoded, ok)
        }),
    decreases pre.len(),
{
    if pre.len() >= 8 {
        match block_payload(pre.take(8), little) {
            Some(p) => {
                lemma_hamming_stage_appends(pre.skip(8), post + p, little);
                lemma_hamming_stage_appends(pre.skip(8), Seq::<u8>::empty() + p, little);
                let (rest, decoded, ok) = spec_hamming_stage(pre.skip(8), Seq::empty(), little);
                assert(Seq::<u8>::empty() + p + decoded =~= p + decoded);
                assert(post + p + decoded =~= post + (p + decoded));
                lemma_hamming_stage_appends(pre.skip(8), p, little);
            },
            None => {
                assert(post + Seq::<u8>::empty() =~= post);
            },
        }
    } else {
        assert(post + Seq::<u8>::empty() =~= post);
    }
}

/// Pushing bytes in two pieces reads the same values, and leaves the same
/// bytes waiting, as pushing them at once into a reader in the same state
/// (such as a second reader built from the same descriptor on the same
/// machine), when the first push succeeds and every block of the second
/// decodes; only the progress reports may differ.
pub proof fn law_push_split(
    r0: DataFrameReader,
    a: Seq<u8>,
    r1: DataFrameReader,
    b: Seq<u8>,
    r2: DataFrameReader,
    res2: Result<(), String>,
    s0: DataFrameReader,
    q: DataFrameReader,
    resq: Result<(), String>,
)
    requires
        well_formed(r0.descriptor()),
        pushed(r0, a, r1, Ok(())),
        pushed(r1, b, r2, res2),
        spec_hamming_stage(r1.pre_buffer() + b, r1.post_buffer(), r1.little()).2,
        s0.descriptor() == r0.descriptor(),
        s0.little() == r0.little(),
        s0.pre_buffer() == r0.pre_buffer(),
        s0.post_buffer() == r0.post_buffer(),
        s0.output() == r0.output(),
        pushed(s0, a + b, q, resq),
    ensures
        q.output() == r2.output(),
        q.pre_buffer() == r2.pre_buffer(),
        q.post_buffer() == r2.post_buffer(),
        resq is Ok <==> res2 is Ok,
        resq matches Err(m) ==> (res2 matches Err(n) && m@ == n@),
{
    let d = r0.descriptor();
    let l = r0.little();
    let pre0 = r0.pre_buffer();
    let post0 = r0.post_buffer();
    let (pre1, mid1, ok1) = spec_hamming_stage(pre0 + a, post0, l);
    assert(ok1);
    let (v1, rest1, stop1) = spec_read_frames(d, mid1);
    law_hamming_stage_split(pre0 + a, b, post0, l);
    assert(pre0 + (a + b) =~= pre0 + a + b);
    let (pre2, z, ok2) = spec_hamming_stage(pre1 + b, Seq::empty(), l);
    lemma_hamming_stage_appends(pre1 + b, mid1, l);
    lemma_hamming_stage_appends(pre1 + b, rest1, l);
    law_read_frames_split(d, mid1, z);
    let (v2, rest2, stop2) = spec_read_frames(d, rest1 + z);
    assert(r0.output() + (v1 + v2) =~= r0.output() + v1 + v2);
}

} // verus!
