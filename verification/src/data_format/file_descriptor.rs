use vstd::prelude::*;
use crate::data_format::data_type::{DataType, spec_unpacked_types};
use crate::data_format::descriptors::{all_packable, spec_packed_len, lemma_packed_len_take};

verus! {

/// A data frame: how often it is sampled and the labelled items it packs.
#[derive(Clone)]
pub struct PackedDataFrameDescriptor {
    /// Samples per second.
    pub sample_rate: i32,
    pub data_sequence: Vec<(DataType, String)>,
}

/// The plain value of a labelled item: its type and its label.
pub open spec fn item_view(item: (DataType, String)) -> (DataType, Seq<char>) {
    (item.0, item.1@)
}

/// The plain value of a data frame: its sample rate and its labelled items.
pub open spec fn frame_view(f: PackedDataFrameDescriptor) -> (i32, Seq<(DataType, Seq<char>)>) {
    (f.sample_rate, f.data_sequence@.map_values(|p: (DataType, String)| item_view(p)))
}

/// The plain values of a sequence of data frames.
pub open spec fn frames_view(fs: Seq<PackedDataFrameDescriptor>) -> Seq<(i32, Seq<(DataType, Seq<char>)>)> {
    fs.map_values(|f: PackedDataFrameDescriptor| frame_view(f))
}

/// The data types of the items of a frame.
pub open spec fn item_types(items: Seq<(DataType, Seq<char>)>) -> Seq<DataType> {
    items.map_values(|p: (DataType, Seq<char>)| p.0)
}

impl PackedDataFrameDescriptor {
    /// The number of packed bytes in this data frame.
    pub(crate) fn packed_len(&self) -> (r: usize)
        requires
            all_packable(item_types(frame_view(*self).1)),
            self.data_sequence@.len() <= usize::MAX / 5,
        ensures
            r == spec_packed_len(item_types(frame_view(*self).1)),
    {
        let ghost types = item_types(frame_view(*self).1);
        let mut total: usize = 0;
        let mut i: usize = 0;
        while i < self.data_sequence.len()
            invariant
                types == item_types(frame_view(*self).1),
                types.len() == self.data_sequence@.len(),
                all_packable(types),
                self.data_sequence@.len() <= usize::MAX / 5,
                i <= self.data_sequence@.len(),
                total == spec_packed_len(types.take(i as int)),
                total <= 4 * i,
            decreases self.data_sequence@.len() - i,
        {
            proof {
                lemma_packed_len_take(types, i as int);
            }
            assert(types[i as int] == self.data_sequence@[i as int].0);
            total = total + self.data_sequence[i].0.num_packed_bytes();
            i = i + 1;
        }
        assert(types.take(i as int) == types);
        total
    }
}

pub struct PackedChannelDescriptor {
    /// Samples per second.
    pub sample_rate: i32,
}

/// One unpacked data stream: its sample rate, its label and its type.
#[derive(Clone)]
pub struct UnpackedChannelDescriptor {
    /// Samples per second.
    pub sample_rate: i32,
    pub name: String,
    pub typ: DataType,
}

/// Describes the unpacked data sourced from a packed file.
#[derive(Clone)]
pub struct UnpackedFileDescriptor {
    pub channels: Vec<UnpackedChannelDescriptor>,
}

/// The plain value of an unpacked channel descriptor.
pub open spec fn channel_view(c: UnpackedChannelDescriptor) -> (i32, Seq<char>, DataType) {
    (c.sample_rate, c.name@, c.typ)
}

/// The plain values of a sequence of unpacked channel descriptors.
pub open spec fn channels_view(cs: Seq<UnpackedChannelDescriptor>) -> Seq<(i32, Seq<char>, DataType)> {
    cs.map_values(|c: UnpackedChannelDescriptor| channel_view(c))
}

/// The unpacked channels that one labelled item feeds.
pub open spec fn item_channels(rate: i32, item: (DataType, Seq<char>)) -> Seq<(i32, Seq<char>, DataType)> {
    spec_unpacked_types(item.0).map_values(|t: DataType| (rate, item.1, t))
}

/// The unpacked channels that a sequence of labelled items feeds, in order.
pub open spec fn items_channels(rate: i32, items: Seq<(DataType, Seq<char>)>) -> Seq<(i32, Seq<char>, DataType)>
    decreases items.len(),
{
    if items.len() == 0 {
        Seq::empty()
    } else {
        items_channels(rate, items.drop_last()) + item_channels(rate, items.last())
    }
}

/// The packed channels of a sequence of data frames, frame after frame.
pub open spec fn frames_packed(frames: Seq<(i32, Seq<(DataType, Seq<char>)>)>) -> Seq<DataType>
    decreases frames.len(),
{
    if frames.len() == 0 {
        Seq::empty()
    } else {
        frames_packed(frames.drop_last()) + item_types(frames.last().1)
    }
}

/// The unpacked channels of a sequence of data frames, frame after frame.
pub open spec fn frames_unpacked(frames: Seq<(i32, Seq<(DataType, Seq<char>)>)>) -> Seq<(i32, Seq<char>, DataType)>
    decreases frames.len(),
{
    if frames.len() == 0 {
        Seq::empty()
    } else {
        frames_unpacked(frames.drop_last()) + items_channels(frames.last().0, frames.last().1)
    }
}

/// The channel layout of a packed file.
#[derive(Clone)]
pub struct FileDescriptor {
    pub data_frame_sample_rates: Vec<i32>,
    /// Which (packed) channels each data frame contains. I.E.
    /// `packed_channel_assignments[data_frame_id]` tells you a range to use on
    /// `packed_channels`
    pub packed_channel_assignments: Vec<core::ops::Range<usize>>,
    pub packed_channels: Vec<DataType>,
    /// Like `packed_channel_assignments`, but provides ranges to be used on
    /// `unpacked_channels`
    pub unpacked_channel_assignments: Vec<core::ops::Range<usize>>,
    pub unpacked_channels: Vec<UnpackedChannelDescriptor>,
}

/// The descriptor that `FileDescriptor::new` builds from `frames`: the packed
/// and unpacked channels of all frames in order, and for each frame the
/// ranges of its own channels within them.
pub open spec fn describes_frames(d: FileDescriptor, frames: Seq<(i32, Seq<(DataType, Seq<char>)>)>) -> bool {
    &&& d.data_frame_sample_rates@ == frames.map_values(|f: (i32, Seq<(DataType, Seq<char>)>)| f.0)
    &&& d.packed_channels@ == frames_packed(frames)
    &&& channels_view(d.unpacked_channels@) == frames_unpacked(frames)
    &&& d.packed_channel_assignments@.len() == frames.len()
    &&& d.unpacked_channel_assignments@.len() == frames.len()
    &&& forall|i: int|
        0 <= i < frames.len() ==> {
            &&& (#[trigger] d.packed_channel_assignments@[i]).start == frames_packed(frames.take(i)).len()
            &&& d.packed_channel_assignments@[i].end == frames_packed(frames.take(i + 1)).len()
            &&& d.unpacked_channel_assignments@[i].start == frames_unpacked(frames.take(i)).len()
            &&& d.unpacked_channel_assignments@[i].end == frames_unpacked(frames.take(i + 1)).len()
        }
}


proof fn lemma_frames_take(frames: Seq<(i32, Seq<(DataType, Seq<char>)>)>, i: int)
    requires
        0 <= i < frames.len(),
    ensures
        frames_packed(frames.take(i + 1)) == frames_packed(frames.take(i)) + item_types(frames[i].1),
        frames_unpacked(frames.take(i + 1)) == frames_unpacked(frames.take(i)) + items_channels(
            frames[i].0,
            frames[i].1,
        ),
{
    assert(frames.take(i + 1).drop_last() == frames.take(i));
}

proof fn lemma_items_take(rate: i32, items: Seq<(DataType, Seq<char>)>, k: int)
    requires
        0 <= k < items.len(),
    ensures
        items_channels(rate, items.take(k + 1)) == items_channels(rate, items.take(k))
            + item_channels(rate, items[k]),
        item_types(items.take(k + 1)) == item_types(items.take(k)).push(items[k].0),
{
    assert(items.take(k + 1).drop_last() == items.take(k));
    assert(item_types(items.take(k + 1)) =~= item_types(items.take(k)).push(items[k].0));
}

impl FileDescriptor {
    /// Lays out the channels of the given data frames: all packed channels
    /// frame after frame, all unpacked channels frame after frame, and the
    /// ranges of each frame's channels within them.
    pub fn new(data_frames: Vec<PackedDataFrameDescriptor>) -> (r: Self)
        ensures
            describes_frames(r, frames_view(data_frames@)),
    {
        let ghost frames = frames_view(data_frames@);
        let mut packed_channel_counter: usize = 0;
        let mut unpacked_channel_counter: usize = 0;
        let mut data_frame_sample_rates: Vec<i32> = Vec::new();
        let mut packed_channel_assignments: Vec<core::ops::Range<usize>> = Vec::new();
        let mut packed_channels: Vec<DataType> = Vec::new();
        let mut unpacked_channel_assignments: Vec<core::ops::Range<usize>> = Vec::new();
        let mut unpacked_channels: Vec<UnpackedChannelDescriptor> = Vec::new();

        let mut f: usize = 0;
        while f < data_frames.len()
            invariant
                frames == frames_view(data_frames@),
                f <= frames.len(),
                frames.len() == data_frames@.len(),
                data_frame_sample_rates@ == frames.take(f as int).map_values(
                    |fr: (i32, Seq<(DataType, Seq<char>)>)| fr.0,
                ),
                packed_channels@ == frames_packed(frames.take(f as int)),
                channels_view(unpacked_channels@) == frames_unpacked(frames.take(f as int)),
                packed_channel_counter == packed_channels@.len(),
                unpacked_channel_counter == unpacked_channels@.len(),
                packed_channel_assignments@.len() == f,
                unpacked_channel_assignments@.len() == f,
                forall|i: int|
                    0 <= i < f ==> {
                        &&& (#[trigger] packed_channel_assignments@[i]).start == frames_packed(
                            frames.take(i),
                        ).len()
                        &&& packed_channel_assignments@[i].end == frames_packed(
                            frames.take(i + 1),
                        ).len()
                        &&& unpacked_channel_assignments@[i].start == frames_unpacked(
                            frames.take(i),
                        ).len()
                        &&& unpacked_channel_assignments@[i].end == frames_unpacked(
                            frames.take(i + 1),
                        ).len()
                    },
            decreases frames.len() - f,
        {
            let frame = &data_frames[f];
            let ghost items = frames[f as int].1;
            let ghost rate = frame.sample_rate;
            assert(frames[f as int] == frame_view(*frame));
            proof {
                lemma_frames_take(frames, f as int);
            }
            data_frame_sample_rates.push(frame.sample_rate);
            assert(data_frame_sample_rates@ =~= frames.take(f + 1).map_values(
                |fr: (i32, Seq<(DataType, Seq<char>)>)| fr.0,
            ));
            let ghost packed_before = packed_channels@;
            let ghost unpacked_before = channels_view(unpacked_channels@);
            let mut k: usize = 0;
            while k < frame.data_sequence.len()
                invariant
                    items == frame_view(*frame).1,
                    items.len() == frame.data_sequence@.len(),
                    rate == frame.sample_rate,
                    k <= items.len(),
                    packed_channels@ == packed_before + item_types(items.take(k as int)),
                    channels_view(unpacked_channels@) == unpacked_before + items_channels(
                        rate,
                        items.take(k as int),
                    ),
                decreases items.len() - k,
            {
                let typ = frame.data_sequence[k].0;
                let unpacked = typ.unpacked_types();
                proof {
                    lemma_items_take(rate, items, k as int);
                }
                let ghost before_item = channels_view(unpacked_channels@);
                let mut u: usize = 0;
                while u < unpacked.len()
                    invariant
                        u <= unpacked@.len(),
                        unpacked@ == spec_unpacked_types(typ),
                        typ == items[k as int].0,
                        items == frame_view(*frame).1,
                        items.len() == frame.data_sequence@.len(),
                        rate == frame.sample_rate,
                        k < items.len(),
                        channels_view(unpacked_channels@) == before_item + item_channels(
                            rate,
                            items[k as int],
                        ).take(u as int),
                    decreases unpacked@.len() - u,
                {
                    let name = frame.data_sequence[k].1.clone();
                    assert(name@ == items[k as int].1);
                    let ghost old_channels = unpacked_channels@;
                    unpacked_channels.push(
                        UnpackedChannelDescriptor {
                            sample_rate: frame.sample_rate,
                            name: name,
                            typ: unpacked[u],
                        },
                    );
                    assert(unpacked_channels@ == old_channels.push(unpacked_channels@.last()));
                    assert(channels_view(unpacked_channels@) =~= channels_view(old_channels).push(
                        (rate, items[k as int].1, unpacked@[u as int]),
                    ));
                    assert(channels_view(unpacked_channels@) =~= before_item + item_channels(
                        rate,
                        items[k as int],
                    ).take(u + 1));
                    u = u + 1;
                }
                assert(item_channels(rate, items[k as int]).take(u as int) == item_channels(
                    rate,
                    items[k as int],
                ));
                packed_channels.push(typ);
                k = k + 1;
            }
            assert(items.take(k as int) == items);
            packed_channel_assignments.push(packed_channel_counter..packed_channels.len());
            packed_channel_counter = packed_channels.len();
            unpacked_channel_assignments.push(unpacked_channel_counter..unpacked_channels.len());
            unpacked_channel_counter = unpacked_channels.len();
            f = f + 1;
        }
        assert(frames.take(f as int) == frames);
        FileDescriptor {
            data_frame_sample_rates,
            packed_channel_assignments,
            packed_channels,
            unpacked_channel_assignments,
            unpacked_channels,
        }
    }

    /// Creates an UnpackedFileDescriptor which describes unpacked data sourced
    /// from a file with this descriptor.
    pub fn unpacked(&self) -> (r: UnpackedFileDescriptor)
        ensures
            channels_view(r.channels@) == channels_view(self.unpacked_channels@),
    {
        let mut channels: Vec<UnpackedChannelDescriptor> = Vec::new();
        let mut i: usize = 0;
        while i < self.unpacked_channels.len()
            invariant
                i <= self.unpacked_channels@.len(),
                channels_view(channels@) == channels_view(self.unpacked_channels@.take(i as int)),
            decreases self.unpacked_channels@.len() - i,
        {
            let c = &self.unpacked_channels[i];
            let ghost old_channels = channels@;
            channels.push(
                UnpackedChannelDescriptor { sample_rate: c.sample_rate, name: c.name.clone(), typ: c.typ },
            );
            assert(channels_view(channels@) =~= channels_view(old_channels).push(
                channel_view(self.unpacked_channels@[i as int]),
            ));
            assert(channels_view(channels@) =~= channels_view(
                self.unpacked_channels@.take(i + 1),
            ));
            i = i + 1;
        }
        assert(self.unpacked_channels@.take(i as int) == self.unpacked_channels@);
        UnpackedFileDescriptor { channels }
    }
}


/// The number of unpacked values that data of the types `chs` unpacks to.
pub open spec fn unpacked_count(chs: Seq<DataType>) -> nat
    decreases chs.len(),
{
    if chs.len() == 0 {
        0
    } else {
        unpacked_count(chs.drop_last()) + spec_unpacked_types(chs.last()).len()
    }
}

/// The packed channels of data frame `f`.
pub open spec fn frame_channels(d: FileDescriptor, f: int) -> Seq<DataType> {
    d.packed_channels@.subrange(
        d.packed_channel_assignments@[f].start as int,
        d.packed_channel_assignments@[f].end as int,
    )
}

/// The descriptor can drive the unpacking of frames: every frame has ranges
/// of packed and unpacked channels within bounds, the unpacked range holds one
/// channel per value that the packed channels unpack to, no packed channel is
/// a lone switch, and there are not so many packed channels that their byte
/// count could overflow.
pub open spec fn well_formed(d: FileDescriptor) -> bool {
    &&& d.packed_channel_assignments@.len() == d.unpacked_channel_assignments@.len()
    &&& all_packable(d.packed_channels@)
    &&& d.packed_channels@.len() <= usize::MAX / 5
    &&& forall|f: int|
        0 <= f < d.packed_channel_assignments@.len() ==> {
            let pr = #[trigger] d.packed_channel_assignments@[f];
            let ur = d.unpacked_channel_assignments@[f];
            &&& pr.start <= pr.end <= d.packed_channels@.len()
            &&& ur.start <= ur.end <= d.unpacked_channels@.len()
            &&& ur.end - ur.start == unpacked_count(frame_channels(d, f))
        }
}


proof fn lemma_frames_prefix(frames: Seq<(i32, Seq<(DataType, Seq<char>)>)>, j: int)
    requires
        0 <= j <= frames.len(),
    ensures
        frames_packed(frames).take(frames_packed(frames.take(j)).len() as int) == frames_packed(
            frames.take(j),
        ),
        frames_packed(frames.take(j)).len() <= frames_packed(frames).len(),
        frames_unpacked(frames.take(j)).len() <= frames_unpacked(frames).len(),
    decreases frames.len() - j,
{
    if j < frames.len() {
        lemma_frames_take(frames, j);
        lemma_frames_prefix(frames, j + 1);
        let p = frames_packed(frames.take(j));
        let q = frames_packed(frames.take(j + 1));
        assert(q.take(p.len() as int) == p);
        assert(frames_packed(frames).take(p.len() as int) == q.take(p.len() as int));
    } else {
        assert(frames.take(j) == frames);
    }
}

proof fn lemma_items_channels_len(rate: i32, items: Seq<(DataType, Seq<char>)>)
    ensures
        items_channels(rate, items).len() == unpacked_count(item_types(items)),
    decreases items.len(),
{
    if items.len() > 0 {
        lemma_items_channels_len(rate, items.drop_last());
        assert(item_types(items).drop_last() == item_types(items.drop_last()));
    }
}

/// A file descriptor laid out from data frames without lone switches, and
/// with a packed channel count whose bytes fit in a `usize`, can drive the
/// unpacking of frames: each frame's packed channels are its items, and its
/// unpacked range holds one channel per value they unpack to.
pub proof fn law_described_frames_are_well_formed(
    d: FileDescriptor,
    frames: Seq<(i32, Seq<(DataType, Seq<char>)>)>,
)
    requires
        describes_frames(d, frames),
        all_packable(frames_packed(frames)),
        frames_packed(frames).len() <= usize::MAX / 5,
    ensures
        well_formed(d),
        forall|f: int| 0 <= f < frames.len() ==> frame_channels(d, f) == item_types(#[trigger] frames[f].1),
{
    assert forall|f: int| 0 <= f < frames.len() implies frame_channels(d, f) == item_types(
        #[trigger] frames[f].1,
    ) && {
        let pr = d.packed_channel_assignments@[f];
        let ur = d.unpacked_channel_assignments@[f];
        &&& pr.start <= pr.end <= d.packed_channels@.len()
        &&& ur.start <= ur.end <= d.unpacked_channels@.len()
        &&& ur.end - ur.start == unpacked_count(frame_channels(d, f))
    } by {
        lemma_frames_take(frames, f);
        lemma_frames_prefix(frames, f);
        lemma_frames_prefix(frames, f + 1);
        let p = frames_packed(frames.take(f));
        let q = frames_packed(frames.take(f + 1));
        assert(frames_packed(frames).subrange(p.len() as int, q.len() as int) =~= q.subrange(
            p.len() as int,
            q.len() as int,
        ));
        assert(frame_channels(d, f) =~= item_types(frames[f].1));
        lemma_items_channels_len(frames[f].0, frames[f].1);
    }
}


/// Starting a new, empty frame adds no packed channel.
pub proof fn lemma_frames_packed_new_frame(frames: Seq<(i32, Seq<(DataType, Seq<char>)>)>, rate: i32)
    ensures
        frames_packed(frames.push((rate, Seq::empty()))) == frames_packed(frames),
{
    assert(frames.push((rate, Seq::empty())).drop_last() == frames);
    assert(item_types(Seq::<(DataType, Seq<char>)>::empty()) =~= Seq::<DataType>::empty());
    assert(frames_packed(frames) + Seq::<DataType>::empty() =~= frames_packed(frames));
}

/// Adding an item to the last frame adds its type as the last packed channel.
pub proof fn lemma_frames_packed_new_item(
    frames: Seq<(i32, Seq<(DataType, Seq<char>)>)>,
    item: (DataType, Seq<char>),
)
    requires
        frames.len() > 0,
    ensures
        frames_packed(
            frames.update(frames.len() - 1, (frames.last().0, frames.last().1.push(item))),
        ) == frames_packed(frames).push(item.0),
{
    let updated = frames.update(frames.len() - 1, (frames.last().0, frames.last().1.push(item)));
    assert(updated.drop_last() == frames.drop_last());
    assert(item_types(frames.last().1.push(item)) =~= item_types(frames.last().1).push(item.0));
    assert(frames_packed(updated) =~= frames_packed(frames).push(item.0));
}

} // verus!
