use vstd::prelude::*;
use crate::data_format::data_type::DataType;
use crate::text::{push_debug_text, push_signed_decimal, spec_debug_text, spec_signed_decimal};

verus! {

/// How two neighbouring samples are combined into one sample of a lower
/// resolution version of a channel (a "mip").
#[derive(Clone, Copy, Debug)]
pub enum Filter {
    Minimum,
    Maximum,
    Average,
}

/// The short name of a filter, as used in file names.
pub open spec fn spec_filter_name(f: Filter) -> Seq<char> {
    match f {
        Filter::Minimum => "min"@,
        Filter::Maximum => "max"@,
        Filter::Average => "avg"@,
    }
}

impl Filter {
    /// The name of the filter in file names.
    pub fn name(self) -> (r: &'static str)
        ensures
            r@ == spec_filter_name(self),
    {
        match self {
            Filter::Minimum => "min",
            Filter::Maximum => "max",
            Filter::Average => "avg",
        }
    }
}

/// The start of the names of the files that hold channel `channel` of data
/// set `name` at each resolution.
pub open spec fn spec_file_name_base(name: Seq<char>, channel: DataType) -> Seq<char> {
    "cache/"@ + name + "/"@ + spec_debug_text(channel) + "-rate"@
}

/// The file name for resolution level `mip_index` (halved that many times)
/// with the given filter; level 0 is the data itself and has no filter.
pub open spec fn spec_file_name(base: Seq<char>, mip_index: i32, filter_name: Seq<char>) -> Seq<char> {
    if mip_index == 0 {
        base + "-0.bin"@
    } else {
        base + "-"@ + spec_signed_decimal(mip_index as int) + "-"@ + filter_name + ".bin"@
    }
}

/// The start of the names of the files of a channel of a dataset.
pub fn file_name_base(name: &str, channel: &DataType) -> (r: String)
    ensures
        r@ == spec_file_name_base(name@, *channel),
{
    proof {
        reveal_strlit("cache/");
        reveal_strlit("/");
        reveal_strlit("-rate");
    }
    let mut r = String::new();
    r.append("cache/");
    r.append(name);
    r.append("/");
    push_debug_text(&mut r, channel);
    r.append("-rate");
    r
}

/// The file of a level of detail: level 0 holds the samples as recorded,
/// the others name the filter that made them.
pub fn file_name(base: &str, mip_index: i32, filter_name: &str) -> (r: String)
    ensures
        r@ == spec_file_name(base@, mip_index, filter_name@),
{
    proof {
        reveal_strlit("-0.bin");
        reveal_strlit("-");
        reveal_strlit(".bin");
    }
    let mut r = String::new();
    r.append(base);
    if mip_index == 0 {
        r.append("-0.bin");
    } else {
        r.append("-");
        push_signed_decimal(&mut r, mip_index as i64);
        r.append("-");
        r.append(filter_name);
        r.append(".bin");
    }
    r
}

/// The sample a level of detail holds back for its partner, if any, once it
/// has received `samples` (each as its bit pattern), and the pairs it has
/// handed to the next coarser level, in order: each sample that arrives with
/// one held back makes a pair with it.
pub open spec fn paired(samples: Seq<u32>) -> (Option<u32>, Seq<(u32, u32)>)
    decreases samples.len(),
{
    if samples.len() == 0 {
        (None, Seq::empty())
    } else {
        let (held, pairs) = paired(samples.drop_last());
        match held {
            Some(first) => (None, pairs.push((first, samples.last()))),
            None => (Some(samples.last()), pairs),
        }
    }
}

/// One sample arriving at a level of detail that holds back `held`: the
/// sample now held back, and the pair to combine for the next coarser level,
/// when the new sample completes one.
pub fn pair_sample(held: Option<u32>, datum: u32) -> (r: (Option<u32>, Option<(u32, u32)>))
    ensures
        held matches Some(first) ==> r == (None::<u32>, Some((first, datum))),
        held is None ==> r == (Some(datum), None::<(u32, u32)>),
        forall|samples: Seq<u32>|
            #[trigger] paired(samples).0 == held ==> paired(samples.push(datum)) == (
                r.0,
                match r.1 {
                    Some(p) => paired(samples).1.push(p),
                    None => paired(samples).1,
                },
            ),
{
    proof {
        assert forall|samples: Seq<u32>| #[trigger] paired(samples).0 == held implies samples.push(
            datum,
        ).drop_last() == samples by {
            assert(samples.push(datum).drop_last() =~= samples);
        }
    }
    match held {
        Some(first) => (None, Some((first, datum))),
        None => (Some(datum), None),
    }
}

/// A level of detail pairs its samples as they stand: the first with the
/// second, the third with the fourth, and so on; after an odd number of
/// samples the last one waits for its partner.
pub proof fn law_pairs_are_neighbours(samples: Seq<u32>)
    ensures
        paired(samples).1.len() == samples.len() / 2,
        forall|i: int|
            0 <= i < samples.len() / 2 ==> #[trigger] paired(samples).1[i] == (
                samples[2 * i],
                samples[2 * i + 1],
            ),
        paired(samples).0 == (if samples.len() % 2 == 0 {
            None
        } else {
            Some(samples.last())
        }),
    decreases samples.len(),
{
    if samples.len() > 0 {
        let rest = samples.drop_last();
        law_pairs_are_neighbours(rest);
        assert forall|i: int| 0 <= i < samples.len() / 2 implies #[trigger] paired(samples).1[i] == (
            samples[2 * i],
            samples[2 * i + 1],
        ) by {
            if i < rest.len() / 2 {
                assert(paired(rest).1[i] == (rest[2 * i], rest[2 * i + 1]));
            }
        }
    }
}

} // verus!
