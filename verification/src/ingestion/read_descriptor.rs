use vstd::prelude::*;
use vstd::utf8::{
    valid_utf8, decode_utf8, encode_utf8, decode_utf8_encode_utf8, encode_utf8_decode_utf8,
    encode_utf8_valid_utf8,
};
use crate::data_format::data_type::{Axis, DataType};
use crate::data_format::file_descriptor::{
    FileDescriptor, PackedDataFrameDescriptor, describes_frames, frame_view, frames_view,
    frames_packed, law_described_frames_are_well_formed, lemma_frames_packed_new_frame,
    lemma_frames_packed_new_item, well_formed,
};
use crate::data_format::descriptors::all_packable;

verus! {

/// The characters of `s`.
fn chars_of(s: &str) -> (v: Vec<char>)
    ensures
        v@ == s@,
{
    let n = s.unicode_len();
    let mut v: Vec<char> = Vec::new();
    let mut k: usize = 0;
    while k < n
        invariant
            n == s@.len(),
            k <= n,
            v@ == s@.take(k as int),
        decreases n - k,
    {
        v.push(s.get_char(k));
        assert(v@ =~= s@.take(k + 1));
        k = k + 1;
    }
    assert(s@.take(n as int) == s@);
    v
}


/// A frame of a descriptor as plain values: its sample rate and its labelled
/// items.
pub type FrameText = (i32, Seq<(DataType, Seq<char>)>);

/// The reason a descriptor text is refused.
#[derive(Clone, Copy, Debug, PartialEq, Eq)]
pub enum DescriptorError {
    /// The text does not follow the grammar.
    Syntax,
    /// A frame label follows the label 255, so the next label would not fit
    /// in a byte.
    LabelOverflow,
    /// A frame label is not the one after the previous label (or 0 for the
    /// first frame).
    LabelJump { expected: u8, found: u8 },
    /// An item appears before the first frame label.
    ItemBeforeLabel,
}

/// A failed parse.
#[derive(Clone, Copy, Debug, PartialEq, Eq)]
pub struct ParseError;

/// The result of a parser: the rest of the input and the parsed value.
pub type ParseResult<'a, O> = Result<(&'a str, O), ParseError>;

pub open spec fn is_digit(c: char) -> bool {
    '0' <= c <= '9'
}

/// The end of the run of digits that starts at `p`.
pub open spec fn digits_end(s: Seq<char>, p: int) -> int
    decreases s.len() - p,
{
    if 0 <= p < s.len() && is_digit(s[p]) {
        digits_end(s, p + 1)
    } else {
        p
    }
}

/// The number that the digits `s[a..b]` denote.
pub open spec fn digits_value(s: Seq<char>, a: int, b: int) -> int
    decreases b - a,
{
    if b <= a {
        0
    } else {
        digits_value(s, a, b - 1) * 10 + ((s[b - 1] as int) - ('0' as int))
    }
}

/// An integer: a non-empty run of digits whose value fits in an `i32`.
pub open spec fn spec_parse_int(s: Seq<char>, p: int) -> Option<(int, i32)> {
    let e = digits_end(s, p);
    if e == p || digits_value(s, p, e) > 0x7fff_ffff {
        None
    } else {
        Some((e, digits_value(s, p, e) as i32))
    }
}

/// The text at `p` starts with `t`.
pub open spec fn has_tag(s: Seq<char>, p: int, t: Seq<char>) -> bool {
    0 <= p && p + t.len() <= s.len() && s.subrange(p, p + t.len()) == t
}

/// The tag `t` at `p`, followed by the position after it.
pub open spec fn spec_tag(s: Seq<char>, p: int, t: Seq<char>) -> Option<int> {
    if has_tag(s, p, t) {
        Some(p + t.len())
    } else {
        None
    }
}

/// The switch assignment that the `PackedSwitch` keyword stands for: switch
/// `i` in bit `i`.
pub open spec fn all_switches() -> [Option<u8>; 8] {
    [Some(0u8), Some(1u8), Some(2u8), Some(3u8), Some(4u8), Some(5u8), Some(6u8), Some(7u8)]
}

/// A data type keyword at `p`, tried in this order: `AccelerometerX`,
/// `AccelerometerY`, `AccelerometerZ`, `GPS`, `MuxCheck` and a number,
/// `PackedSwitch`, `Padding`, `StrainGauge` and a number.
pub open spec fn spec_parse_data_type(s: Seq<char>, p: int) -> Option<(int, DataType)> {
    if has_tag(s, p, "AccelerometerX"@) {
        Some((p + 14, DataType::Accelerometer(Axis::X)))
    } else if has_tag(s, p, "AccelerometerY"@) {
        Some((p + 14, DataType::Accelerometer(Axis::Y)))
    } else if has_tag(s, p, "AccelerometerZ"@) {
        Some((p + 14, DataType::Accelerometer(Axis::Z)))
    } else if has_tag(s, p, "GPS"@) {
        Some((p + 3, DataType::Gps))
    } else if has_tag(s, p, "MuxCheck"@) && spec_parse_int(s, p + 8) is Some {
        let (q, n) = spec_parse_int(s, p + 8)->0;
        Some((q, DataType::MuxCheck((n % 256) as u8)))
    } else if has_tag(s, p, "PackedSwitch"@) {
        Some((p + 12, DataType::PackedSwitch(all_switches())))
    } else if has_tag(s, p, "Padding"@) {
        Some((p + 7, DataType::Padding))
    } else if has_tag(s, p, "StrainGauge"@) && spec_parse_int(s, p + 11) is Some {
        let (q, n) = spec_parse_int(s, p + 11)->0;
        Some((q, DataType::StrainGauge(n as usize)))
    } else {
        None
    }
}

/// The first position at or after `p` that holds `c`, or the end of the text.
pub open spec fn spec_find(s: Seq<char>, p: int, c: char) -> int
    decreases s.len() - p,
{
    if p < 0 || p >= s.len() {
        s.len() as int
    } else if s[p] == c {
        p
    } else {
        spec_find(s, p + 1, c)
    }
}

/// An item at `p`: a data type, a comma, and a label that runs up to the next
/// semicolon, which ends the item.
pub open spec fn spec_parse_item(s: Seq<char>, p: int) -> Option<(int, (DataType, Seq<char>))> {
    match spec_parse_data_type(s, p) {
        Some((q, t)) => if q < s.len() && s[q] == ',' && spec_find(s, q + 1, ';') < s.len() {
            let e = spec_find(s, q + 1, ';');
            Some((e + 1, (t, s.subrange(q + 1, e))))
        } else {
            None
        },
        None => None,
    }
}

/// A frame label at `p`: a number, a comma, a sample rate and a colon. The
/// label keeps the lowest byte of its number.
pub open spec fn spec_parse_label(s: Seq<char>, p: int) -> Option<(int, (u8, i32))> {
    match spec_parse_int(s, p) {
        Some((q, label)) => if q < s.len() && s[q] == ',' {
            match spec_parse_int(s, q + 1) {
                Some((r, rate)) => if r < s.len() && s[r] == ':' {
                    Some((r + 1, ((label % 256) as u8, rate)))
                } else {
                    None
                },
                None => None,
            }
        } else {
            None
        },
        None => None,
    }
}

/// The lengths of the keywords of the grammar.
pub proof fn reveal_tags()
    ensures
        "AccelerometerX"@.len() == 14,
        "AccelerometerY"@.len() == 14,
        "AccelerometerZ"@.len() == 14,
        "GPS"@.len() == 3,
        "MuxCheck"@.len() == 8,
        "PackedSwitch"@.len() == 12,
        "Padding"@.len() == 7,
        "StrainGauge"@.len() == 11,
{
    reveal_strlit("AccelerometerX");
    reveal_strlit("AccelerometerY");
    reveal_strlit("AccelerometerZ");
    reveal_strlit("GPS");
    reveal_strlit("MuxCheck");
    reveal_strlit("PackedSwitch");
    reveal_strlit("Padding");
    reveal_strlit("StrainGauge");
}

pub proof fn lemma_digits_end(s: Seq<char>, p: int)
    requires
        0 <= p <= s.len(),
    ensures
        p <= digits_end(s, p) <= s.len(),
        forall|k: int| p <= k < digits_end(s, p) ==> is_digit(#[trigger] s[k]),
        digits_end(s, p) < s.len() ==> !is_digit(s[digits_end(s, p)]),
    decreases s.len() - p,
{
    if p < s.len() && is_digit(s[p]) {
        lemma_digits_end(s, p + 1);
    }
}

pub proof fn lemma_find(s: Seq<char>, p: int, c: char)
    requires
        0 <= p <= s.len(),
    ensures
        p <= spec_find(s, p, c) <= s.len(),
        forall|k: int| p <= k < spec_find(s, p, c) ==> #[trigger] s[k] != c,
        spec_find(s, p, c) < s.len() ==> s[spec_find(s, p, c)] == c,
    decreases s.len() - p,
{
    if p < s.len() && s[p] != c {
        lemma_find(s, p + 1, c);
    }
}

pub proof fn lemma_parse_int_advances(s: Seq<char>, p: int)
    requires
        0 <= p <= s.len(),
    ensures
        spec_parse_int(s, p) matches Some((q, _)) ==> p < q <= s.len(),
{
    lemma_digits_end(s, p);
}

pub proof fn lemma_data_type_advances(s: Seq<char>, p: int)
    requires
        0 <= p <= s.len(),
    ensures
        spec_parse_data_type(s, p) matches Some((q, t)) ==> p + 3 <= q <= s.len() && !(t is LoneSwitch),
{
    reveal_tags();
    if p + 8 <= s.len() {
        lemma_parse_int_advances(s, p + 8);
    }
    if p + 11 <= s.len() {
        lemma_parse_int_advances(s, p + 11);
    }
}

pub proof fn lemma_item_advances(s: Seq<char>, p: int)
    requires
        0 <= p <= s.len(),
    ensures
        spec_parse_item(s, p) matches Some((q, item)) ==> p + 5 <= q <= s.len() && !(item.0 is LoneSwitch),
{
    lemma_data_type_advances(s, p);
    if let Some((q, t)) = spec_parse_data_type(s, p) {
        if q < s.len() {
            lemma_find(s, q + 1, ';');
        }
    }
}

pub proof fn lemma_label_advances(s: Seq<char>, p: int)
    requires
        0 <= p <= s.len(),
    ensures
        spec_parse_label(s, p) matches Some((q, _)) ==> p < q <= s.len(),
{
    lemma_parse_int_advances(s, p);
    if let Some((q, l)) = spec_parse_int(s, p) {
        if q < s.len() {
            lemma_parse_int_advances(s, q + 1);
        }
    }
}

/// The frames of the descriptor text from position `p` on, given the label of
/// the current frame and the frames read so far: each step reads a frame label
/// (which starts a new, empty frame) or, failing that, an item (which joins the
/// last frame).
pub open spec fn spec_parse_frames(
    s: Seq<char>,
    p: int,
    current: Option<u8>,
    frames: Seq<FrameText>,
) -> Result<Seq<FrameText>, DescriptorError>
    decreases s.len() - p,
{
    if p < 0 || p >= s.len() {
        Ok(frames)
    } else {
        match spec_parse_label(s, p) {
            Some((q, (label, rate))) => {
                if current == Some(255u8) {
                    Err(DescriptorError::LabelOverflow)
                } else {
                    let expected: u8 = match current {
                        Some(x) => (x + 1) as u8,
                        None => 0u8,
                    };
                    if expected != label {
                        Err(DescriptorError::LabelJump { expected, found: label })
                    } else {
                        proof {
                            lemma_label_advances(s, p);
                        }
                        spec_parse_frames(s, q, Some(label), frames.push((rate, Seq::empty())))
                    }
                }
            },
            None => match spec_parse_item(s, p) {
                Some((q, item)) => {
                    if frames.len() == 0 {
                        Err(DescriptorError::ItemBeforeLabel)
                    } else {
                        proof {
                            lemma_item_advances(s, p);
                        }
                        let last = frames.last();
                        spec_parse_frames(
                            s,
                            q,
                            current,
                            frames.update(frames.len() - 1, (last.0, last.1.push(item))),
                        )
                    }
                },
                None => Err(DescriptorError::Syntax),
            },
        }
    }
}

/// The frames that a whole descriptor text describes.
pub open spec fn spec_descriptor_frames(s: Seq<char>) -> Result<Seq<FrameText>, DescriptorError> {
    spec_parse_frames(s, 0, None, Seq::empty())
}


proof fn lemma_digits_value_step(s: Seq<char>, a: int, b: int)
    requires
        a <= b,
    ensures
        digits_value(s, a, b + 1) == digits_value(s, a, b) * 10 + ((s[b] as int) - ('0' as int)),
{
}

proof fn lemma_digits_value_nonneg(s: Seq<char>, a: int, b: int)
    requires
        a <= b,
        forall|k: int| a <= k < b ==> is_digit(#[trigger] s[k]),
    ensures
        digits_value(s, a, b) >= 0,
    decreases b - a,
{
    if b > a {
        lemma_digits_value_nonneg(s, a, b - 1);
    }
}

/// The integer at position `p` of `cs`.
fn parse_int_at(cs: &Vec<char>, p: usize) -> (r: Option<(usize, i32)>)
    requires
        p <= cs@.len(),
    ensures
        match spec_parse_int(cs@, p as int) {
            Some((q, v)) => r is Some && r.unwrap().0 as int == q && r.unwrap().1 == v,
            None => r is None,
        },
{
    let ghost s = cs@;
    let mut k: usize = p;
    let mut value: u64 = 0;
    let mut overflow = false;
    while k < cs.len() && '0' <= cs[k] && cs[k] <= '9'
        invariant
            s == cs@,
            p <= k <= s.len(),
            digits_end(s, p as int) == digits_end(s, k as int),
            forall|j: int| p <= j < k ==> is_digit(#[trigger] s[j]),
            overflow == (digits_value(s, p as int, k as int) > 0x7fff_ffff),
            !overflow ==> value == digits_value(s, p as int, k as int),
            value <= 0x7fff_ffff,
        decreases s.len() - k,
    {
        proof {
            lemma_digits_value_step(s, p as int, k as int);
            lemma_digits_value_nonneg(s, p as int, k as int);
        }
        let d: u64 = (cs[k] as u64) - ('0' as u64);
        if !overflow {
            value = value * 10 + d;
            if value > 0x7fff_ffff {
                overflow = true;
                value = 0;
            }
        }
        k = k + 1;
    }
    proof {
        lemma_digits_end(s, k as int);
    }
    if k == p || overflow {
        None
    } else {
        Some((k, value as i32))
    }
}

/// The tag `t` at position `p` of `cs`, and the position after it.
fn tag_at(cs: &Vec<char>, p: usize, t: &str) -> (r: Option<usize>)
    requires
        p <= cs@.len(),
    ensures
        match spec_tag(cs@, p as int, t@) {
            Some(q) => r is Some && r.unwrap() as int == q,
            None => r is None,
        },
{
    let n = t.unicode_len();
    if n > cs.len() - p {
        return None;
    }
    let mut j: usize = 0;
    while j < n
        invariant
            n == t@.len(),
            p <= cs@.len(),
            p + n <= cs@.len(),
            cs@.len() == cs.len(),
            j <= n,
            forall|jj: int| 0 <= jj < j ==> cs@[p + jj] == #[trigger] t@[jj],
        decreases n - j,
    {
        if cs[p + j] != t.get_char(j) {
            assert(cs@.subrange(p as int, p + n)[j as int] != t@[j as int]);
            return None;
        }
        j = j + 1;
    }
    assert(cs@.subrange(p as int, p + n) =~= t@);
    Some(p + n)
}

/// The first position at or after `p` of `cs` that holds `c`, or its end.
fn find_at(cs: &Vec<char>, p: usize, c: char) -> (r: usize)
    requires
        p <= cs@.len(),
    ensures
        r as int == spec_find(cs@, p as int, c),
    decreases cs@.len() - p,
{
    if p >= cs.len() {
        cs.len()
    } else if cs[p] == c {
        p
    } else {
        find_at(cs, p + 1, c)
    }
}

fn parse_accelerometer(cs: &Vec<char>, p: usize) -> (r: Option<(usize, DataType)>)
    requires
        p <= cs@.len(),
    ensures
        r is Some ==> r.unwrap().0 == p + 14,
        has_tag(cs@, p as int, "AccelerometerX"@) ==> r is Some && r.unwrap().1
            == DataType::Accelerometer(Axis::X),
        !has_tag(cs@, p as int, "AccelerometerX"@) && has_tag(cs@, p as int, "AccelerometerY"@)
            ==> r is Some && r.unwrap().1 == DataType::Accelerometer(Axis::Y),
        !has_tag(cs@, p as int, "AccelerometerX"@) && !has_tag(cs@, p as int, "AccelerometerY"@)
            && has_tag(cs@, p as int, "AccelerometerZ"@) ==> r is Some && r.unwrap().1
            == DataType::Accelerometer(Axis::Z),
        r is None <==> !has_tag(cs@, p as int, "AccelerometerX"@) && !has_tag(
            cs@,
            p as int,
            "AccelerometerY"@,
        ) && !has_tag(cs@, p as int, "AccelerometerZ"@),
{
    proof {
        reveal_tags();
    }
    if let Some(q) = tag_at(cs, p, "AccelerometerX") {
        Some((q, DataType::Accelerometer(Axis::X)))
    } else if let Some(q) = tag_at(cs, p, "AccelerometerY") {
        Some((q, DataType::Accelerometer(Axis::Y)))
    } else if let Some(q) = tag_at(cs, p, "AccelerometerZ") {
        Some((q, DataType::Accelerometer(Axis::Z)))
    } else {
        None
    }
}

fn parse_gps(cs: &Vec<char>, p: usize) -> (r: Option<(usize, DataType)>)
    requires
        p <= cs@.len(),
    ensures
        match spec_tag(cs@, p as int, "GPS"@) {
            Some(q) => r is Some && r.unwrap().0 as int == q && r.unwrap().1 == DataType::Gps,
            None => r is None,
        },
{
    match tag_at(cs, p, "GPS") {
        Some(q) => Some((q, DataType::Gps)),
        None => None,
    }
}

fn parse_mux_check(cs: &Vec<char>, p: usize) -> (r: Option<(usize, DataType)>)
    requires
        p <= cs@.len(),
    ensures
        has_tag(cs@, p as int, "MuxCheck"@) && spec_parse_int(cs@, p + 8) is Some ==> r is Some
            && r.unwrap().0 as int == spec_parse_int(cs@, p + 8).unwrap().0 && r.unwrap().1 == DataType::MuxCheck((spec_parse_int(cs@, p + 8).unwrap().1 % 256) as u8),
        !(has_tag(cs@, p as int, "MuxCheck"@) && spec_parse_int(cs@, p + 8) is Some) ==> r is None,
{
    proof {
        reveal_tags();
    }
    match tag_at(cs, p, "MuxCheck") {
        Some(q) => match parse_int_at(cs, q) {
            Some((q2, n)) => {
                proof {
                    assert("MuxCheck"@.len() == 8);
                    assert(q == p + 8);
                    lemma_digits_end(cs@, q as int);
                    assert(q2 == digits_end(cs@, q as int));
                    lemma_digits_value_nonneg(cs@, q as int, q2 as int);
                    assert(spec_parse_int(cs@, p + 8) == Some((q2 as int, n)));
                }
                Some((q2, DataType::MuxCheck((n % 256) as u8)))
            },
            None => None,
        },
        None => None,
    }
}

fn parse_padding(cs: &Vec<char>, p: usize) -> (r: Option<(usize, DataType)>)
    requires
        p <= cs@.len(),
    ensures
        match spec_tag(cs@, p as int, "Padding"@) {
            Some(q) => r is Some && r.unwrap().0 as int == q && r.unwrap().1 == DataType::Padding,
            None => r is None,
        },
{
    match tag_at(cs, p, "Padding") {
        Some(q) => Some((q, DataType::Padding)),
        None => None,
    }
}

fn parse_packed_switch(cs: &Vec<char>, p: usize) -> (r: Option<(usize, DataType)>)
    requires
        p <= cs@.len(),
    ensures
        match spec_tag(cs@, p as int, "PackedSwitch"@) {
            Some(q) => r is Some && r.unwrap().0 as int == q && r.unwrap().1 == DataType::PackedSwitch(
                all_switches(),
            ),
            None => r is None,
        },
{
    match tag_at(cs, p, "PackedSwitch") {
        Some(q) => Some(
            (
                q,
                DataType::PackedSwitch(
                    [
                        Some(0u8),
                        Some(1u8),
                        Some(2u8),
                        Some(3u8),
                        Some(4u8),
                        Some(5u8),
                        Some(6u8),
                        Some(7u8),
                    ],
                ),
            ),
        ),
        None => None,
    }
}

fn parse_strain_gauge(cs: &Vec<char>, p: usize) -> (r: Option<(usize, DataType)>)
    requires
        p <= cs@.len(),
    ensures
        has_tag(cs@, p as int, "StrainGauge"@) && spec_parse_int(cs@, p + 11) is Some ==> r is Some
            && r.unwrap().0 as int == spec_parse_int(cs@, p + 11).unwrap().0 && r.unwrap().1 == DataType::StrainGauge(spec_parse_int(cs@, p + 11).unwrap().1 as usize),
        !(has_tag(cs@, p as int, "StrainGauge"@) && spec_parse_int(cs@, p + 11) is Some) ==> r is None,
{
    proof {
        reveal_tags();
    }
    match tag_at(cs, p, "StrainGauge") {
        Some(q) => match parse_int_at(cs, q) {
            Some((q2, n)) => {
                proof {
                    assert(q == p + 11);
                    lemma_digits_end(cs@, q as int);
                    assert(q2 == digits_end(cs@, q as int));
                    lemma_digits_value_nonneg(cs@, q as int, q2 as int);
                    assert(spec_parse_int(cs@, p + 11) == Some((q2 as int, n)));
                }
                Some((q2, DataType::StrainGauge(n as usize)))
            },
            None => None,
        },
        None => None,
    }
}

/// The data type at position `p` of `cs`.
fn parse_data_type_at(cs: &Vec<char>, p: usize) -> (r: Option<(usize, DataType)>)
    requires
        p <= cs@.len(),
    ensures
        match spec_parse_data_type(cs@, p as int) {
            Some((q, t)) => r is Some && r.unwrap().0 as int == q && r.unwrap().1 == t,
            None => r is None,
        },
{
    proof {
        reveal_tags();
    }
    if let Some(x) = parse_accelerometer(cs, p) {
        return Some(x);
    }
    if let Some(x) = parse_gps(cs, p) {
        return Some(x);
    }
    if let Some(x) = parse_mux_check(cs, p) {
        return Some(x);
    }
    if let Some(x) = parse_packed_switch(cs, p) {
        return Some(x);
    }
    if let Some(x) = parse_padding(cs, p) {
        return Some(x);
    }
    parse_strain_gauge(cs, p)
}


/// The item at position `p` of `cs` and of the text `i` it holds: its data
/// type and its label.
fn parse_item(i: &str, cs: &Vec<char>, p: usize) -> (r: Option<(usize, (DataType, String))>)
    requires
        cs@ == i@,
        p <= cs@.len(),
    ensures
        match spec_parse_item(cs@, p as int) {
            Some((q, (t, label))) => r is Some && r.unwrap().0 as int == q && r.unwrap().1.0 == t
                && r.unwrap().1.1@ == label,
            None => r is None,
        },
{
    let (q, item) = match parse_data_type_at(cs, p) {
        Some(x) => x,
        None => return None,
    };
    proof {
        lemma_data_type_advances(cs@, p as int);
    }
    if q >= cs.len() || cs[q] != ',' {
        return None;
    }
    let e = find_at(cs, q + 1, ';');
    proof {
        lemma_find(cs@, q + 1, ';');
    }
    if e >= cs.len() {
        return None;
    }
    let label = i.substring_char(q + 1, e).to_owned();
    Some((e + 1, (item, label)))
}

/// The frame label at position `p` of `cs`: its number (truncated to a byte)
/// and its sample rate.
fn parse_label_at(cs: &Vec<char>, p: usize) -> (r: Option<(usize, (u8, i32))>)
    requires
        p <= cs@.len(),
    ensures
        match spec_parse_label(cs@, p as int) {
            Some((q, l)) => r is Some && r.unwrap().0 as int == q && r.unwrap().1 == l,
            None => r is None,
        },
{
    let (q, label) = match parse_int_at(cs, p) {
        Some(x) => x,
        None => return None,
    };
    proof {
        lemma_parse_int_advances(cs@, p as int);
        lemma_digits_end(cs@, p as int);
        lemma_digits_value_nonneg(cs@, p as int, q as int);
    }
    if q >= cs.len() || cs[q] != ',' {
        return None;
    }
    let (r, sample_rate) = match parse_int_at(cs, q + 1) {
        Some(x) => x,
        None => return None,
    };
    proof {
        lemma_parse_int_advances(cs@, q + 1);
    }
    if r >= cs.len() || cs[r] != ':' {
        return None;
    }
    Some((r + 1, ((label % 256) as u8, sample_rate)))
}

/// Starts a new, empty data frame with the given label and sample rate, which
/// must follow the label of the current frame.
fn append_new_data_frame(
    current_data_frame: &mut Option<u8>,
    data_frames: &mut Vec<PackedDataFrameDescriptor>,
    label: u8,
    sample_rate: i32,
) -> (r: Result<(), DescriptorError>)
    ensures
        *old(current_data_frame) == Some(255u8) ==> r == Err::<(), DescriptorError>(
            DescriptorError::LabelOverflow,
        ),
        *old(current_data_frame) != Some(255u8) ==> {
            let expected: u8 = match *old(current_data_frame) {
                Some(x) => (x + 1) as u8,
                None => 0u8,
            };
            if expected != label {
                r == Err::<(), DescriptorError>(
                    DescriptorError::LabelJump { expected, found: label },
                )
            } else {
                &&& r is Ok
                &&& *final(current_data_frame) == Some(label)
                &&& frames_view(final(data_frames)@) == frames_view(old(data_frames)@).push(
                    (sample_rate, Seq::empty()),
                )
            }
        },
        r is Err ==> *final(current_data_frame) == *old(current_data_frame) && final(data_frames)@
            == old(data_frames)@,
{
    let expected_label: u8 = match *current_data_frame {
        Some(x) => {
            if x == 255 {
                return Err(DescriptorError::LabelOverflow);
            }
            x + 1
        },
        None => 0,
    };
    if expected_label != label {
        return Err(DescriptorError::LabelJump { expected: expected_label, found: label });
    }
    *current_data_frame = Some(label);
    let ghost before = data_frames@;
    let frame = PackedDataFrameDescriptor { sample_rate, data_sequence: Vec::new() };
    assert(frame_view(frame).1 =~= Seq::<(DataType, Seq<char>)>::empty());
    data_frames.push(frame);
    assert(frames_view(data_frames@) =~= frames_view(before).push((sample_rate, Seq::empty())));
    Ok(())
}

/// Adds an item to the last data frame, which must exist.
fn append_item_to_last_data_frame(
    data_frames: &mut Vec<PackedDataFrameDescriptor>,
    item: (DataType, String),
) -> (r: Result<(), DescriptorError>)
    ensures
        old(data_frames)@.len() == 0 <==> r is Err,
        r is Err ==> r == Err::<(), DescriptorError>(DescriptorError::ItemBeforeLabel)
            && final(data_frames)@ == old(data_frames)@,
        r is Ok ==> {
            let fs = frames_view(old(data_frames)@);
            let last = fs.last();
            frames_view(final(data_frames)@) == fs.update(
                fs.len() - 1,
                (last.0, last.1.push((item.0, item.1@))),
            )
        },
{
    let ghost before = data_frames@;
    match data_frames.pop() {
        None => Err(DescriptorError::ItemBeforeLabel),
        Some(mut frame) => {
            let ghost old_frame = frame;
            frame.data_sequence.push(item);
            data_frames.push(frame);
            assert(frame_view(frame).1 =~= frame_view(old_frame).1.push((item.0, item.1@)));
            assert(frames_view(data_frames@) =~= frames_view(before).update(
                frames_view(before).len() - 1,
                (frame_view(old_frame).0, frame_view(old_frame).1.push((item.0, item.1@))),
            ));
            Ok(())
        },
    }
}


/// Reads a frame label or, failing that, an item at position `p`, and records
/// it in the frames read so far.
fn parse_item_or_label(
    i: &str,
    cs: &Vec<char>,
    p: usize,
    current_data_frame: &mut Option<u8>,
    data_frames: &mut Vec<PackedDataFrameDescriptor>,
) -> (r: Result<usize, DescriptorError>)
    requires
        cs@ == i@,
        p < cs@.len(),
    ensures
        r matches Ok(q) ==> p < q <= cs@.len() && spec_parse_frames(
            cs@,
            p as int,
            *old(current_data_frame),
            frames_view(old(data_frames)@),
        ) == spec_parse_frames(
            cs@,
            q as int,
            *final(current_data_frame),
            frames_view(final(data_frames)@),
        ),
        r matches Err(e) ==> spec_parse_frames(
            cs@,
            p as int,
            *old(current_data_frame),
            frames_view(old(data_frames)@),
        ) == Err::<Seq<FrameText>, DescriptorError>(e),
{
    if let Some((q, (label, sample_rate))) = parse_label_at(cs, p) {
        proof {
            lemma_label_advances(cs@, p as int);
        }
        append_new_data_frame(current_data_frame, data_frames, label, sample_rate)?;
        Ok(q)
    } else if let Some((q, item)) = parse_item(i, cs, p) {
        proof {
            lemma_item_advances(cs@, p as int);
        }
        append_item_to_last_data_frame(data_frames, item)?;
        Ok(q)
    } else {
        Err(DescriptorError::Syntax)
    }
}

/// The frames parsed from `p` on hold no lone switch, and each of their items
/// took at least five characters of the text.
proof fn lemma_parsed_frames_packable(s: Seq<char>, p: int, current: Option<u8>, frames: Seq<FrameText>)
    requires
        0 <= p <= s.len(),
        all_packable(frames_packed(frames)),
        5 * frames_packed(frames).len() <= p,
    ensures
        spec_parse_frames(s, p, current, frames) matches Ok(fs) ==> all_packable(frames_packed(fs))
            && 5 * frames_packed(fs).len() <= s.len(),
    decreases s.len() - p,
{
    if p < s.len() {
        match spec_parse_label(s, p) {
            Some((q, (label, rate))) => {
                if current != Some(255u8) {
                    lemma_label_advances(s, p);
                    lemma_frames_packed_new_frame(frames, rate);
                    lemma_parsed_frames_packable(s, q, Some(label), frames.push((rate, Seq::empty())));
                }
            },
            None => match spec_parse_item(s, p) {
                Some((q, item)) => {
                    if frames.len() > 0 {
                        lemma_item_advances(s, p);
                        lemma_frames_packed_new_item(frames, item);
                        let last = frames.last();
                        let next = frames.update(frames.len() - 1, (last.0, last.1.push(item)));
                        assert(all_packable(frames_packed(next)));
                        lemma_parsed_frames_packable(s, q, current, next);
                    }
                },
                None => {},
            },
        }
    }
}

/// Parses a descriptor text into the file descriptor it describes, or gives
/// the reason it is refused.
pub fn parse_descriptor_checked(i: &str) -> (r: Result<FileDescriptor, DescriptorError>)
    ensures
        match spec_descriptor_frames(i@) {
            Ok(frames) => r matches Ok(d) && describes_frames(d, frames),
            Err(e) => r == Err::<FileDescriptor, DescriptorError>(e),
        },
        r matches Ok(d) ==> well_formed(d),
{
    let cs = chars_of(i);
    proof {
        assert(frames_packed(Seq::<FrameText>::empty()) =~= Seq::<DataType>::empty());
        lemma_parsed_frames_packable(i@, 0, None, Seq::empty());
    }
    let mut data_frames: Vec<PackedDataFrameDescriptor> = Vec::new();
    let mut current_data_frame: Option<u8> = None;
    let mut p: usize = 0;
    assert(frames_view(data_frames@) =~= Seq::<FrameText>::empty());
    while p < cs.len()
        invariant
            cs@ == i@,
            p <= cs@.len(),
            spec_parse_frames(cs@, p as int, current_data_frame, frames_view(data_frames@))
                == spec_descriptor_frames(i@),
        decreases cs@.len() - p,
    {
        p = parse_item_or_label(i, &cs, p, &mut current_data_frame, &mut data_frames)?;
    }
    let d = FileDescriptor::new(data_frames);
    proof {
        law_described_frames_are_well_formed(d, frames_view(data_frames@));
    }
    Ok(d)
}

/// The descriptor text `i` has no frame label out of sequence and no item
/// before the first frame label: it is either well formed or fails the
/// grammar.
pub open spec fn labels_in_sequence(i: Seq<char>) -> bool {
    spec_descriptor_frames(i) is Ok || spec_descriptor_frames(i) == Err::<
        Seq<FrameText>,
        DescriptorError,
    >(DescriptorError::Syntax)
}

/// Parses a descriptor text into the file descriptor it describes.
pub fn parse_descriptor(i: &str) -> (r: ParseResult<FileDescriptor>)
    requires
        labels_in_sequence(i@),
    ensures
        match spec_descriptor_frames(i@) {
            Ok(frames) => r matches Ok((rest, d)) && rest@ == Seq::<char>::empty() && describes_frames(d, frames),
            Err(_) => r is Err,
        },
        r matches Ok((_, d)) ==> well_formed(d),
{
    match parse_descriptor_checked(i) {
        Ok(d) => {
            let n = i.unicode_len();
            Ok((i.substring_char(n, n), d))
        },
        Err(_) => Err(ParseError),
    }
}


/// Parses an integer: a run of decimal digits whose value fits in an `i32`.
pub fn parse_int(i: &str) -> (r: ParseResult<i32>)
    ensures
        match spec_parse_int(i@, 0) {
            Some((q, v)) => r matches Ok((rest, w)) && w == v && rest@ == i@.subrange(q, i@.len() as int),
            None => r is Err,
        },
{
    let cs = chars_of(i);
    proof {
        lemma_parse_int_advances(cs@, 0);
    }
    match parse_int_at(&cs, 0) {
        Some((q, v)) => Ok((i.substring_char(q, cs.len()), v)),
        None => Err(ParseError),
    }
}

/// Parses a colon.
pub fn parse_colon(i: &str) -> (r: ParseResult<()>)
    ensures
        match spec_tag(i@, 0, ":"@) {
            Some(q) => r matches Ok((rest, _)) && rest@ == i@.subrange(q, i@.len() as int),
            None => r is Err,
        },
{
    let cs = chars_of(i);
    match tag_at(&cs, 0, ":") {
        Some(q) => Ok((i.substring_char(q, cs.len()), ())),
        None => Err(ParseError),
    }
}

/// Parses a semicolon.
pub fn parse_semicolon(i: &str) -> (r: ParseResult<()>)
    ensures
        match spec_tag(i@, 0, ";"@) {
            Some(q) => r matches Ok((rest, _)) && rest@ == i@.subrange(q, i@.len() as int),
            None => r is Err,
        },
{
    let cs = chars_of(i);
    match tag_at(&cs, 0, ";") {
        Some(q) => Ok((i.substring_char(q, cs.len()), ())),
        None => Err(ParseError),
    }
}

/// Parses a data type keyword.
pub fn parse_data_type(i: &str) -> (r: ParseResult<DataType>)
    ensures
        match spec_parse_data_type(i@, 0) {
            Some((q, t)) => r matches Ok((rest, u)) && u == t && rest@ == i@.subrange(q, i@.len() as int),
            None => r is Err,
        },
{
    let cs = chars_of(i);
    proof {
        lemma_data_type_advances(cs@, 0);
    }
    match parse_data_type_at(&cs, 0) {
        Some((q, t)) => Ok((i.substring_char(q, cs.len()), t)),
        None => Err(ParseError),
    }
}

/// Parses a frame label: its number (keeping the lowest byte) and its sample
/// rate.
pub fn parse_label(i: &str) -> (r: ParseResult<(u8, i32)>)
    ensures
        match spec_parse_label(i@, 0) {
            Some((q, l)) => r matches Ok((rest, m)) && m == l && rest@ == i@.subrange(q, i@.len() as int),
            None => r is Err,
        },
{
    let cs = chars_of(i);
    proof {
        lemma_label_advances(cs@, 0);
    }
    match parse_label_at(&cs, 0) {
        Some((q, l)) => Ok((i.substring_char(q, cs.len()), l)),
        None => Err(ParseError),
    }
}

/// Why a packed file's header cannot be read.
#[derive(Clone, Copy, Debug, PartialEq, Eq)]
pub enum HeaderError {
    /// The header claims more than 10 000 bytes.
    TooLarge(u32),
    /// The header is not UTF-8 text.
    NotUtf8,
    /// The header text is not a valid descriptor.
    Invalid(DescriptorError),
}

/// The largest header, in bytes, that a packed file may have.
pub open spec fn max_header_len() -> int {
    10_000
}

/// The length of the header that the first four bytes of a packed file
/// announce, least significant byte first.
pub fn header_length(size: &[u8]) -> (r: Result<usize, HeaderError>)
    requires
        size@.len() == 4,
    ensures
        ({
            let n = size@[0] + 256 * size@[1] + 65536 * size@[2] + 16777216 * size@[3];
            if n > max_header_len() {
                r == Err::<usize, HeaderError>(HeaderError::TooLarge(n as u32))
            } else {
                r == Ok::<usize, HeaderError>(n as usize)
            }
        }),
{
    let b0 = size[0];
    let b1 = size[1];
    let b2 = size[2];
    let b3 = size[3];
    let n: u32 = (b0 as u32) | ((b1 as u32) << 8u32) | ((b2 as u32) << 16u32) | ((b3 as u32) << 24u32);
    assert(((b0 as u32) | ((b1 as u32) << 8u32) | ((b2 as u32) << 16u32) | ((b3 as u32) << 24u32))
        == b0 + 256 * b1 + 65536 * b2 + 16777216 * b3) by (bit_vector);
    if n > 10_000 {
        Err(HeaderError::TooLarge(n))
    } else {
        Ok(n as usize)
    }
}

/// `std::str::from_utf8`: the text that `bytes` encode, when they are valid
/// UTF-8. The contract claims that the text is returned exactly when the bytes
/// are valid UTF-8, and that its encoding is `bytes`.
#[verifier::external_body]
fn utf8_text(bytes: &[u8]) -> (r: Option<&str>)
    ensures
        r is Some <==> valid_utf8(bytes@),
        r matches Some(t) ==> encode_utf8(t@) == bytes@,
{
    std::str::from_utf8(bytes).ok()
}

/// The file descriptor that the header bytes of a packed file describe.
pub fn descriptor_from_header(header: &[u8]) -> (r: Result<FileDescriptor, HeaderError>)
    ensures
        !valid_utf8(header@) ==> r == Err::<FileDescriptor, HeaderError>(HeaderError::NotUtf8),
        valid_utf8(header@) ==> match spec_descriptor_frames(decode_utf8(header@)) {
            Ok(frames) => r matches Ok(d) && describes_frames(d, frames),
            Err(e) => r == Err::<FileDescriptor, HeaderError>(HeaderError::Invalid(e)),
        },
        r matches Ok(d) ==> well_formed(d),
{
    match utf8_text(header) {
        None => Err(HeaderError::NotUtf8),
        Some(text) => {
            proof {
                decode_utf8_encode_utf8(header@);
                encode_utf8_decode_utf8(text@);
            }
            match parse_descriptor_checked(text) {
                Ok(d) => Ok(d),
                Err(e) => Err(HeaderError::Invalid(e)),
            }
        },
    }
}

/// The little-endian bytes of a 32-bit length, lowest first.
pub open spec fn length_bytes(n: u32) -> Seq<u8> {
    seq![
        (n % 256) as u8,
        (n / 256 % 256) as u8,
        (n / 65536 % 256) as u8,
        (n / 16777216) as u8,
    ]
}

/// A header written as its length in four little-endian bytes and then the
/// text in UTF-8 reads back: the length bytes give the length, and the text
/// bytes are valid UTF-8 that decode to the text, so the descriptor read is
/// the one the text describes.
pub proof fn law_written_header_reads_back(text: Seq<char>)
    requires
        encode_utf8(text).len() <= max_header_len(),
    ensures
        ({
            let b = length_bytes(encode_utf8(text).len() as u32);
            b[0] + 256 * b[1] + 65536 * b[2] + 16777216 * b[3] == encode_utf8(text).len()
        }),
        valid_utf8(encode_utf8(text)),
        decode_utf8(encode_utf8(text)) == text,
{
    let n = encode_utf8(text).len() as u32;
    assert(n / 16777216 == 0);
    assert(n / 65536 % 256 == 0);
    assert(n == n % 256 + 256 * (n / 256 % 256)) by (nonlinear_arith)
        requires
            n <= 10_000,
    ;
    encode_utf8_valid_utf8(text);
    encode_utf8_decode_utf8(text);
}

/// The run of digits from `p` ends at `q` when every character before `q`
/// is a digit and the one at `q`, if any, is not.
proof fn lemma_run_ends_at(s: Seq<char>, p: int, q: int)
    requires
        0 <= p <= q <= s.len(),
        forall|i: int| p <= i < q ==> is_digit(#[trigger] s[i]),
        q < s.len() ==> !is_digit(s[q]),
    ensures
        digits_end(s, p) == q,
    decreases q - p,
{
    if p < q {
        lemma_run_ends_at(s, p + 1, q);
    }
}

/// The value of a run of digits is not negative.
proof fn lemma_digits_value_nonnegative(s: Seq<char>, a: int, b: int)
    requires
        0 <= a,
        b <= s.len(),
        forall|i: int| a <= i < b ==> is_digit(#[trigger] s[i]),
    ensures
        digits_value(s, a, b) >= 0,
    decreases b - a,
{
    if a < b {
        lemma_digits_value_nonnegative(s, a, b - 1);
    }
}

/// An integer is the whole run of digits at `p`: the parse ends after its
/// last digit, with the value of all of them.
pub proof fn law_int_reads_whole_run(s: Seq<char>, p: int, q: int)
    requires
        0 <= p < q <= s.len(),
        forall|i: int| p <= i < q ==> is_digit(#[trigger] s[i]),
        q < s.len() ==> !is_digit(s[q]),
        digits_value(s, p, q) <= 0x7fff_ffff,
    ensures
        spec_parse_int(s, p) == Some((q, digits_value(s, p, q) as i32)),
        digits_value(s, p, q) >= 0,
{
    lemma_run_ends_at(s, p, q);
    lemma_digits_value_nonnegative(s, p, q);
}

/// `StrainGauge` followed by a run of digits is the strain gauge with the
/// number that all of those digits denote, and the parse ends after the
/// last of them.
pub proof fn law_strain_gauge_reads_whole_number(s: Seq<char>, p: int, q: int)
    requires
        has_tag(s, p, "StrainGauge"@),
        p + 11 < q <= s.len(),
        forall|i: int| p + 11 <= i < q ==> is_digit(#[trigger] s[i]),
        q < s.len() ==> !is_digit(s[q]),
        digits_value(s, p + 11, q) <= 0x7fff_ffff,
    ensures
        spec_parse_data_type(s, p) == Some(
            (q, DataType::StrainGauge(digits_value(s, p + 11, q) as usize)),
        ),
{
    reveal_strlit("StrainGauge");
    reveal_strlit("AccelerometerX");
    reveal_strlit("AccelerometerY");
    reveal_strlit("AccelerometerZ");
    reveal_strlit("GPS");
    reveal_strlit("MuxCheck");
    reveal_strlit("PackedSwitch");
    reveal_strlit("Padding");
    assert(s.subrange(p, p + 11)[0] == s[p]);
    assert(s[p] == 'S');
    if has_tag(s, p, "AccelerometerX"@) {
        assert(s.subrange(p, p + 14)[0] == s[p]);
    }
    if has_tag(s, p, "AccelerometerY"@) {
        assert(s.subrange(p, p + 14)[0] == s[p]);
    }
    if has_tag(s, p, "AccelerometerZ"@) {
        assert(s.subrange(p, p + 14)[0] == s[p]);
    }
    if has_tag(s, p, "GPS"@) {
        assert(s.subrange(p, p + 3)[0] == s[p]);
    }
    if has_tag(s, p, "MuxCheck"@) {
        assert(s.subrange(p, p + 8)[0] == s[p]);
    }
    if has_tag(s, p, "PackedSwitch"@) {
        assert(s.subrange(p, p + 12)[0] == s[p]);
    }
    if has_tag(s, p, "Padding"@) {
        assert(s.subrange(p, p + 7)[0] == s[p]);
    }
    law_int_reads_whole_run(s, p + 11, q);
}

/// `MuxCheck` followed by a run of digits is the mux check that expects the
/// byte that all of those digits denote (modulo 256), and the parse ends
/// after the last of them.
pub proof fn law_mux_check_reads_whole_number(s: Seq<char>, p: int, q: int)
    requires
        has_tag(s, p, "MuxCheck"@),
        p + 8 < q <= s.len(),
        forall|i: int| p + 8 <= i < q ==> is_digit(#[trigger] s[i]),
        q < s.len() ==> !is_digit(s[q]),
        digits_value(s, p + 8, q) <= 0x7fff_ffff,
    ensures
        spec_parse_data_type(s, p) == Some(
            (q, DataType::MuxCheck((digits_value(s, p + 8, q) % 256) as u8)),
        ),
{
    reveal_strlit("MuxCheck");
    reveal_strlit("AccelerometerX");
    reveal_strlit("AccelerometerY");
    reveal_strlit("AccelerometerZ");
    reveal_strlit("GPS");
    assert(s.subrange(p, p + 8)[0] == s[p]);
    assert(s[p] == 'M');
    if has_tag(s, p, "AccelerometerX"@) {
        assert(s.subrange(p, p + 14)[0] == s[p]);
    }
    if has_tag(s, p, "AccelerometerY"@) {
        assert(s.subrange(p, p + 14)[0] == s[p]);
    }
    if has_tag(s, p, "AccelerometerZ"@) {
        assert(s.subrange(p, p + 14)[0] == s[p]);
    }
    if has_tag(s, p, "GPS"@) {
        assert(s.subrange(p, p + 3)[0] == s[p]);
    }
    law_int_reads_whole_run(s, p + 8, q);
}

} // verus!
