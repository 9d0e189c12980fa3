//! Decimal rendering of integers and the debug text of data types, as used in
//! messages and cache file names.
use vstd::prelude::*;
use crate::data_format::data_type::{Axis, DataType};

verus! {

/// The character of the decimal digit `d`.
pub open spec fn digit_char(d: nat) -> char {
    if d == 0 {
        '0'
    } else if d == 1 {
        '1'
    } else if d == 2 {
        '2'
    } else if d == 3 {
        '3'
    } else if d == 4 {
        '4'
    } else if d == 5 {
        '5'
    } else if d == 6 {
        '6'
    } else if d == 7 {
        '7'
    } else if d == 8 {
        '8'
    } else {
        '9'
    }
}

/// The decimal digits of `n`, most significant first, without leading zeros.
pub open spec fn spec_decimal(n: nat) -> Seq<char>
    decreases n,
{
    if n < 10 {
        seq![digit_char(n)]
    } else {
        spec_decimal(n / 10) + seq![digit_char(n % 10)]
    }
}

/// The decimal text of the signed integer `n`.
pub open spec fn spec_signed_decimal(n: int) -> Seq<char> {
    if n < 0 {
        seq!['-'] + spec_decimal((-n) as nat)
    } else {
        spec_decimal(n as nat)
    }
}

fn digit_str(d: u64) -> (s: &'static str)
    requires
        d < 10,
    ensures
        s@ == seq![digit_char(d as nat)],
{
    proof {
        reveal_strlit("0");
        reveal_strlit("1");
        reveal_strlit("2");
        reveal_strlit("3");
        reveal_strlit("4");
        reveal_strlit("5");
        reveal_strlit("6");
        reveal_strlit("7");
        reveal_strlit("8");
        reveal_strlit("9");
    }
    match d {
        0 => "0",
        1 => "1",
        2 => "2",
        3 => "3",
        4 => "4",
        5 => "5",
        6 => "6",
        7 => "7",
        8 => "8",
        _ => "9",
    }
}

/// Appends the decimal digits of `n` to `s`.
pub fn push_decimal(s: &mut String, n: u64)
    ensures
        final(s)@ == old(s)@ + spec_decimal(n as nat),
    decreases n,
{
    if n >= 10 {
        push_decimal(s, n / 10);
    }
    s.append(digit_str(n % 10));
}

/// Appends the decimal text of the signed integer `n` to `s`.
pub fn push_signed_decimal(s: &mut String, n: i64)
    ensures
        final(s)@ == old(s)@ + spec_signed_decimal(n as int),
{
    if n < 0 {
        proof {
            reveal_strlit("-");
        }
        s.append("-");
        let magnitude: u64 = if n == i64::MIN {
            0x8000_0000_0000_0000u64
        } else {
            (-n) as u64
        };
        push_decimal(s, magnitude);
    } else {
        push_decimal(s, n as u64);
    }
}


/// The debug text of an axis.
pub open spec fn spec_axis_text(a: Axis) -> Seq<char> {
    match a {
        Axis::X => "X"@,
        Axis::Y => "Y"@,
        Axis::Z => "Z"@,
    }
}

/// The debug text of an optional switch number.
pub open spec fn spec_option_text(o: Option<u8>) -> Seq<char> {
    match o {
        None => "None"@,
        Some(n) => "Some("@ + spec_decimal(n as nat) + ")"@,
    }
}

/// The debug texts of `bits`, separated by `", "`.
pub open spec fn spec_option_list_text(bits: Seq<Option<u8>>) -> Seq<char>
    decreases bits.len(),
{
    if bits.len() == 0 {
        Seq::empty()
    } else if bits.len() == 1 {
        spec_option_text(bits[0])
    } else {
        spec_option_list_text(bits.drop_last()) + ", "@ + spec_option_text(bits.last())
    }
}

/// The debug text of a data type, as `{:?}` renders it.
pub open spec fn spec_debug_text(t: DataType) -> Seq<char> {
    match t {
        DataType::Accelerometer(a) => "Accelerometer("@ + spec_axis_text(a) + ")"@,
        DataType::Gps => "Gps"@,
        DataType::MuxCheck(n) => "MuxCheck("@ + spec_decimal(n as nat) + ")"@,
        DataType::Padding => "Padding"@,
        DataType::StrainGauge(n) => "StrainGauge("@ + spec_decimal(n as nat) + ")"@,
        DataType::PackedSwitch(bits) => "PackedSwitch(["@ + spec_option_list_text(bits@) + "])"@,
        DataType::LoneSwitch(n) => "LoneSwitch("@ + spec_decimal(n as nat) + ")"@,
    }
}

fn push_option_text(s: &mut String, o: Option<u8>)
    ensures
        final(s)@ == old(s)@ + spec_option_text(o),
{
    proof {
        reveal_strlit("None");
        reveal_strlit("Some(");
        reveal_strlit(")");
    }
    match o {
        None => s.append("None"),
        Some(n) => {
            s.append("Some(");
            push_decimal(s, n as u64);
            s.append(")");
        },
    }
}

/// Appends the debug text of `t` to `s`.
pub fn push_debug_text(s: &mut String, t: &DataType)
    ensures
        final(s)@ == old(s)@ + spec_debug_text(*t),
{
    proof {
        reveal_strlit("Accelerometer(");
        reveal_strlit("Gps");
        reveal_strlit("MuxCheck(");
        reveal_strlit("Padding");
        reveal_strlit("StrainGauge(");
        reveal_strlit("PackedSwitch([");
        reveal_strlit("LoneSwitch(");
        reveal_strlit(")");
        reveal_strlit("])");
        reveal_strlit("X");
        reveal_strlit("Y");
        reveal_strlit("Z");
        reveal_strlit(", ");
    }
    match t {
        DataType::Accelerometer(a) => {
            s.append("Accelerometer(");
            match a {
                Axis::X => s.append("X"),
                Axis::Y => s.append("Y"),
                Axis::Z => s.append("Z"),
            }
            s.append(")");
        },
        DataType::Gps => s.append("Gps"),
        DataType::MuxCheck(n) => {
            s.append("MuxCheck(");
            push_decimal(s, *n as u64);
            s.append(")");
        },
        DataType::Padding => s.append("Padding"),
        DataType::StrainGauge(n) => {
            s.append("StrainGauge(");
            push_decimal(s, *n as u64);
            s.append(")");
        },
        DataType::PackedSwitch(bits) => {
            s.append("PackedSwitch([");
            let ghost start = s@;
            let mut i: usize = 0;
            while i < 8
                invariant
                    i <= 8,
                    bits@.len() == 8,
                    s@ == start + spec_option_list_text(bits@.take(i as int)),
                decreases 8 - i,
            {
                assert(bits@.take(i + 1).drop_last() == bits@.take(i as int));
                if i > 0 {
                    s.append(", ");
                }
                push_option_text(s, bits[i]);
                proof {
                    if i == 0 {
                        assert(spec_option_list_text(bits@.take(0)) == Seq::<char>::empty());
                    }
                }
                i = i + 1;
            }
            assert(bits@.take(8) == bits@);
            s.append("])");
        },
        DataType::LoneSwitch(n) => {
            s.append("LoneSwitch(");
            push_decimal(s, *n as u64);
            s.append(")");
        },
    }
}

/// The debug text of `t`, as `{:?}` renders it.
pub fn debug_text(t: &DataType) -> (s: String)
    ensures
        s@ == spec_debug_text(*t),
{
    let mut s = String::new();
    push_debug_text(&mut s, t);
    s
}


/// Whether the texts `a` and `b` are equal.
pub fn text_equals(a: &str, b: &str) -> (r: bool)
    ensures
        r == (a@ == b@),
{
    let n = a.unicode_len();
    if n != b.unicode_len() {
        return false;
    }
    let mut k: usize = 0;
    while k < n
        invariant
            n == a@.len(),
            n == b@.len(),
            k <= n,
            forall|j: int| 0 <= j < k ==> a@[j] == b@[j],
        decreases n - k,
    {
        if a.get_char(k) != b.get_char(k) {
            return false;
        }
        k = k + 1;
    }
    assert(a@ =~= b@);
    true
}

} // verus!
