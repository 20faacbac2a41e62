//! Text for people: sizes in binary units, and paths relative to a base.

use vstd::prelude::*;
use vstd::string::StringExecFns;
use vstd::utf8::{decode_utf8, valid_utf8};
use crate::path::{relative_to, FsPath};

verus! {

/// The text that stands for a byte string when it is shown: its UTF-8
/// decoding, with the replacement character for what is not UTF-8.
pub uninterp spec fn utf8_lossy(bytes: Seq<u8>) -> Seq<char>;

/// `String::from_utf8_lossy` of the standard library: the bytes decoded as
/// UTF-8, each invalid sequence replaced by U+FFFD. The result depends on the
/// bytes alone; the contract names it, and says that bytes that are valid
/// UTF-8 give the text that they encode.
#[verifier::external_body]
fn lossy_text(bytes: &Vec<u8>) -> (text: String)
    ensures
        text@ == utf8_lossy(bytes@),
        valid_utf8(bytes@) ==> text@ == decode_utf8(bytes@),
{
    String::from_utf8_lossy(bytes).into_owned()
}

/// The text that shows the whole of `path`: for a path in UTF-8, the text
/// that its bytes encode.
pub fn display_path(path: &FsPath) -> (text: String)
    ensures
        text@ == utf8_lossy(path@),
        valid_utf8(path@) ==> text@ == decode_utf8(path@),
{
    lossy_text(path.as_bytes())
}

/// How `path` is shown as seen from `base`: `.` for the base itself, the
/// rest of the path for what lies under it, and the whole path otherwise.
pub open spec fn rel_display(base: Seq<u8>, path: Seq<u8>) -> Seq<char> {
    match relative_to(path, base) {
        Some(rest) => if rest.len() == 0 {
            "."@
        } else {
            utf8_lossy(rest)
        },
        None => utf8_lossy(path),
    }
}

/// The bytes of which the text is shown for `path` as seen from `base`: the
/// rest of the path where it lies under the base, and else the whole path.
pub open spec fn shown_bytes(base: Seq<u8>, path: Seq<u8>) -> Seq<u8> {
    match relative_to(path, base) {
        Some(rest) => rest,
        None => path,
    }
}

/// The text that shows `path` as seen from `base`: `.` where nothing is left
/// of the path, and else, for bytes in UTF-8, the text that the shown bytes
/// encode.
pub fn display_rel_path(base: &FsPath, path: &FsPath) -> (text: String)
    ensures
        text@ == rel_display(base@, path@),
        !(relative_to(path@, base@) matches Some(rest) && rest.len() == 0) && valid_utf8(
            shown_bytes(base@, path@),
        ) ==> text@ == decode_utf8(shown_bytes(base@, path@)),
{
    match path.strip_prefix(base) {
        Some(rest) => {
            if rest.as_bytes().len() == 0 {
                String::from_str(".")
            } else {
                lossy_text(rest.as_bytes())
            }
        },
        None => lossy_text(path.as_bytes()),
    }
}

/// The text of one decimal digit.
pub open spec fn digit_text(d: int) -> Seq<char> {
    if d == 0 {
        "0"@
    } else if d == 1 {
        "1"@
    } else if d == 2 {
        "2"@
    } else if d == 3 {
        "3"@
    } else if d == 4 {
        "4"@
    } else if d == 5 {
        "5"@
    } else if d == 6 {
        "6"@
    } else if d == 7 {
        "7"@
    } else if d == 8 {
        "8"@
    } else {
        "9"@
    }
}

/// The decimal text of a number, without leading zeros.
pub open spec fn decimal(n: nat) -> Seq<char>
    decreases n,
{
    if n < 10 {
        digit_text(n as int)
    } else {
        decimal(n / 10) + digit_text((n % 10) as int)
    }
}

/// The text of one decimal digit.
fn digit_str(d: u64) -> (r: &'static str)
    requires
        d < 10,
    ensures
        r@ == digit_text(d as int),
{
    if d == 0 {
        "0"
    } else if d == 1 {
        "1"
    } else if d == 2 {
        "2"
    } else if d == 3 {
        "3"
    } else if d == 4 {
        "4"
    } else if d == 5 {
        "5"
    } else if d == 6 {
        "6"
    } else if d == 7 {
        "7"
    } else if d == 8 {
        "8"
    } else {
        "9"
    }
}

/// The decimal text of `n`.
pub fn decimal_text(n: u64) -> (text: String)
    ensures
        text@ == decimal(n as nat),
    decreases n,
{
    if n < 10 {
        String::from_str(digit_str(n))
    } else {
        let mut text = decimal_text(n / 10);
        text.append(digit_str(n % 10));
        text
    }
}

/// The decimal text of a count.
pub fn count_text(n: usize) -> (text: String)
    ensures
        text@ == decimal(n as nat),
{
    decimal_text(n as u64)
}

/// The step between neighbouring 64-bit floating-point numbers around `n`:
/// 1 below 2^53, and doubling with each further bit.
pub open spec fn float_step(n: nat) -> nat {
    if n < 0x20_0000_0000_0000 {
        1
    } else if n < 0x40_0000_0000_0000 {
        2
    } else if n < 0x80_0000_0000_0000 {
        4
    } else if n < 0x100_0000_0000_0000 {
        8
    } else if n < 0x200_0000_0000_0000 {
        16
    } else if n < 0x400_0000_0000_0000 {
        32
    } else if n < 0x800_0000_0000_0000 {
        64
    } else if n < 0x1000_0000_0000_0000 {
        128
    } else if n < 0x2000_0000_0000_0000 {
        256
    } else if n < 0x4000_0000_0000_0000 {
        512
    } else if n < 0x8000_0000_0000_0000 {
        1024
    } else {
        2048
    }
}

/// `n` divided by `unit` and rounded to the nearest whole number, a tie
/// going to the even neighbour.
pub open spec fn round_half_even(n: nat, unit: nat) -> nat {
    let q = n / unit;
    let r = n % unit;
    if 2 * r > unit || (2 * r == unit && q % 2 == 1) {
        q + 1
    } else {
        q
    }
}

/// The 64-bit floating-point number nearest to `n`, a tie going to the one
/// with the even mantissa.
pub open spec fn nearest_float(n: nat) -> nat {
    round_half_even(n, float_step(n)) * float_step(n)
}

/// The unit in which a size is shown: the largest power of 1024 that does
/// not pass it, up to the sixth.
pub open spec fn unit_index(size: nat) -> int {
    if size < 0x400 {
        0
    } else if size < 0x10_0000 {
        1
    } else if size < 0x4000_0000 {
        2
    } else if size < 0x100_0000_0000 {
        3
    } else if size < 0x4_0000_0000_0000 {
        4
    } else if size < 0x1000_0000_0000_0000 {
        5
    } else {
        6
    }
}

/// The number of bytes in one unit.
pub open spec fn unit_bytes(index: int) -> nat {
    if index <= 0 {
        1
    } else if index == 1 {
        0x400
    } else if index == 2 {
        0x10_0000
    } else if index == 3 {
        0x4000_0000
    } else if index == 4 {
        0x100_0000_0000
    } else if index == 5 {
        0x4_0000_0000_0000
    } else {
        0x1000_0000_0000_0000
    }
}

/// The name of a unit.
pub open spec fn unit_label(index: int) -> Seq<char> {
    if index <= 0 {
        "B"@
    } else if index == 1 {
        "KiB"@
    } else if index == 2 {
        "MiB"@
    } else if index == 3 {
        "GiB"@
    } else if index == 4 {
        "TiB"@
    } else if index == 5 {
        "PiB"@
    } else {
        "EiB"@
    }
}

/// A size as it is shown: below 1024 the bytes as they are; from there on
/// the size as a floating-point number in its unit, with one decimal, a tie
/// going to the even digit.
pub open spec fn human_size(bytes: u64) -> Seq<char> {
    if bytes < 1024 {
        decimal(bytes as nat) + " B"@
    } else {
        let size = nearest_float(bytes as nat);
        let index = unit_index(size);
        let tenths = round_half_even(size * 10, unit_bytes(index));
        decimal(tenths / 10) + "."@ + digit_text((tenths % 10) as int) + " "@ + unit_label(index)
    }
}

/// The step between neighbouring floating-point numbers around `n`.
fn float_step_of(n: u64) -> (step: u64)
    ensures
        step == float_step(n as nat),
        1 <= step <= 2048,
{
    if n < 0x20_0000_0000_0000 {
        1
    } else if n < 0x40_0000_0000_0000 {
        2
    } else if n < 0x80_0000_0000_0000 {
        4
    } else if n < 0x100_0000_0000_0000 {
        8
    } else if n < 0x200_0000_0000_0000 {
        16
    } else if n < 0x400_0000_0000_0000 {
        32
    } else if n < 0x800_0000_0000_0000 {
        64
    } else if n < 0x1000_0000_0000_0000 {
        128
    } else if n < 0x2000_0000_0000_0000 {
        256
    } else if n < 0x4000_0000_0000_0000 {
        512
    } else if n < 0x8000_0000_0000_0000 {
        1024
    } else {
        2048
    }
}

/// `n` divided by `unit`, rounded to the nearest whole number, ties to even.
fn rounded_quotient(n: u128, unit: u128) -> (q: u128)
    requires
        unit > 0,
        n <= 0x1_0000_0000_0000_0000_0000,
    ensures
        q == round_half_even(n as nat, unit as nat),
        q <= n + 1,
{
    let q = n / unit;
    let r = n % unit;
    if r > unit - r || (r == unit - r && q % 2 == 1) {
        q + 1
    } else {
        q
    }
}

/// The unit in which `size` is shown, and the bytes in one such unit.
fn unit_for(size: u128) -> (unit: (usize, u128))
    ensures
        unit.0 == unit_index(size as nat),
        unit.1 == unit_bytes(unit.0 as int),
        unit.0 <= 6,
{
    if size < 0x400 {
        (0, 1)
    } else if size < 0x10_0000 {
        (1, 0x400)
    } else if size < 0x4000_0000 {
        (2, 0x10_0000)
    } else if size < 0x100_0000_0000 {
        (3, 0x4000_0000)
    } else if size < 0x4_0000_0000_0000 {
        (4, 0x100_0000_0000)
    } else if size < 0x1000_0000_0000_0000 {
        (5, 0x4_0000_0000_0000)
    } else {
        (6, 0x1000_0000_0000_0000)
    }
}

/// The name of a unit.
fn unit_name(index: usize) -> (name: &'static str)
    ensures
        name@ == unit_label(index as int),
{
    if index == 0 {
        "B"
    } else if index == 1 {
        "KiB"
    } else if index == 2 {
        "MiB"
    } else if index == 3 {
        "GiB"
    } else if index == 4 {
        "TiB"
    } else if index == 5 {
        "PiB"
    } else {
        "EiB"
    }
}

/// The size as it is shown to people, in binary units.
pub fn format_bytes(bytes: u64) -> (text: String)
    ensures
        text@ == human_size(bytes),
{
    if bytes < 1024 {
        let mut text = decimal_text(bytes);
        text.append(" B");
        return text;
    }
    let step = float_step_of(bytes);
    let mantissa = rounded_quotient(bytes as u128, step as u128);
    assert(mantissa * step <= (bytes + 1) * 2048) by (nonlinear_arith)
        requires
            mantissa <= bytes + 1,
            1 <= step <= 2048,
    ;
    let size: u128 = mantissa * (step as u128);
    let (index, unit) = unit_for(size);
    let tenths = rounded_quotient(size * 10, unit);
    assert(tenths / 10 <= u64::MAX);
    let mut text = decimal_text((tenths / 10) as u64);
    text.append(".");
    text.append(digit_str((tenths % 10) as u64));
    text.append(" ");
    text.append(unit_name(index));
    text
}

/// What the lines say, line by line.
pub open spec fn texts(lines: Seq<String>) -> Seq<Seq<char>> {
    lines.map_values(|line: String| line@)
}

} // verus!
