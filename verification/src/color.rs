//! Colors written as text: `#rgb` or `#rrggbb`, read as opaque `0xRRGGBBAA`.

use vstd::prelude::*;
use vstd::string::StringSliceAdditionalSpecFns;

verus! {

/// Color given for text that does not start with `#`.
pub const FALLBACK_COLOR: u32 = 0xff00_ff80;

/// The value of a hexadecimal digit, if the byte is one.
pub open spec fn hex_digit(b: u8) -> Option<nat> {
    if 48 <= b <= 57 {
        Some((b - 48) as nat)
    } else if 65 <= b <= 70 {
        Some((b - 55) as nat)
    } else if 97 <= b <= 102 {
        Some((b - 87) as nat)
    } else {
        None
    }
}

/// Whether every byte is a hexadecimal digit.
pub open spec fn all_hex(digits: Seq<u8>) -> bool {
    forall|i: int| 0 <= i < digits.len() ==> (#[trigger] hex_digit(digits[i])) is Some
}

/// The number that the digits write, most significant digit first.
pub open spec fn hex_value(digits: Seq<u8>) -> nat
    decreases digits.len(),
{
    if digits.len() == 0 {
        0
    } else {
        hex_value(digits.drop_last()) * 16 + match hex_digit(digits.last()) {
            Some(d) => d,
            None => 0,
        }
    }
}

/// The digits of a number: the text without one leading `+`, if it has one.
pub open spec fn unsigned_part(text: Seq<u8>) -> Seq<u8> {
    if text.len() > 0 && text[0] == 43 {
        text.skip(1)
    } else {
        text
    }
}

/// The 32-bit number that the text writes in hexadecimal: an optional `+`
/// and at least one digit, with a value that fits.
pub open spec fn hex_number(text: Seq<u8>) -> Option<u32> {
    let digits = unsigned_part(text);
    if digits.len() > 0 && all_hex(digits) && hex_value(digits) <= u32::MAX {
        Some(hex_value(digits) as u32)
    } else {
        None
    }
}

/// Whether the text is a color: it is not empty, and what follows a leading
/// `#` is a hexadecimal number.
pub open spec fn is_color(text: Seq<u8>) -> bool {
    text.len() > 0 && (text[0] == 35 ==> hex_number(text.skip(1)) is Some)
}

/// A three-digit color with each digit doubled.
pub open spec fn doubled(hex: u32) -> nat {
    ((hex / 0x100) * 0x11_0000 + (hex / 0x10 % 0x10) * 0x1100 + (hex % 0x10) * 0x11) as nat
}

/// The color that the text stands for. After `#`, three characters are one
/// digit for each of red, green and blue, and anything else is the number
/// `rrggbb`; the color is opaque. Other text gives the fallback color.
pub open spec fn color_of(text: Seq<u8>) -> u32
    recommends
        is_color(text),
{
    if text[0] == 35 {
        let hex = hex_number(text.skip(1))->0;
        let rgb = if text.len() == 4 {
            doubled(hex)
        } else {
            hex as nat
        };
        (rgb * 0x100 % 0x1_0000_0000 + 0xff) as u32
    } else {
        FALLBACK_COLOR
    }
}

/// A number is at least what its leading digits write.
proof fn lemma_hex_value_grows(digits: Seq<u8>, k: int)
    requires
        0 <= k <= digits.len(),
    ensures
        hex_value(digits.take(k)) <= hex_value(digits),
    decreases digits.len(),
{
    if k == digits.len() {
        assert(digits.take(k) =~= digits);
    } else {
        assert(digits.drop_last().take(k) =~= digits.take(k));
        lemma_hex_value_grows(digits.drop_last(), k);
    }
}

/// Reads the hexadecimal number written from offset `from` on.
fn parse_hex(text: &[u8], from: usize) -> (r: Option<u32>)
    requires
        from <= text@.len(),
    ensures
        r == hex_number(text@.skip(from as int)),
{
    let ghost src = text@.skip(from as int);
    let start = if from < text.len() && text[from] == 43 {
        from + 1
    } else {
        from
    };
    let ghost digits = unsigned_part(src);
    assert(digits =~= text@.skip(start as int));
    if start == text.len() {
        return None;
    }
    let mut acc: u64 = 0;
    let mut k: usize = start;
    assert(digits.take(0) =~= Seq::empty());
    while k < text.len()
        invariant
            start <= k <= text@.len(),
            digits == text@.skip(start as int),
            digits == unsigned_part(text@.skip(from as int)),
            all_hex(digits.take(k - start)),
            acc == hex_value(digits.take(k - start)),
            acc <= u32::MAX,
        decreases text@.len() - k,
    {
        let b = text[k];
        let d: u64 = if 48 <= b && b <= 57 {
            (b - 48) as u64
        } else if 65 <= b && b <= 70 {
            (b - 55) as u64
        } else if 97 <= b && b <= 102 {
            (b - 87) as u64
        } else {
            assert(hex_digit(digits[k - start]) is None);
            return None;
        };
        let ghost next = digits.take(k - start + 1);
        proof {
            assert(next.drop_last() =~= digits.take(k - start));
            assert(next.last() == b);
            assert forall|i: int| 0 <= i < next.len() implies (#[trigger] hex_digit(
                next[i],
            )) is Some by {
                if i < k - start {
                    assert(digits.take(k - start)[i] == next[i]);
                }
            }
        }
        acc = acc * 16 + d;
        if acc > 0xffff_ffff {
            proof {
                lemma_hex_value_grows(digits, k - start + 1);
            }
            return None;
        }
        k += 1;
    }
    assert(digits.take(k - start) =~= digits);
    Some(acc as u32)
}

/// Whether `parse_color` may be called with this text.
pub fn is_valid_color(color: &str) -> (ok: bool)
    ensures
        ok == is_color(color.spec_bytes()),
{
    let text = color.as_bytes();
    if text.len() == 0 {
        return false;
    }
    if text[0] != 35 {
        return true;
    }
    parse_hex(text, 1).is_some()
}

/// The color that the text stands for.
pub fn parse_color(color: &str) -> (rgba: u32)
    requires
        is_color(color.spec_bytes()),
    ensures
        rgba == color_of(color.spec_bytes()),
{
    let text = color.as_bytes();
    if text[0] == 35 {
        let hex = parse_hex(text, 1).unwrap();
        if text.len() == 4 {
            proof {
                lemma_three_digits(text@.skip(1));
            }
            let rgb = (hex / 0x100) * 0x11_0000 + (hex / 0x10 % 0x10) * 0x1100 + (hex % 0x10) * 0x11;
            rgb * 0x100 + 0xff
        } else {
            (((hex as u64) * 0x100 % 0x1_0000_0000) as u32) + 0xff
        }
    } else {
        FALLBACK_COLOR
    }
}

/// Three characters write a number below `0x1000`.
proof fn lemma_three_digits(text: Seq<u8>)
    requires
        text.len() == 3,
        hex_number(text) is Some,
    ensures
        hex_number(text)->0 < 0x1000,
{
    let digits = unsigned_part(text);
    lemma_small_value(digits);
}

/// `n` digits write a number below `16^n`, for up to three digits.
proof fn lemma_small_value(digits: Seq<u8>)
    requires
        digits.len() <= 3,
    ensures
        digits.len() == 0 ==> hex_value(digits) == 0,
        digits.len() == 1 ==> hex_value(digits) < 0x10,
        digits.len() == 2 ==> hex_value(digits) < 0x100,
        digits.len() == 3 ==> hex_value(digits) < 0x1000,
    decreases digits.len(),
{
    if digits.len() > 0 {
        lemma_small_value(digits.drop_last());
    }
}

} // verus!
