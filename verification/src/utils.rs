//! Classification of symbols and the UTF-8 window check.

use crate::options::EncodingKind;
use vstd::prelude::*;

verus! {

/// The two low bytes of `symbol`, exchanged.
pub open spec fn swapped_16(symbol: u32) -> u32 {
    ((symbol & 0xff) << 8) | ((symbol & 0xff00) >> 8)
}

/// The four bytes of `symbol` in reverse order.
pub open spec fn swapped_32(symbol: u32) -> u32 {
    ((symbol & 0xff) << 24) | ((symbol & 0xff00) << 8) | ((symbol & 0xff0000) >> 8) | ((symbol
        & 0xff000000) >> 24)
}

/// Reverses the four bytes of a symbol that was composed big-endian.
pub fn to_little_endian_32(symbol: u32) -> (r: u32)
    ensures
        r == swapped_32(symbol),
{
    ((symbol & 0xff) << 24) | ((symbol & 0xff00) << 8) | ((symbol & 0xff0000) >> 8) | ((symbol
        & 0xff000000) >> 24)
}

/// Exchanges the two low bytes of a symbol that was composed big-endian.
pub fn to_little_endian_16(symbol: u32) -> (r: u32)
    ensures
        r == swapped_16(symbol),
{
    ((symbol & 0xff) << 8) | ((symbol & 0xff00) >> 8)
}

/// Whether `value` is a printable ASCII character, a space included.
pub open spec fn printable_ascii(value: int) -> bool {
    0x20 <= value <= 0x7e
}

/// Whether `value` is an ASCII whitespace character or a vertical tab.
pub open spec fn whitespace(value: int) -> bool {
    value == 0x20 || 0x09 <= value <= 0x0d
}

/// Whether a symbol of the given value counts as printable.
///
/// Only values up to `0xff` can be printable. Among them a tab and the
/// printable ASCII characters always are; the values above `0x7f` are under the
/// 8-bit encoding; the remaining whitespace characters are where
/// `include_all_whitespace` asks for them.
pub open spec fn printable(
    value: int,
    encoding: EncodingKind,
    include_all_whitespace: bool,
) -> bool {
    &&& 0 <= value <= 0xff
    &&& (value == 0x09 || printable_ascii(value) || (encoding is Bit8 && value > 0x7f) || (
    include_all_whitespace && whitespace(value)))
}

/// Whether `c` is a printable ASCII character, a space included.
pub fn is_printable_ascii(c: char) -> (r: bool)
    ensures
        r == printable_ascii(c as int),
{
    let value: u32 = c as u32;
    0x20 <= value && value <= 0x7e
}

/// Whether `c` counts as printable under `encoding`.
pub fn char_is_printable(c: char, encoding: EncodingKind, include_all_whitespace: bool) -> (r: bool)
    ensures
        r == printable(c as int, encoding, include_all_whitespace),
{
    let value: u32 = c as u32;
    let by_encoding: bool = matches!(encoding, EncodingKind::Bit8) && value > 0x7f;
    let by_whitespace: bool = include_all_whitespace && (value == 0x20 || (0x09 <= value
        && value <= 0x0d));
    value <= 0xff && (value == 0x09 || is_printable_ascii(c) || by_encoding || by_whitespace)
}

/// Whether `byte` can follow the lead byte of a multi-byte character.
pub open spec fn continuation(byte: u8) -> bool {
    0x80 <= byte <= 0xbf
}

/// The length that a lead byte declares for its character: 2, 3 or 4, and 0
/// for a byte that leads no multi-byte character.
pub open spec fn declared_length(lead: u8) -> int {
    if lead < 0xc0 {
        0
    } else if lead < 0xe0 {
        2
    } else if lead < 0xf0 {
        3
    } else {
        4
    }
}

/// The length of the multi-byte character at the front of `window`, or 0 where
/// there is none: the lead byte declares a length, the window holds that many
/// bytes, and each byte after the lead is a continuation byte.
pub open spec fn utf8_length(window: Seq<u8>) -> int {
    let n = declared_length(window[0]);
    if window.len() >= 1 && 2 <= n <= window.len() && (forall|i: int|
        1 <= i < n ==> continuation(#[trigger] window[i])) {
        n
    } else {
        0
    }
}

/// The length of the multi-byte UTF-8 character at the front of `buffer`:
/// 2, 3 or 4, and 0 where the bytes there are not such a character.
pub fn is_valid_utf8(buffer: &[u8]) -> (r: u8)
    requires
        buffer@.len() >= 1,
    ensures
        r == utf8_length(buffer@),
        r == 0 || 2 <= r <= 4,
{
    let lead: u8 = buffer[0];
    if lead < 0xc0 {
        return 0;
    }
    if buffer.len() < 2 {
        return 0;
    }
    let second: u8 = buffer[1];
    assert((second & 0xc0) != 0x80 <==> !(0x80 <= second <= 0xbf)) by (bit_vector);
    if (second & 0xc0) != 0x80 {
        return 0;
    }
    assert(lead >= 0xc0 ==> ((lead & 0x20) == 0 <==> lead < 0xe0)) by (bit_vector);
    if (lead & 0x20) == 0 {
        return 2;
    }
    if buffer.len() < 3 {
        return 0;
    }
    let third: u8 = buffer[2];
    assert((third & 0xc0) != 0x80 <==> !(0x80 <= third <= 0xbf)) by (bit_vector);
    if (third & 0xc0) != 0x80 {
        return 0;
    }
    assert(lead >= 0xe0 ==> ((lead & 0x10) == 0 <==> lead < 0xf0)) by (bit_vector);
    if (lead & 0x10) == 0 {
        return 3;
    }
    if buffer.len() < 4 {
        return 0;
    }
    let fourth: u8 = buffer[3];
    assert((fourth & 0xc0) != 0x80 <==> !(0x80 <= fourth <= 0xbf)) by (bit_vector);
    if (fourth & 0xc0) != 0x80 {
        return 0;
    }
    4
}

/// A window in which one of the bytes that its lead byte asks for is not a
/// continuation byte holds no multi-byte character.
pub proof fn lemma_malformed_window_has_no_length(window: Seq<u8>, at: int)
    requires
        window.len() >= 1,
        1 <= at < declared_length(window[0]),
        at < window.len(),
        !continuation(window[at]),
    ensures
        utf8_length(window) == 0,
{
}

/// A window that is too short for what its lead byte asks for, or that
/// starts with a byte that leads nothing, holds no multi-byte character.
pub proof fn lemma_short_window_has_no_length(window: Seq<u8>)
    requires
        window.len() < declared_length(window[0]) || window.len() == 0 || window[0] < 0xc0,
    ensures
        utf8_length(window) == 0,
{
}

/// A window that starts with a lead byte, followed by as many continuation
/// bytes as the lead byte asks for, holds a character of the length that the
/// lead byte declares.
pub proof fn lemma_well_formed_window_has_declared_length(window: Seq<u8>)
    requires
        window.len() >= 1,
        window[0] >= 0xc0,
        window.len() >= declared_length(window[0]),
        forall|i: int| 1 <= i < declared_length(window[0]) ==> continuation(#[trigger] window[i]),
    ensures
        utf8_length(window) == declared_length(window[0]),
        2 <= utf8_length(window) <= 4,
{
}

} // verus!
