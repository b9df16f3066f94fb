//! Rendering: numbers, the prefix of a run, and multi-byte characters.

use crate::options::{Options, RadixKind, UnicodeDisplayKind};
use crate::terminal::stdout_is_terminal;
use vstd::prelude::*;

verus! {

/// The character for one digit, lower case above nine.
pub open spec fn digit(value: int) -> u8 {
    if value < 10 {
        (0x30 + value) as u8
    } else {
        (0x61 + value - 10) as u8
    }
}

/// The base of a radix.
pub open spec fn base(radix: RadixKind) -> int {
    match radix {
        RadixKind::Oct => 8,
        RadixKind::Dec => 10,
        RadixKind::Hex => 16,
    }
}

/// The digits of `value` in `radix`, the most significant first, with no
/// leading zero.
pub open spec fn numeral(value: int, radix: RadixKind) -> Seq<u8>
    decreases value,
{
    if value < base(radix) {
        seq![digit(value)]
    } else {
        match radix {
            RadixKind::Oct => numeral(value / 8, radix).push(digit(value % 8)),
            RadixKind::Dec => numeral(value / 10, radix).push(digit(value % 10)),
            RadixKind::Hex => numeral(value / 16, radix).push(digit(value % 16)),
        }
    }
}

/// `text` with spaces in front, as many as bring it to `width` characters.
pub open spec fn padded(text: Seq<u8>, width: int) -> Seq<u8> {
    if text.len() >= width {
        text
    } else {
        Seq::new((width - text.len()) as nat, |i: int| 0x20u8) + text
    }
}

/// The two hexadecimal digits of a byte.
pub open spec fn hex_pair(byte: u8) -> Seq<u8> {
    seq![digit(byte as int / 16), digit(byte as int % 16)]
}

/// What stands before a run: the name of the input and `": "` where names
/// are asked for, then the offset in the configured radix, set to the right
/// in seven characters, and a space, where offsets are asked for.
pub open spec fn prefix_text(filename: Seq<char>, address: int, options: Options) -> Seq<u8> {
    let name = if options.print_filenames {
        vstd::utf8::encode_utf8(filename) + seq![0x3au8, 0x20u8]
    } else {
        Seq::<u8>::empty()
    };
    let offset = if options.print_addresses {
        padded(numeral(address, options.address_radix), 7).push(0x20u8)
    } else {
        Seq::<u8>::empty()
    };
    name + offset
}

/// What stands after a run: the configured separator, or a line feed.
pub open spec fn separator_text(options: Options) -> Seq<u8> {
    match options.output_separator {
        Some(separator) => vstd::utf8::encode_utf8(separator@),
        None => seq![0x0au8],
    }
}

/// Appends `bytes` to `out`.
pub fn append(out: &mut Vec<u8>, bytes: &[u8])
    ensures
        final(out)@ == old(out)@ + bytes@,
{
    let mut i: usize = 0;
    while i < bytes.len()
        invariant
            i <= bytes@.len(),
            out@ == old(out)@ + bytes@.subrange(0, i as int),
        decreases bytes@.len() - i,
    {
        out.push(bytes[i]);
        i += 1;
        assert(out@ =~= old(out)@ + bytes@.subrange(0, i as int));
    }
    assert(bytes@.subrange(0, i as int) =~= bytes@);
}

/// The character for a digit below sixteen.
fn digit_char(value: u8) -> (r: u8)
    requires
        value < 16,
    ensures
        r == digit(value as int),
{
    if value < 10 {
        0x30 + value
    } else {
        0x61 + (value - 10)
    }
}

/// Appends the digits of `value` in `radix`, with spaces in front where they
/// are fewer than `width`.
pub fn append_number(out: &mut Vec<u8>, value: u64, radix: RadixKind, width: usize)
    ensures
        final(out)@ == old(out)@ + padded(numeral(value as int, radix), width as int),
{
    let step: u64 = match radix {
        RadixKind::Oct => 8,
        RadixKind::Dec => 10,
        RadixKind::Hex => 16,
    };
    let mut rest: u64 = value;
    let mut reversed: Vec<u8> = Vec::new();
    while rest >= step
        invariant
            step == base(radix),
            numeral(value as int, radix) == numeral(rest as int, radix) + reversed@.reverse(),
        decreases rest,
    {
        let low: u8 = (rest % step) as u8;
        let ghost before = reversed@;
        reversed.push(digit_char(low));
        rest = rest / step;
        assert(reversed@.reverse() =~= seq![digit(low as int)] + before.reverse());
        assert(numeral(rest as int, radix).push(digit(low as int)) + before.reverse() =~= numeral(
            rest as int,
            radix,
        ) + reversed@.reverse());
    }
    reversed.push(digit_char(rest as u8));
    assert(reversed@.reverse() =~= numeral(value as int, radix)) by {
        let before = reversed@.drop_last();
        assert(reversed@.reverse() =~= seq![digit(rest as int)] + before.reverse());
    }
    let mut spaces: usize = reversed.len();
    while spaces < width
        invariant
            reversed@.len() <= spaces,
            spaces == reversed@.len() || spaces <= width,
            out@ == old(out)@ + Seq::new((spaces - reversed@.len()) as nat, |i: int| 0x20u8),
        decreases width - spaces,
    {
        out.push(0x20);
        spaces += 1;
        assert(out@ =~= old(out)@ + Seq::new((spaces - reversed@.len()) as nat, |i: int| 0x20u8));
    }
    let ghost padding = out@;
    let mut left: usize = reversed.len();
    while left > 0
        invariant
            left <= reversed@.len(),
            out@ == padding + reversed@.reverse().subrange(0, reversed@.len() - left),
        decreases left,
    {
        left -= 1;
        out.push(reversed[left]);
        assert(out@ =~= padding + reversed@.reverse().subrange(0, reversed@.len() - left));
    }
    assert(reversed@.reverse().subrange(0, reversed@.len() as int) =~= reversed@.reverse());
    assert(out@ =~= old(out)@ + padded(numeral(value as int, radix), width as int));
}

/// Writes what stands before a run that starts at `address`.
pub fn print_filename_and_address(
    filename: &str,
    address: u64,
    options: &Options,
    out: &mut Vec<u8>,
)
    ensures
        final(out)@ == old(out)@ + prefix_text(filename@, address as int, *options),
{
    if options.print_filenames {
        append(out, filename.as_bytes());
        out.push(0x3a);
        out.push(0x20);
    }
    let ghost named = out@;
    assert(named =~= old(out)@ + if options.print_filenames {
        vstd::utf8::encode_utf8(filename@) + seq![0x3au8, 0x20u8]
    } else {
        Seq::<u8>::empty()
    });
    if !options.print_addresses {
        assert(out@ =~= old(out)@ + prefix_text(filename@, address as int, *options));
        return ;
    }
    append_number(out, address, options.address_radix, 7);
    out.push(0x20);
    assert(out@ =~= old(out)@ + prefix_text(filename@, address as int, *options));
}

/// Writes what stands after a run.
pub fn append_separator(out: &mut Vec<u8>, options: &Options)
    ensures
        final(out)@ == old(out)@ + separator_text(*options),
{
    match &options.output_separator {
        Some(separator) => {
            append(out, separator.as_str().as_bytes());
        },
        None => {
            out.push(0x0a);
            assert(out@ =~= old(out)@ + separator_text(*options));
        },
    }
}

/// The number of bytes that the formatter takes a character to have, read
/// from two bits of its lead byte: 2, 3 or 4.
pub open spec fn rendered_length(lead: u8) -> int {
    if lead & 0x30 == 0x30 {
        4
    } else if lead & 0x30 == 0x20 {
        3
    } else {
        2
    }
}

/// The escape sequence for the character at the front of `window`: `\u` and
/// two hexadecimal digits for each byte of the code point, which is put
/// together from the low bits of the lead byte and six bits of each byte after
/// it. Of a character of four bytes the lead byte gives its three low bits to
/// the top of the first byte, where only two of them find room.
pub open spec fn escape_text(window: Seq<u8>) -> Seq<u8> {
    let b0 = window[0];
    let b1 = window[1];
    let b2 = window[2];
    let b3 = window[3];
    let length = rendered_length(b0);
    seq![0x5cu8, 0x75u8] + if length == 2 {
        hex_pair((b0 & 0x1c) >> 2) + hex_pair(((b0 & 0x03) << 6) | (b1 & 0x3f))
    } else if length == 3 {
        hex_pair(((b0 & 0x0f) << 4) | ((b1 & 0x3c) >> 2)) + hex_pair(
            ((b1 & 0x03) << 6) | (b2 & 0x3f),
        )
    } else {
        hex_pair(((b0 & 0x07) << 6) | ((b1 & 0x3c) >> 2)) + hex_pair(
            ((b1 & 0x03) << 6) | ((b2 & 0x3c) >> 2),
        ) + hex_pair(((b2 & 0x03) << 6) | (b3 & 0x3f))
    }
}

/// The hexadecimal digits of `bytes`, two for each.
pub open spec fn hex_digits(bytes: Seq<u8>) -> Seq<u8>
    decreases bytes.len(),
{
    if bytes.len() == 0 {
        Seq::empty()
    } else {
        hex_digits(bytes.drop_last()) + hex_pair(bytes.last())
    }
}

/// The decimal values of `bytes`, with a comma and a space between every two.
pub open spec fn listed(bytes: Seq<u8>) -> Seq<u8>
    decreases bytes.len(),
{
    if bytes.len() == 0 {
        Seq::empty()
    } else if bytes.len() == 1 {
        numeral(bytes[0] as int, RadixKind::Dec)
    } else {
        listed(bytes.drop_last()) + seq![0x2cu8, 0x20u8] + numeral(
            bytes.last() as int,
            RadixKind::Dec,
        )
    }
}

/// The code that sets red on white.
pub open spec fn colour_on() -> Seq<u8> {
    seq![0x1bu8, 0x5bu8, 0x33u8, 0x31u8, 0x3bu8, 0x34u8, 0x37u8, 0x6du8]
}

/// The code that sets the default colours again.
pub open spec fn colour_off() -> Seq<u8> {
    seq![0x1bu8, 0x5bu8, 0x30u8, 0x6du8]
}

/// What is written for the multi-byte character at the front of `window`.
///
/// - `Escape`: its escape sequence.
/// - `Highlight`: its escape sequence, between the two colour codes where
///   the output goes to a terminal.
/// - `Hex`: `<0x`, the hexadecimal digits of its bytes, and `>`.
/// - `Show`: the decimal values of all bytes of the window, in square
///   brackets.
/// - `Default` and `Invalid`: nothing.
pub open spec fn display_text(
    window: Seq<u8>,
    display: UnicodeDisplayKind,
    interactive: bool,
) -> Seq<u8> {
    match display {
        UnicodeDisplayKind::Escape => escape_text(window),
        UnicodeDisplayKind::Highlight => if interactive {
            colour_on() + escape_text(window) + colour_off()
        } else {
            escape_text(window)
        },
        UnicodeDisplayKind::Hex => seq![0x3cu8, 0x30u8, 0x78u8] + hex_digits(
            window.subrange(0, rendered_length(window[0])),
        ) + seq![0x3eu8],
        UnicodeDisplayKind::Show => seq![0x5bu8] + listed(window) + seq![0x5du8],
        UnicodeDisplayKind::Default | UnicodeDisplayKind::Invalid => Seq::empty(),
    }
}

/// Whether `window` holds the bytes that `display` writes of it.
pub open spec fn displayable(window: Seq<u8>, display: UnicodeDisplayKind) -> bool {
    &&& window.len() >= 1
    &&& (display is Escape || display is Highlight || display is Hex) ==> window.len()
        >= rendered_length(window[0])
}

/// Appends the two hexadecimal digits of `byte`.
fn append_hex_pair(out: &mut Vec<u8>, byte: u8)
    ensures
        final(out)@ == old(out)@ + hex_pair(byte),
{
    out.push(digit_char(byte / 16));
    out.push(digit_char(byte % 16));
    assert(out@ =~= old(out)@ + hex_pair(byte));
}

/// Appends the escape sequence of the character at the front of `buffer`.
fn append_escape(out: &mut Vec<u8>, buffer: &[u8], utf8_len: u8)
    requires
        buffer@.len() >= utf8_len,
        utf8_len == rendered_length(buffer@[0]),
    ensures
        final(out)@ == old(out)@ + escape_text(buffer@),
{
    out.push(0x5c);
    out.push(0x75);
    if utf8_len == 2 {
        append_hex_pair(out, (buffer[0] & 0x1c) >> 2);
        append_hex_pair(out, ((buffer[0] & 0x03) << 6) | (buffer[1] & 0x3f));
    } else if utf8_len == 3 {
        append_hex_pair(out, ((buffer[0] & 0x0f) << 4) | ((buffer[1] & 0x3c) >> 2));
        append_hex_pair(out, ((buffer[1] & 0x03) << 6) | (buffer[2] & 0x3f));
    } else {
        append_hex_pair(out, ((buffer[0] & 0x07) << 6) | ((buffer[1] & 0x3c) >> 2));
        append_hex_pair(out, ((buffer[1] & 0x03) << 6) | ((buffer[2] & 0x3c) >> 2));
        append_hex_pair(out, ((buffer[2] & 0x03) << 6) | (buffer[3] & 0x3f));
    }
    assert(out@ =~= old(out)@ + escape_text(buffer@));
}

/// Writes the multi-byte character at the front of `buffer` as `display`
/// asks, coloured only where `interactive` says that the output goes to a
/// terminal, and returns the number of bytes that the character takes.
pub fn render_utf8_char(
    buffer: &[u8],
    display: UnicodeDisplayKind,
    interactive: bool,
    out: &mut Vec<u8>,
) -> (r: u8)
    requires
        displayable(buffer@, display),
    ensures
        r == rendered_length(buffer@[0]),
        final(out)@ == old(out)@ + display_text(buffer@, display, interactive),
{
    let selector: u8 = buffer[0] & 0x30;
    let utf8_len: u8 = if selector == 0x30 {
        4
    } else if selector == 0x20 {
        3
    } else {
        2
    };
    match display {
        UnicodeDisplayKind::Escape | UnicodeDisplayKind::Highlight => {
            let coloured: bool = matches!(display, UnicodeDisplayKind::Highlight) && interactive;
            if coloured {
                append(out, &[0x1b, 0x5b, 0x33, 0x31, 0x3b, 0x34, 0x37, 0x6d]);
            }
            append_escape(out, buffer, utf8_len);
            if coloured {
                append(out, &[0x1b, 0x5b, 0x30, 0x6d]);
            }
            assert(out@ =~= old(out)@ + display_text(buffer@, display, interactive));
        },
        UnicodeDisplayKind::Hex => {
            out.push(0x3c);
            out.push(0x30);
            out.push(0x78);
            let mut j: usize = 0;
            while j < utf8_len as usize
                invariant
                    j <= utf8_len <= buffer@.len(),
                    out@ == old(out)@ + seq![0x3cu8, 0x30u8, 0x78u8] + hex_digits(
                        buffer@.subrange(0, j as int),
                    ),
                decreases utf8_len - j,
            {
                append_hex_pair(out, buffer[j]);
                j += 1;
                assert(buffer@.subrange(0, j as int).drop_last() =~= buffer@.subrange(0, j - 1));
                assert(out@ =~= old(out)@ + seq![0x3cu8, 0x30u8, 0x78u8] + hex_digits(
                    buffer@.subrange(0, j as int),
                ));
            }
            out.push(0x3e);
            assert(out@ =~= old(out)@ + display_text(buffer@, display, interactive));
        },
        UnicodeDisplayKind::Show => {
            out.push(0x5b);
            let mut j: usize = 0;
            while j < buffer.len()
                invariant
                    j <= buffer@.len(),
                    out@ == old(out)@ + seq![0x5bu8] + listed(buffer@.subrange(0, j as int)),
                decreases buffer@.len() - j,
            {
                if j > 0 {
                    out.push(0x2c);
                    out.push(0x20);
                }
                append_number(out, buffer[j] as u64, RadixKind::Dec, 0);
                j += 1;
                assert(buffer@.subrange(0, j as int).drop_last() =~= buffer@.subrange(0, j - 1));
                assert(out@ =~= old(out)@ + seq![0x5bu8] + listed(buffer@.subrange(0, j as int)));
            }
            out.push(0x5d);
            assert(buffer@.subrange(0, j as int) =~= buffer@);
            assert(out@ =~= old(out)@ + display_text(buffer@, display, interactive));
        },
        _ => {
            assert(out@ =~= old(out)@ + display_text(buffer@, display, interactive));
        },
    }
    utf8_len
}

/// Writes the multi-byte character at the front of `buffer` as `display`
/// asks, and returns the number of bytes that the character takes. Under
/// `Highlight` the escape sequence is coloured where standard output is a
/// terminal.
pub fn display_utf8_char(buffer: &[u8], display: UnicodeDisplayKind, out: &mut Vec<u8>) -> (r: u8)
    requires
        displayable(buffer@, display),
    ensures
        r == rendered_length(buffer@[0]),
        final(out)@ == old(out)@ + display_text(buffer@, display, false) || (display is Highlight
            && final(out)@ == old(out)@ + display_text(buffer@, display, true)),
{
    let interactive: bool = matches!(display, UnicodeDisplayKind::Highlight)
        && stdout_is_terminal();
    render_utf8_char(buffer, display, interactive, out)
}

} // verus!
