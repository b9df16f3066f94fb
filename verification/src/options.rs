//! The configuration of a scan.

use vstd::prelude::*;

verus! {

/// How a multi-byte UTF-8 character is presented.
#[derive(Copy, Clone, Debug, PartialEq, Eq, Structural)]
pub enum UnicodeDisplayKind {
    /// No special treatment: bytes are scanned one symbol at a time.
    Default,
    /// The raw bytes, as a bracketed list of decimal values.
    Show,
    /// An escape sequence, `\u` followed by hexadecimal digits.
    Escape,
    /// The raw bytes in hexadecimal, between `<0x` and `>`.
    Hex,
    /// An escape sequence, coloured when written to a terminal.
    Highlight,
    /// Multi-byte characters count as non-printable.
    Invalid,
}

/// The width and byte order of one symbol.
#[derive(Copy, Clone, Debug, PartialEq, Eq, Structural)]
pub enum EncodingKind {
    /// One byte; the values above `0x7f` are not printable.
    Bit7,
    /// One byte; the values above `0x7f` are printable.
    Bit8,
    /// Two bytes, the high one first.
    BigEndian16,
    /// Two bytes, the low one first.
    LittleEndian16,
    /// Four bytes, the highest first.
    BigEndian32,
    /// Four bytes, the lowest first.
    LittleEndian32,
}

/// The display that `name` stands for: each display has a long name and a
/// letter.
pub open spec fn display_named(name: Seq<char>) -> Option<UnicodeDisplayKind> {
    if name == "default"@ || name == "d"@ {
        Some(UnicodeDisplayKind::Default)
    } else if name == "locale"@ || name == "l"@ {
        Some(UnicodeDisplayKind::Show)
    } else if name == "escape"@ || name == "e"@ {
        Some(UnicodeDisplayKind::Escape)
    } else if name == "invalid"@ || name == "i"@ {
        Some(UnicodeDisplayKind::Invalid)
    } else if name == "hex"@ || name == "x"@ {
        Some(UnicodeDisplayKind::Hex)
    } else if name == "highlight"@ || name == "h"@ {
        Some(UnicodeDisplayKind::Highlight)
    } else {
        None
    }
}

/// Whether `text` spells `word`.
fn spells(text: &str, word: &str) -> (r: bool)
    ensures
        r == (text@ == word@),
{
    text.to_owned() == word.to_owned()
}

impl UnicodeDisplayKind {
    /// The display that `kind` names, or `None` where it names none.
    pub fn parse(kind: &str) -> (r: Option<UnicodeDisplayKind>)
        ensures
            r == display_named(kind@),
    {
        if spells(kind, "default") || spells(kind, "d") {
            Some(UnicodeDisplayKind::Default)
        } else if spells(kind, "locale") || spells(kind, "l") {
            Some(UnicodeDisplayKind::Show)
        } else if spells(kind, "escape") || spells(kind, "e") {
            Some(UnicodeDisplayKind::Escape)
        } else if spells(kind, "invalid") || spells(kind, "i") {
            Some(UnicodeDisplayKind::Invalid)
        } else if spells(kind, "hex") || spells(kind, "x") {
            Some(UnicodeDisplayKind::Hex)
        } else if spells(kind, "highlight") || spells(kind, "h") {
            Some(UnicodeDisplayKind::Highlight)
        } else {
            None
        }
    }

    /// The display that `kind` names.
    pub fn from(kind: &str) -> (r: UnicodeDisplayKind)
        requires
            display_named(kind@) is Some,
        ensures
            display_named(kind@) == Some(r),
    {
        UnicodeDisplayKind::parse(kind).unwrap()
    }
}

/// The encoding that the letter `kind` stands for.
pub open spec fn encoding_named(kind: char) -> Option<EncodingKind> {
    if kind == 's' {
        Some(EncodingKind::Bit7)
    } else if kind == 'S' {
        Some(EncodingKind::Bit8)
    } else if kind == 'b' {
        Some(EncodingKind::BigEndian16)
    } else if kind == 'l' {
        Some(EncodingKind::LittleEndian16)
    } else if kind == 'B' {
        Some(EncodingKind::BigEndian32)
    } else if kind == 'L' {
        Some(EncodingKind::LittleEndian32)
    } else {
        None
    }
}

impl EncodingKind {
    /// The encoding that the letter `kind` stands for, or `None` where it
    /// stands for none.
    pub fn parse(kind: char) -> (r: Option<EncodingKind>)
        ensures
            r == encoding_named(kind),
    {
        if kind == 's' {
            Some(EncodingKind::Bit7)
        } else if kind == 'S' {
            Some(EncodingKind::Bit8)
        } else if kind == 'b' {
            Some(EncodingKind::BigEndian16)
        } else if kind == 'l' {
            Some(EncodingKind::LittleEndian16)
        } else if kind == 'B' {
            Some(EncodingKind::BigEndian32)
        } else if kind == 'L' {
            Some(EncodingKind::LittleEndian32)
        } else {
            None
        }
    }

    /// The encoding that the letter `kind` stands for.
    pub fn from(kind: char) -> (r: EncodingKind)
        requires
            encoding_named(kind) is Some,
        ensures
            encoding_named(kind) == Some(r),
    {
        EncodingKind::parse(kind).unwrap()
    }

    /// The number of bytes that make up one symbol.
    pub open spec fn width(self) -> int {
        match self {
            EncodingKind::Bit7 | EncodingKind::Bit8 => 1,
            EncodingKind::BigEndian16 | EncodingKind::LittleEndian16 => 2,
            EncodingKind::BigEndian32 | EncodingKind::LittleEndian32 => 4,
        }
    }

    /// The number of bytes that make up one symbol: 1, 2 or 4.
    pub fn num_bytes(&self) -> (n: u8)
        ensures
            n == self.width(),
    {
        match self {
            EncodingKind::Bit7 | EncodingKind::Bit8 => 1,
            EncodingKind::BigEndian16 | EncodingKind::LittleEndian16 => 2,
            EncodingKind::BigEndian32 | EncodingKind::LittleEndian32 => 4,
        }
    }
}

/// The radix in which offsets are printed.
#[derive(Copy, Clone, Debug, PartialEq, Eq, Structural)]
pub enum RadixKind {
    /// Base 8.
    Oct,
    /// Base 10.
    Dec,
    /// Base 16, with the digits above nine in lower case.
    Hex,
}

/// The radix that the letter `name` stands for.
pub open spec fn radix_named(name: Seq<char>) -> Option<RadixKind> {
    if name == "o"@ {
        Some(RadixKind::Oct)
    } else if name == "d"@ {
        Some(RadixKind::Dec)
    } else if name == "x"@ {
        Some(RadixKind::Hex)
    } else {
        None
    }
}

impl RadixKind {
    /// The radix that `name` stands for, or `None` where it stands for
    /// none.
    pub fn parse(name: &str) -> (r: Option<RadixKind>)
        ensures
            r == radix_named(name@),
    {
        if spells(name, "o") {
            Some(RadixKind::Oct)
        } else if spells(name, "d") {
            Some(RadixKind::Dec)
        } else if spells(name, "x") {
            Some(RadixKind::Hex)
        } else {
            None
        }
    }
}

/// What was asked for on the command line, as it was written there.
pub struct CliArgs {
    /// Scan the whole file.
    pub all: bool,
    /// Scan only the data sections of object files.
    pub data: bool,
    /// Write the name of the file before each run.
    pub print_file_name: bool,
    /// The least number of symbols that make a run.
    pub min_bytes: u16,
    /// The letter of the radix of the offsets.
    pub radix: Option<String>,
    /// Write offsets in octal.
    pub octal_radix: bool,
    /// Count every whitespace character as printable.
    pub include_all_whitespace: bool,
    /// The letter of the encoding.
    pub encoding: Option<String>,
    /// The name of the display of multi-byte characters.
    pub unicode: Option<String>,
    /// What is written after each run.
    pub output_separator: Option<String>,
}

impl CliArgs {
    /// Whether every name and letter stands for something.
    pub open spec fn valid(self) -> bool {
        &&& self.radix matches Some(name) ==> radix_named(name@) is Some
        &&& self.encoding matches Some(letter) ==> letter@.len() == 1 && encoding_named(
            letter@[0],
        ) is Some
        &&& self.unicode matches Some(name) ==> display_named(name@) is Some
    }

    /// The radix asked for: that of the letter, else octal where octal
    /// offsets are asked for, else hexadecimal.
    pub open spec fn radix_asked(self) -> RadixKind {
        match self.radix {
            Some(name) => radix_named(name@)->0,
            None => if self.octal_radix {
                RadixKind::Oct
            } else {
                RadixKind::Hex
            },
        }
    }

    /// The display asked for; the default one where none is named.
    pub open spec fn display_asked(self) -> UnicodeDisplayKind {
        match self.unicode {
            Some(name) => display_named(name@)->0,
            None => UnicodeDisplayKind::Default,
        }
    }

    /// The encoding asked for. Every display but the default one asks for
    /// the 8-bit encoding; else it is that of the letter, and the 7-bit one
    /// where there is no letter.
    pub open spec fn encoding_asked(self) -> EncodingKind {
        if !(self.display_asked() is Default) {
            EncodingKind::Bit8
        } else {
            match self.encoding {
                Some(letter) => encoding_named(letter@[0])->0,
                None => EncodingKind::Bit7,
            }
        }
    }
}

/// The parameters of a scan. A scan reads them and never changes them.
pub struct Options {
    /// Scan only the data sections of object files.
    pub datasection_only: bool,
    /// Write the name of the input before each run.
    pub print_filenames: bool,
    /// The least number of symbols that make a run.
    pub min_length: u16,
    /// Count every whitespace character as printable, not only tab and space.
    pub include_all_whitespace: bool,
    /// Write the offset of each run before it.
    pub print_addresses: bool,
    /// The radix of the offsets.
    pub address_radix: RadixKind,
    /// The encoding of the symbols.
    pub encoding: EncodingKind,
    /// What is written after each run; a line feed where it is `None`.
    pub output_separator: Option<String>,
    /// How multi-byte UTF-8 characters are presented.
    pub unicode_display: UnicodeDisplayKind,
}

impl Options {
    /// The parameters that the command line asks for.
    pub fn new(args: &CliArgs) -> (r: Options)
        requires
            args.valid(),
        ensures
            r.datasection_only == args.data,
            r.print_filenames == args.print_file_name,
            r.min_length == args.min_bytes,
            r.include_all_whitespace == args.include_all_whitespace,
            r.print_addresses == (args.octal_radix || args.radix is Some),
            r.address_radix == args.radix_asked(),
            r.output_separator == args.output_separator,
            r.unicode_display == args.display_asked(),
            r.encoding == args.encoding_asked(),
    {
        let mut datasection_only: bool = false;
        let mut print_filenames: bool = false;
        let min_length: u16 = args.min_bytes;
        let mut include_all_whitespace: bool = false;
        let mut print_addresses: bool = false;
        let mut address_radix: RadixKind = RadixKind::Hex;
        let mut output_separator: Option<String> = None;
        let mut encoding: EncodingKind = EncodingKind::Bit7;
        let mut unicode_display: UnicodeDisplayKind = UnicodeDisplayKind::Default;

        if args.all {
            datasection_only = false;
        }
        if args.data {
            datasection_only = true;
        }
        if args.print_file_name {
            print_filenames = true;
        }
        if args.include_all_whitespace {
            include_all_whitespace = true;
        }
        if args.octal_radix {
            print_addresses = true;
            address_radix = RadixKind::Oct;
        }
        if let Some(radix) = &args.radix {
            print_addresses = true;
            address_radix = RadixKind::parse(radix.as_str()).unwrap();
        }
        if let Some(enc) = &args.encoding {
            encoding = EncodingKind::from(enc.as_str().get_char(0));
        }
        if let Some(separator) = &args.output_separator {
            output_separator = Some(separator.clone());
        }
        if let Some(unicode) = &args.unicode {
            unicode_display = UnicodeDisplayKind::from(unicode.as_str());
        }
        if !matches!(unicode_display, UnicodeDisplayKind::Default) {
            encoding = EncodingKind::Bit8;
        }
        Options {
            datasection_only,
            print_filenames,
            min_length,
            include_all_whitespace,
            print_addresses,
            address_radix,
            output_separator,
            encoding,
            unicode_display,
        }
    }
}

impl Default for Options {
    /// Runs of four 7-bit symbols or more, written one per line with nothing
    /// in front.
    fn default() -> (r: Self)
        ensures
            !r.datasection_only,
            !r.print_filenames,
            r.min_length == 4,
            !r.include_all_whitespace,
            !r.print_addresses,
            r.address_radix == RadixKind::Hex,
            r.output_separator is None,
            r.encoding == EncodingKind::Bit7,
            r.unicode_display == UnicodeDisplayKind::Default,
    {
        Options {
            datasection_only: false,
            print_filenames: false,
            min_length: 4,
            include_all_whitespace: false,
            print_addresses: false,
            address_radix: RadixKind::Hex,
            output_separator: None,
            encoding: EncodingKind::Bit7,
            unicode_display: UnicodeDisplayKind::Default,
        }
    }
}

} // verus!
