use strings::options::{CliArgs, EncodingKind, Options, RadixKind, UnicodeDisplayKind};
use strings::scan::{suits_slice, suits_stream};

fn plain() -> CliArgs {
    CliArgs {
        all: false,
        data: false,
        print_file_name: false,
        min_bytes: 4,
        radix: None,
        octal_radix: false,
        include_all_whitespace: false,
        encoding: None,
        unicode: None,
        output_separator: None,
    }
}

#[test]
fn defaults_are_those_of_the_command() {
    let options = Options::default();
    assert!(!options.datasection_only);
    assert!(!options.print_filenames);
    assert_eq!(4, options.min_length);
    assert!(!options.include_all_whitespace);
    assert!(!options.print_addresses);
    assert_eq!(RadixKind::Hex, options.address_radix);
    assert_eq!(None, options.output_separator);
    assert_eq!(EncodingKind::Bit7, options.encoding);
    assert_eq!(UnicodeDisplayKind::Default, options.unicode_display);
}

#[test]
fn plain_command_line_gives_the_defaults() {
    let options = Options::new(&plain());
    assert!(!options.datasection_only);
    assert!(!options.print_filenames);
    assert_eq!(4, options.min_length);
    assert!(!options.include_all_whitespace);
    assert!(!options.print_addresses);
    assert_eq!(RadixKind::Hex, options.address_radix);
    assert_eq!(None, options.output_separator);
    assert_eq!(EncodingKind::Bit7, options.encoding);
    assert_eq!(UnicodeDisplayKind::Default, options.unicode_display);
}

#[test]
fn flags_are_taken_over() {
    let mut args = plain();
    args.data = true;
    args.all = true;
    args.print_file_name = true;
    args.include_all_whitespace = true;
    args.min_bytes = 9;
    args.output_separator = Some("--".to_string());
    let options = Options::new(&args);
    assert!(options.datasection_only);
    assert!(options.print_filenames);
    assert!(options.include_all_whitespace);
    assert_eq!(9, options.min_length);
    assert_eq!(Some("--".to_string()), options.output_separator);
}

#[test]
fn radix_letter_wins_over_the_octal_flag() {
    let mut args = plain();
    args.octal_radix = true;
    let options = Options::new(&args);
    assert!(options.print_addresses);
    assert_eq!(RadixKind::Oct, options.address_radix);

    args.radix = Some("d".to_string());
    let options = Options::new(&args);
    assert!(options.print_addresses);
    assert_eq!(RadixKind::Dec, options.address_radix);

    args.octal_radix = false;
    args.radix = Some("x".to_string());
    assert_eq!(RadixKind::Hex, Options::new(&args).address_radix);
    args.radix = Some("o".to_string());
    assert_eq!(RadixKind::Oct, Options::new(&args).address_radix);
}

#[test]
fn encoding_letter_selects_the_encoding() {
    let mut args = plain();
    args.encoding = Some("l".to_string());
    assert_eq!(EncodingKind::LittleEndian16, Options::new(&args).encoding);
    args.encoding = Some("B".to_string());
    assert_eq!(EncodingKind::BigEndian32, Options::new(&args).encoding);
}

#[test]
fn unicode_display_forces_the_eight_bit_encoding() {
    let mut args = plain();
    args.encoding = Some("b".to_string());
    args.unicode = Some("escape".to_string());
    let options = Options::new(&args);
    assert_eq!(UnicodeDisplayKind::Escape, options.unicode_display);
    assert_eq!(EncodingKind::Bit8, options.encoding);

    args.unicode = Some("d".to_string());
    let options = Options::new(&args);
    assert_eq!(UnicodeDisplayKind::Default, options.unicode_display);
    assert_eq!(EncodingKind::BigEndian16, options.encoding);
}

#[test]
fn displays_have_a_name_and_a_letter() {
    assert_eq!(UnicodeDisplayKind::Default, UnicodeDisplayKind::from("default"));
    assert_eq!(UnicodeDisplayKind::Default, UnicodeDisplayKind::from("d"));
    assert_eq!(UnicodeDisplayKind::Show, UnicodeDisplayKind::from("locale"));
    assert_eq!(UnicodeDisplayKind::Show, UnicodeDisplayKind::from("l"));
    assert_eq!(UnicodeDisplayKind::Escape, UnicodeDisplayKind::from("escape"));
    assert_eq!(UnicodeDisplayKind::Escape, UnicodeDisplayKind::from("e"));
    assert_eq!(UnicodeDisplayKind::Invalid, UnicodeDisplayKind::from("invalid"));
    assert_eq!(UnicodeDisplayKind::Invalid, UnicodeDisplayKind::from("i"));
    assert_eq!(UnicodeDisplayKind::Hex, UnicodeDisplayKind::from("hex"));
    assert_eq!(UnicodeDisplayKind::Hex, UnicodeDisplayKind::from("x"));
    assert_eq!(UnicodeDisplayKind::Highlight, UnicodeDisplayKind::from("highlight"));
    assert_eq!(UnicodeDisplayKind::Highlight, UnicodeDisplayKind::from("h"));
    assert_eq!(None, UnicodeDisplayKind::parse("show"));
    assert_eq!(None, UnicodeDisplayKind::parse(""));
    assert_eq!(None, UnicodeDisplayKind::parse("Escape"));
}

#[test]
fn encodings_have_a_letter() {
    assert_eq!(EncodingKind::Bit7, EncodingKind::from('s'));
    assert_eq!(EncodingKind::Bit8, EncodingKind::from('S'));
    assert_eq!(EncodingKind::BigEndian16, EncodingKind::from('b'));
    assert_eq!(EncodingKind::LittleEndian16, EncodingKind::from('l'));
    assert_eq!(EncodingKind::BigEndian32, EncodingKind::from('B'));
    assert_eq!(EncodingKind::LittleEndian32, EncodingKind::from('L'));
    assert_eq!(None, EncodingKind::parse('x'));
    assert_eq!(None, RadixKind::parse("h"));
    assert_eq!(None, RadixKind::parse("dx"));
}

#[test]
fn symbols_take_one_two_or_four_bytes() {
    assert_eq!(1, EncodingKind::Bit7.num_bytes());
    assert_eq!(1, EncodingKind::Bit8.num_bytes());
    assert_eq!(2, EncodingKind::BigEndian16.num_bytes());
    assert_eq!(2, EncodingKind::LittleEndian16.num_bytes());
    assert_eq!(4, EncodingKind::BigEndian32.num_bytes());
    assert_eq!(4, EncodingKind::LittleEndian32.num_bytes());
}

#[test]
fn scans_want_a_minimum_and_offsets_that_fit() {
    let mut options = Options::default();
    assert!(suits_slice(&options, 0, 10));
    assert!(suits_slice(&options, u64::MAX - 10, 10));
    assert!(!suits_slice(&options, u64::MAX - 9, 10));
    assert!(suits_stream(&options));
    options.min_length = 0;
    assert!(!suits_slice(&options, 0, 10));
    assert!(!suits_stream(&options));
    options.min_length = 1000;
    assert!(suits_stream(&options));
    options.unicode_display = UnicodeDisplayKind::Hex;
    assert!(!suits_stream(&options));
    assert!(suits_slice(&options, 0, 10));
    options.min_length = 128;
    assert!(suits_stream(&options));
    options.min_length = 129;
    assert!(!suits_stream(&options));
}
