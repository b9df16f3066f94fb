use strings::options::{EncodingKind, Options, RadixKind, UnicodeDisplayKind};
use strings::scan::{colours, highlights, print_strings, render_next_string, render_strings};
use strings::scanner::find_matching_ascii_sequence;
use strings::source::{ByteArrayHolder, DataSource};
use strings::stream::ReaderWithSeek;
use strings::unicode::find_matching_unicode_sequence;

fn scan_slice(bytes: &[u8], options: &Options) -> Vec<u8> {
    let mut source = ByteArrayHolder::new(bytes);
    let mut output = Vec::new();
    print_strings("input", 0, &mut source, options, &mut output);
    output
}

fn scan_stream(bytes: &[u8], options: &Options) -> Vec<u8> {
    let mut source = ReaderWithSeek::new(ByteArrayHolder::new(bytes));
    let mut output = Vec::new();
    print_strings("input", 0, &mut source, options, &mut output);
    output
}

fn both(bytes: &[u8], options: &Options) -> Vec<u8> {
    let from_slice = scan_slice(bytes, options);
    assert_eq!(from_slice, scan_stream(bytes, options));
    from_slice
}

fn unicode(display: UnicodeDisplayKind) -> Options {
    let mut options = Options::default();
    options.unicode_display = display;
    options.encoding = EncodingKind::Bit8;
    options
}

#[test]
fn short_run_is_not_written() {
    assert_eq!(b"cdefgh\n".to_vec(), both(b"ab\x00cdefgh\x00", &Options::default()));
}

#[test]
fn run_of_exactly_the_minimum_at_the_end_is_written() {
    let mut options = Options::default();
    options.encoding = EncodingKind::Bit8;
    assert_eq!(b"abcd\n".to_vec(), both(b"\x01abcd", &options));
    assert_eq!(b"".to_vec(), both(b"\x01abc", &options));
}

#[test]
fn empty_input_writes_nothing() {
    assert_eq!(b"".to_vec(), both(b"", &Options::default()));
    assert_eq!(b"".to_vec(), both(b"", &unicode(UnicodeDisplayKind::Escape)));
}

#[test]
fn every_run_gets_its_record() {
    assert_eq!(
        b"first\nsecond\nthird\n".to_vec(),
        both(b"first\x00\x01second\x02no\x03third", &Options::default())
    );
}

#[test]
fn offsets_are_those_of_the_first_byte() {
    let mut options = Options::default();
    options.print_addresses = true;
    options.address_radix = RadixKind::Dec;
    assert_eq!(
        b"      0 first\n      7 second\n     17 third\n".to_vec(),
        both(b"first\x00\x01second\x02no\x03third", &options)
    );
}

#[test]
fn offsets_start_at_the_base_address() {
    let mut options = Options::default();
    options.print_addresses = true;
    options.address_radix = RadixKind::Hex;
    options.print_filenames = true;
    let mut source = ByteArrayHolder::new(b"\x00\x00abcd\x00efgh");
    let mut output = Vec::new();
    print_strings("sec", 0x4000, &mut source, &options, &mut output);
    assert_eq!(b"sec:    4002 abcd\nsec:    4007 efgh\n".to_vec(), output);
}

#[test]
fn separator_replaces_the_line_feed() {
    let mut options = Options::default();
    options.output_separator = Some("\n\n".to_string());
    assert_eq!(b"abcd\n\nefgh\n\n".to_vec(), both(b"abcd\x00efgh", &options));
    options.output_separator = Some("".to_string());
    assert_eq!(b"abcdefgh".to_vec(), both(b"abcd\x00efgh", &options));
}

#[test]
fn minimum_length_is_respected() {
    let mut options = Options::default();
    options.min_length = 8;
    assert_eq!(b"abcdefgh\n".to_vec(), both(b"abcdefg\x00abcdefgh\x00", &options));
    options.min_length = 1;
    assert_eq!(b"a\nb\n".to_vec(), both(b"a\x00b", &options));
}

#[test]
fn seven_bit_scan_stops_at_high_bytes() {
    assert_eq!(b"abcd\nefgh\n".to_vec(), both(b"abcd\xe9efgh", &Options::default()));
    let mut options = Options::default();
    options.encoding = EncodingKind::Bit8;
    assert_eq!(b"abcd\xe9efgh\n".to_vec(), both(b"abcd\xe9efgh", &options));
}

#[test]
fn whitespace_counts_where_asked_for() {
    assert_eq!(b"ab\tcd\n".to_vec(), both(b"ab\tcd\nef", &Options::default()));
    let mut options = Options::default();
    options.include_all_whitespace = true;
    assert_eq!(b"ab\tcd\nef\x0b\x0c\r\n".to_vec(), both(b"ab\tcd\nef\x0b\x0c\r\x00", &options));
}

#[test]
fn sixteen_bit_symbols_are_read_in_both_orders() {
    let mut options = Options::default();
    options.encoding = EncodingKind::LittleEndian16;
    assert_eq!(b"abcd\n".to_vec(), both(b"a\x00b\x00c\x00d\x00\x00\x00", &options));
    assert_eq!(b"".to_vec(), both(b"\x00a\x00b\x00c\x00d", &options));
    options.encoding = EncodingKind::BigEndian16;
    assert_eq!(b"abcd\n".to_vec(), both(b"\x00a\x00b\x00c\x00d\x01\x00", &options));
}

#[test]
fn thirty_two_bit_symbols_are_read_in_both_orders() {
    let mut options = Options::default();
    options.min_length = 2;
    options.encoding = EncodingKind::BigEndian32;
    assert_eq!(b"ab\n".to_vec(), both(b"\x00\x00\x00a\x00\x00\x00b", &options));
    options.encoding = EncodingKind::LittleEndian32;
    assert_eq!(b"ab\n".to_vec(), both(b"a\x00\x00\x00b\x00\x00\x00", &options));
}

#[test]
fn search_slides_by_one_byte_behind_a_failing_symbol() {
    let mut options = Options::default();
    options.encoding = EncodingKind::BigEndian16;
    options.min_length = 2;
    options.print_addresses = true;
    options.address_radix = RadixKind::Dec;
    // The symbol at 0 fails; the search goes on at 1, where two symbols stand.
    assert_eq!(b"      1 ab\n".to_vec(), both(b"\x01\x00a\x00b\x01\x01", &options));
}

#[test]
fn wide_run_reports_its_first_byte_and_resumes_behind_its_last() {
    let mut options = Options::default();
    options.encoding = EncodingKind::BigEndian16;
    options.min_length = 2;
    options.print_addresses = true;
    options.address_radix = RadixKind::Dec;
    assert_eq!(
        b"      2 abc\n     10 de\n".to_vec(),
        both(b"\x01\x01\x00a\x00b\x00c\x01\x01\x00d\x00e", &options)
    );
}

#[test]
fn partial_symbol_at_the_end_is_read_with_what_is_left() {
    let mut options = Options::default();
    options.encoding = EncodingKind::BigEndian16;
    options.min_length = 2;
    assert_eq!(b"abc\n".to_vec(), both(b"\x00a\x00bc", &options));
}

#[test]
fn escape_renders_two_byte_character() {
    assert_eq!(
        b"ab\\u00a2cd\n".to_vec(),
        both(b"ab\xc2\xa2cd\x00", &unicode(UnicodeDisplayKind::Escape))
    );
}

#[test]
fn hex_renders_four_byte_character() {
    assert_eq!(
        b"abc<0xf0908d88>\n".to_vec(),
        both(b"abc\xf0\x90\x8d\x88", &unicode(UnicodeDisplayKind::Hex))
    );
}

#[test]
fn multi_byte_character_counts_as_one_unit() {
    let options = unicode(UnicodeDisplayKind::Escape);
    assert_eq!(b"".to_vec(), both(b"a\xc2\xa2b\x00", &options));
    assert_eq!(b"a\\u00a2bc\n".to_vec(), both(b"a\xc2\xa2bc\x00", &options));
    assert_eq!(
        b"\\u00a2\\u00a2\\u00a2\\u00a2\n".to_vec(),
        both(b"\xc2\xa2\xc2\xa2\xc2\xa2\xc2\xa2", &options)
    );
}

#[test]
fn failed_candidate_is_passed_by_one_byte() {
    let options = unicode(UnicodeDisplayKind::Escape);
    // 0xe0 leads no character here; the run hides in what would be its window.
    assert_eq!(b"abcd\n".to_vec(), both(b"\xe0abcd", &options));
    assert_eq!(b"abcd\nefgh\n".to_vec(), both(b"abcd\xf0\x90efgh", &options));
    assert_eq!(b"abcd\nefgh\n".to_vec(), both(b"abcd\xf0efgh", &options));
    // The candidate at 3 fails and is not counted: three units are too few.
    assert_eq!(b"defg\n".to_vec(), both(b"abc\xc2defg", &options));
}

#[test]
fn invalid_display_counts_characters_as_gaps() {
    let mut options = unicode(UnicodeDisplayKind::Invalid);
    options.print_addresses = true;
    options.address_radix = RadixKind::Dec;
    assert_eq!(
        b"      0 abcd\n      6 efgh\n".to_vec(),
        both(b"abcd\xc2\xa2efgh", &options)
    );
}

#[test]
fn show_renders_the_window() {
    assert_eq!(
        b"abc[194, 162, 100, 0]d\n".to_vec(),
        both(b"abc\xc2\xa2d\x00", &unicode(UnicodeDisplayKind::Show))
    );
}

#[test]
fn character_offsets_count_bytes() {
    let mut options = unicode(UnicodeDisplayKind::Hex);
    options.print_addresses = true;
    options.address_radix = RadixKind::Dec;
    options.min_length = 2;
    assert_eq!(
        b"      1 <0xc2a2>a\n      6 b<0xe0a4b9>\n".to_vec(),
        both(b"\x00\xc2\xa2a\x00\x00b\xe0\xa4\xb9", &options)
    );
}

#[test]
fn character_scan_wants_the_eight_bit_encoding() {
    let mut options = unicode(UnicodeDisplayKind::Escape);
    options.encoding = EncodingKind::Bit7;
    assert_eq!(b"".to_vec(), both(b"abcdefgh", &options));
}

#[test]
fn highlight_is_plain_without_a_terminal() {
    let options = unicode(UnicodeDisplayKind::Highlight);
    let mut source = ByteArrayHolder::new(b"abc\xc2\xa2");
    let mut output = Vec::new();
    render_strings("input", 0, &mut source, &options, false, &mut output);
    assert_eq!(b"abc\\u00a2\n".to_vec(), output);

    let mut source = ByteArrayHolder::new(b"abc\xc2\xa2");
    let mut output = Vec::new();
    render_strings("input", 0, &mut source, &options, true, &mut output);
    assert_eq!(b"abc\x1b[31;47m\\u00a2\x1b[0m\n".to_vec(), output);
}

#[test]
fn scanning_twice_gives_the_same_output() {
    let bytes = b"\x7fELF\x02\x01\x01\x00/lib64/ld-linux-x86-64.so.2\x00\x00ABI\x00\xc2\xa2abc";
    for options in [Options::default(), unicode(UnicodeDisplayKind::Escape), unicode(UnicodeDisplayKind::Hex)] {
        let first = scan_slice(bytes, &options);
        let second = scan_slice(bytes, &options);
        assert_eq!(first, second);
        assert_eq!(first, scan_stream(bytes, &options));
    }
    assert_eq!(
        b"/lib64/ld-linux-x86-64.so.2\n".to_vec(),
        scan_slice(bytes, &Options::default())
    );
}

#[test]
fn steps_report_where_the_scan_resumes() {
    let options = Options::default();
    let mut source = ByteArrayHolder::new(b"\x00abcde\x00\x00fghi");
    let mut output = Vec::new();
    let next = render_next_string("input", 100, &mut source, &options, false, &mut output);
    assert_eq!(Some(106), next);
    assert_eq!(6, source.position);
    assert_eq!(b"abcde\n".to_vec(), output);
    let next = render_next_string("input", 106, &mut source, &options, false, &mut output);
    assert_eq!(Some(112), next);
    assert_eq!(b"abcde\nfghi\n".to_vec(), output);
    let next = render_next_string("input", 112, &mut source, &options, false, &mut output);
    assert_eq!(None, next);
    assert_eq!(b"abcde\nfghi\n".to_vec(), output);
}

#[test]
fn symbol_search_reports_start_and_end_of_the_probe() {
    let options = Options::default();
    let mut source = ByteArrayHolder::new(b"ab\x00cdefgh\x00");
    let mut buffer = Vec::new();
    let found = find_matching_ascii_sequence(10, &mut source, &mut buffer, &options);
    assert_eq!(Some((13, 17)), found);
    assert_eq!(b"cdef".to_vec(), buffer);
    assert_eq!(7, source.position);
    let found = find_matching_ascii_sequence(17, &mut source, &mut buffer, &options);
    assert_eq!(None, found);
}

#[test]
fn character_search_rewinds_to_the_start_of_the_run() {
    let options = unicode(UnicodeDisplayKind::Escape);
    let mut source = ByteArrayHolder::new(b"\x00\x01a\xc2\xa2b\xf0\x90\x8d\x88");
    assert_eq!(Some(2), find_matching_unicode_sequence(&mut source, &options));
    assert_eq!(2, source.position);

    let mut source = ByteArrayHolder::new(b"ab\xc2\xa2");
    assert_eq!(None, find_matching_unicode_sequence(&mut source, &options));
}

#[test]
fn character_search_rewinds_over_long_runs() {
    let mut options = unicode(UnicodeDisplayKind::Escape);
    options.min_length = 300;
    let mut bytes = vec![0u8; 3];
    bytes.extend(std::iter::repeat(b'x').take(400));
    let mut source = ByteArrayHolder::new(&bytes);
    assert_eq!(Some(3), find_matching_unicode_sequence(&mut source, &options));
    assert_eq!(3, source.position);
}

#[test]
fn stream_lets_go_of_old_bytes_and_still_steps_back() {
    let mut bytes = Vec::new();
    for round in 0..3000u32 {
        bytes.push(b'a' + (round % 26) as u8);
        if round % 50 == 49 {
            bytes.push(0);
        }
    }
    let mut options = Options::default();
    options.min_length = 20;
    assert_eq!(scan_slice(&bytes, &options), scan_stream(&bytes, &options));
    let mut options = unicode(UnicodeDisplayKind::Escape);
    options.min_length = 128;
    let mut long = Vec::new();
    for _ in 0..20 {
        long.extend(std::iter::repeat(b'y').take(127));
        long.push(1);
        long.extend("¢".repeat(130).as_bytes());
        long.push(2);
    }
    assert_eq!(scan_slice(&long, &options), scan_stream(&long, &options));
}

#[test]
fn rereading_after_stepping_back_gives_the_same_symbols() {
    let bytes = [0x12u8, 0x23, 0x34, 0x45, 0x56, 0x67, 0x78, 0x89, 0xFF, 0xAA];
    for encoding in [EncodingKind::Bit8, EncodingKind::BigEndian16, EncodingKind::LittleEndian16, EncodingKind::BigEndian32, EncodingKind::LittleEndian32] {
        let mut source = ReaderWithSeek::new(ByteArrayHolder::new(&bytes));
        let mut first = Vec::new();
        let mut taken = 0u8;
        for _ in 0..2 {
            let (value, read) = source.read_symbol(&encoding).unwrap();
            first.push((value, read));
            taken += read;
        }
        source.seek_back(taken);
        let mut second = Vec::new();
        for _ in 0..2 {
            second.push(source.read_symbol(&encoding).unwrap());
        }
        assert_eq!(first, second);
    }
}

#[test]
fn little_endian_symbols_have_their_bytes_exchanged() {
    let bytes = [0x12u8, 0x34, 0x56, 0x78, 0x9a];
    let mut source = ByteArrayHolder::new(&bytes);
    assert_eq!(Some((0x3412, 2)), source.read_symbol(&EncodingKind::LittleEndian16));
    source.seek_back(2);
    assert_eq!(Some((0x78563412, 4)), source.read_symbol(&EncodingKind::LittleEndian32));
    assert_eq!(Some((0x9a000000, 1)), source.read_symbol(&EncodingKind::LittleEndian32));
    assert_eq!(None, source.read_symbol(&EncodingKind::LittleEndian32));
}

#[test]
fn only_highlight_is_ever_coloured() {
    assert!(!highlights(&Options::default()));
    assert!(!highlights(&unicode(UnicodeDisplayKind::Escape)));
    assert!(!highlights(&unicode(UnicodeDisplayKind::Hex)));
}

#[test]
fn colour_wants_highlight_and_a_terminal() {
    assert!(colours(&unicode(UnicodeDisplayKind::Highlight), true));
    assert!(!colours(&unicode(UnicodeDisplayKind::Highlight), false));
    assert!(!colours(&unicode(UnicodeDisplayKind::Escape), true));
    assert!(!colours(&Options::default(), true));
    assert!(!colours(&Options::default(), false));
}
