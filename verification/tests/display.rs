use strings::display::{display_utf8_char, print_filename_and_address, render_utf8_char};
use strings::options::{Options, RadixKind, UnicodeDisplayKind};

#[test]
fn test_display_utf8_char_escape_2bytes() {
    let mut output = Vec::new();
    display_utf8_char("¢".as_bytes(), UnicodeDisplayKind::Escape, &mut output);

    assert_eq!("\\u00a2", String::from_utf8(output).expect("Not valid UTF8"))
}

#[test]
fn test_display_utf8_char_escape_3bytes() {
    let mut output = Vec::new();
    display_utf8_char("ह".as_bytes(), UnicodeDisplayKind::Escape, &mut output);

    assert_eq!("\\u0939", String::from_utf8(output).expect("Not valid UTF8"))
}

#[test]
fn test_display_utf8_char_escape_4bytes() {
    let mut output = Vec::new();
    display_utf8_char("𐍈".as_bytes(), UnicodeDisplayKind::Escape, &mut output);

    assert_eq!("\\u040348", String::from_utf8(output).expect("Not valid UTF8"))
}

#[test]
fn test_display_utf8_char_hex() {
    let mut output = Vec::new();
    display_utf8_char("𐍈".as_bytes(), UnicodeDisplayKind::Hex, &mut output);

    assert_eq!("<0xf0908d88>", String::from_utf8(output).expect("Not valid UTF8"))
}

#[test]
fn test_display_utf8_char_show() {
    let mut output = Vec::new();
    display_utf8_char("𐍈".as_bytes(), UnicodeDisplayKind::Show, &mut output);

    assert_eq!("[240, 144, 141, 136]", String::from_utf8(output).expect("Not valid UTF8"))
}

#[test]
fn display_returns_the_length_of_the_character() {
    let mut output = Vec::new();
    assert_eq!(2, render_utf8_char(&[0xc2, 0xa2, 0x41, 0x42], UnicodeDisplayKind::Hex, false, &mut output));
    assert_eq!(b"<0xc2a2>".to_vec(), output);
    output.clear();
    assert_eq!(3, render_utf8_char("ह".as_bytes(), UnicodeDisplayKind::Hex, false, &mut output));
    assert_eq!(b"<0xe0a4b9>".to_vec(), output);
    output.clear();
    assert_eq!(4, render_utf8_char("𐍈".as_bytes(), UnicodeDisplayKind::Invalid, false, &mut output));
    assert!(output.is_empty());
    assert_eq!(2, render_utf8_char("¢".as_bytes(), UnicodeDisplayKind::Default, true, &mut output));
    assert!(output.is_empty());
}

#[test]
fn show_lists_the_whole_window() {
    let mut output = Vec::new();
    assert_eq!(2, render_utf8_char(&[0xc2, 0xa2, 0x41, 0x07], UnicodeDisplayKind::Show, false, &mut output));
    assert_eq!(b"[194, 162, 65, 7]".to_vec(), output);
}

#[test]
fn highlight_colours_only_on_a_terminal() {
    let mut plain = Vec::new();
    render_utf8_char("¢".as_bytes(), UnicodeDisplayKind::Highlight, false, &mut plain);
    assert_eq!(b"\\u00a2".to_vec(), plain);

    let mut coloured = Vec::new();
    render_utf8_char("¢".as_bytes(), UnicodeDisplayKind::Highlight, true, &mut coloured);
    assert_eq!(b"\x1b[31;47m\\u00a2\x1b[0m".to_vec(), coloured);

    let mut escaped = Vec::new();
    render_utf8_char("¢".as_bytes(), UnicodeDisplayKind::Escape, true, &mut escaped);
    assert_eq!(b"\\u00a2".to_vec(), escaped);
}

#[test]
fn display_appends_to_what_is_there() {
    let mut output = b"ab".to_vec();
    display_utf8_char("¢".as_bytes(), UnicodeDisplayKind::Hex, &mut output);
    assert_eq!(b"ab<0xc2a2>".to_vec(), output);
}

fn prefix(name: &str, address: u64, names: bool, radix: Option<RadixKind>) -> String {
    let mut options = Options::default();
    options.print_filenames = names;
    if let Some(radix) = radix {
        options.print_addresses = true;
        options.address_radix = radix;
    }
    let mut output = Vec::new();
    print_filename_and_address(name, address, &options, &mut output);
    String::from_utf8(output).unwrap()
}

#[test]
fn prefix_is_empty_by_default() {
    assert_eq!("", prefix("a.out", 1234, false, None));
}

#[test]
fn prefix_names_the_input() {
    assert_eq!("a.out: ", prefix("a.out", 1234, true, None));
    assert_eq!("dé: ", prefix("dé", 0, true, None));
}

#[test]
fn prefix_pads_the_offset_to_seven_characters() {
    assert_eq!("      0 ", prefix("x", 0, false, Some(RadixKind::Hex)));
    assert_eq!("   4d2f ", prefix("x", 0x4d2f, false, Some(RadixKind::Hex)));
    assert_eq!("   1234 ", prefix("x", 1234, false, Some(RadixKind::Dec)));
    assert_eq!("     17 ", prefix("x", 0o17, false, Some(RadixKind::Oct)));
    assert_eq!("      8 ", prefix("x", 8, false, Some(RadixKind::Dec)));
    assert_eq!("     10 ", prefix("x", 8, false, Some(RadixKind::Oct)));
    assert_eq!("      a ", prefix("x", 10, false, Some(RadixKind::Hex)));
}

#[test]
fn prefix_does_not_cut_long_offsets() {
    assert_eq!("1234567 ", prefix("x", 1234567, false, Some(RadixKind::Dec)));
    assert_eq!("12345678 ", prefix("x", 12345678, false, Some(RadixKind::Dec)));
    assert_eq!("ffffffffffffffff ", prefix("x", u64::MAX, false, Some(RadixKind::Hex)));
    assert_eq!(
        "1777777777777777777777 ",
        prefix("x", u64::MAX, false, Some(RadixKind::Oct))
    );
    assert_eq!("18446744073709551615 ", prefix("x", u64::MAX, false, Some(RadixKind::Dec)));
}

#[test]
fn prefix_has_name_before_offset() {
    assert_eq!("a.out:      1f ", prefix("a.out", 0x1f, true, Some(RadixKind::Hex)));
}
