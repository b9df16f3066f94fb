use strings::object_file::{
    is_data_section, print_strings_for_object_file, print_strings_for_object_section,
    print_strings_for_sections, SectionClass, SectionFlagBits, SectionInfo,
};
use strings::options::{Options, RadixKind};

struct Part {
    name: &'static [u8],
    kind: u32,
    flags: u64,
    address: u64,
    contents: &'static [u8],
}

fn put(image: &mut Vec<u8>, value: u64, width: usize) {
    image.extend_from_slice(&value.to_le_bytes()[..width]);
}

/// A little-endian ELF image of 64 bits with the given sections behind the
/// empty first one, and a table of their names at the end.
fn elf(parts: &[Part]) -> Vec<u8> {
    let mut names = vec![0u8];
    let mut name_offsets = Vec::new();
    for part in parts {
        name_offsets.push(names.len() as u64);
        names.extend_from_slice(part.name);
        names.push(0);
    }
    let table_name = names.len() as u64;
    names.extend_from_slice(b".shstrtab\0");

    let mut body = Vec::new();
    let mut offsets = Vec::new();
    for part in parts {
        offsets.push(64 + body.len() as u64);
        body.extend_from_slice(part.contents);
    }
    let names_offset = 64 + body.len() as u64;
    body.extend_from_slice(&names);
    while body.len() % 8 != 0 {
        body.push(0);
    }
    let headers_offset = 64 + body.len() as u64;
    let count = parts.len() as u64 + 2;

    let mut image = vec![0x7f, b'E', b'L', b'F', 2, 1, 1, 0, 0, 0, 0, 0, 0, 0, 0, 0];
    put(&mut image, 1, 2);
    put(&mut image, 0x3e, 2);
    put(&mut image, 1, 4);
    put(&mut image, 0, 8);
    put(&mut image, 0, 8);
    put(&mut image, headers_offset, 8);
    put(&mut image, 0, 4);
    put(&mut image, 64, 2);
    put(&mut image, 0, 2);
    put(&mut image, 0, 2);
    put(&mut image, 64, 2);
    put(&mut image, count, 2);
    put(&mut image, count - 1, 2);
    image.extend_from_slice(&body);

    image.extend_from_slice(&[0u8; 64]);
    for (index, part) in parts.iter().enumerate() {
        put(&mut image, name_offsets[index], 4);
        put(&mut image, part.kind as u64, 4);
        put(&mut image, part.flags, 8);
        put(&mut image, part.address, 8);
        put(&mut image, offsets[index], 8);
        put(&mut image, part.contents.len() as u64, 8);
        put(&mut image, 0, 4);
        put(&mut image, 0, 4);
        put(&mut image, 1, 8);
        put(&mut image, 0, 8);
    }
    put(&mut image, table_name, 4);
    put(&mut image, 3, 4);
    put(&mut image, 0, 8);
    put(&mut image, 0, 8);
    put(&mut image, names_offset, 8);
    put(&mut image, names.len() as u64, 8);
    put(&mut image, 0, 4);
    put(&mut image, 0, 4);
    put(&mut image, 1, 8);
    put(&mut image, 0, 8);
    image
}

fn sample() -> Vec<u8> {
    elf(&[
        Part {
            name: b".text",
            kind: 1,
            flags: 6,
            address: 0x1000,
            contents: b"\x55\x48\x89\xe5text-string\xc3",
        },
        Part {
            name: b".rodata",
            kind: 1,
            flags: 2,
            address: 0x2000,
            contents: b"hello world\0abc\0goodbye",
        },
        Part {
            name: b".data",
            kind: 1,
            flags: 3,
            address: 0x3000,
            contents: b"writable data",
        },
        Part {
            name: b".dynstr",
            kind: 3,
            flags: 2,
            address: 0x4000,
            contents: b"\0libc.so.6\0printf\0",
        },
        Part {
            name: b".empty",
            kind: 1,
            flags: 2,
            address: 0x5000,
            contents: b"",
        },
    ])
}

#[test]
fn data_sections_of_an_object_file_are_scanned() {
    let mut out = Vec::new();
    let got = print_strings_for_object_file("a.o", &sample(), &Options::default(), false, &mut out);
    assert!(got);
    assert_eq!(
        "text-string\nhello world\ngoodbye\nlibc.so.6\nprintf\n",
        String::from_utf8(out).unwrap()
    );
}

#[test]
fn offsets_in_sections_start_at_their_address() {
    let mut options = Options::default();
    options.print_addresses = true;
    options.address_radix = RadixKind::Hex;
    options.print_filenames = true;
    let mut out = Vec::new();
    assert!(print_strings_for_object_file("a.o", &sample(), &options, false, &mut out));
    assert_eq!(
        "a.o:    1004 text-string\na.o:    2000 hello world\na.o:    2010 goodbye\n\
         a.o:    4001 libc.so.6\na.o:    400b printf\n",
        String::from_utf8(out).unwrap()
    );
}

#[test]
fn object_file_without_data_sections_gives_nothing() {
    let image = elf(&[Part {
        name: b".data",
        kind: 1,
        flags: 3,
        address: 0x3000,
        contents: b"writable data",
    }]);
    let mut out = Vec::new();
    assert!(!print_strings_for_object_file("a.o", &image, &Options::default(), false, &mut out));
    assert!(out.is_empty());
}

#[test]
fn other_files_are_said_to_be_no_object() {
    let mut out = Vec::new();
    let got = print_strings_for_object_file(
        "notes.txt",
        b"just some text, long enough",
        &Options::default(),
        false,
        &mut out,
    );
    assert!(!got);
    assert_eq!("File is not an object\n", String::from_utf8(out).unwrap());

    let mut out = Vec::new();
    assert!(!print_strings_for_object_file("empty", b"", &Options::default(), false, &mut out));
    assert_eq!("File is not an object\n", String::from_utf8(out).unwrap());
}

fn section(flags: SectionFlagBits, kind: SectionClass, size: u64, data: Option<&[u8]>) -> SectionInfo {
    SectionInfo { flags, kind, size, address: 0x100, data: data.map(|bytes| bytes.to_vec()) }
}

#[test]
fn data_sections_have_flags_and_a_fitting_kind() {
    assert!(is_data_section(&section(SectionFlagBits::Elf(2), SectionClass::ReadOnlyData, 4, None)));
    assert!(is_data_section(&section(SectionFlagBits::MachO(1), SectionClass::Text, 4, None)));
    assert!(is_data_section(&section(SectionFlagBits::Coff(0x40), SectionClass::Metadata, 0, None)));
    assert!(!is_data_section(&section(SectionFlagBits::Elf(2), SectionClass::Other, 4, None)));
    assert!(!is_data_section(&section(SectionFlagBits::Elf(0), SectionClass::Text, 4, None)));
    assert!(!is_data_section(&section(SectionFlagBits::MachO(0), SectionClass::Text, 4, None)));
    assert!(!is_data_section(&section(SectionFlagBits::Coff(0), SectionClass::Text, 4, None)));
    assert!(!is_data_section(&section(SectionFlagBits::Absent, SectionClass::Text, 4, None)));
    assert!(is_data_section(&section(
        SectionFlagBits::Elf(1 << 40),
        SectionClass::Text,
        4,
        None
    )));
}

#[test]
fn section_is_scanned_from_its_address() {
    let mut options = Options::default();
    options.print_addresses = true;
    options.address_radix = RadixKind::Dec;
    let mut out = Vec::new();
    let found = section(SectionFlagBits::Elf(2), SectionClass::ReadOnlyData, 9, Some(b"\0\0strings"));
    assert!(print_strings_for_object_section("x", &found, &options, false, &mut out));
    assert_eq!("    258 strings\n", String::from_utf8(out).unwrap());
}

#[test]
fn sections_that_are_empty_or_without_contents_are_passed_over() {
    let options = Options::default();
    let mut out = Vec::new();
    let empty = section(SectionFlagBits::Elf(2), SectionClass::ReadOnlyData, 0, Some(b"strings"));
    assert!(!print_strings_for_object_section("x", &empty, &options, false, &mut out));
    let missing = section(SectionFlagBits::Elf(2), SectionClass::ReadOnlyData, 7, None);
    assert!(!print_strings_for_object_section("x", &missing, &options, false, &mut out));
    let other = section(SectionFlagBits::Elf(2), SectionClass::Other, 7, Some(b"strings"));
    assert!(!print_strings_for_object_section("x", &other, &options, false, &mut out));
    assert!(out.is_empty());
}

#[test]
fn sections_are_scanned_in_their_order() {
    let sections = vec![
        section(SectionFlagBits::Elf(2), SectionClass::Other, 7, Some(b"skipped")),
        section(SectionFlagBits::Elf(2), SectionClass::Text, 5, Some(b"first")),
        section(SectionFlagBits::Elf(2), SectionClass::Metadata, 6, Some(b"second")),
    ];
    let mut out = Vec::new();
    assert!(print_strings_for_sections("x", &sections, &Options::default(), false, &mut out));
    assert_eq!("first\nsecond\n", String::from_utf8(out).unwrap());
    let mut out = Vec::new();
    let only_other =
        vec![section(SectionFlagBits::Elf(2), SectionClass::Other, 7, Some(b"skipped"))];
    assert!(!print_strings_for_sections("x", &only_other, &Options::default(), false, &mut out));
    assert!(out.is_empty());
}

#[test]
fn sections_whose_offsets_do_not_fit_are_passed_over() {
    let mut far = section(SectionFlagBits::Elf(2), SectionClass::Text, 5, Some(b"first"));
    far.address = u64::MAX - 3;
    let mut out = Vec::new();
    assert!(!print_strings_for_sections("x", &vec![far], &Options::default(), false, &mut out));
    assert!(out.is_empty());
}
