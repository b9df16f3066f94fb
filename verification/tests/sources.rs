use strings::options::EncodingKind;
use strings::source::{ByteArrayHolder, DataSource};
use strings::stream::ReaderWithSeek;

#[test]
fn test_data_source_backed_by_array() {
    let buffer = [0x12u8, 0x23, 0x34, 0x45, 0x56, 0x67, 0x78, 0x89, 0xFF, 0xAA];

    let mut source = ByteArrayHolder {
        inner: &buffer,
        position: 0,
    };

    assert_eq!(0x12, source.read_byte().unwrap());

    let (char, read) = source.read_symbol(&EncodingKind::Bit7).unwrap();
    assert_eq!(0x23, char);
    assert_eq!(1, read);

    let (char, read) = source.read_symbol(&EncodingKind::BigEndian32).unwrap();
    assert_eq!(0x34 << 24 | 0x45 << 16 | 0x56 << 8 | 0x67, char);
    assert_eq!(4, read);

    source.seek_back(3);

    let (char, read) = source.read_symbol(&EncodingKind::BigEndian16).unwrap();
    assert_eq!(0x45 << 8 | 0x56, char);
    assert_eq!(2, read);

    let (char, read) = source.read_symbol(&EncodingKind::BigEndian32).unwrap();
    assert_eq!(0x67 << 24 | 0x78 << 16 | 0x89 << 8 | 0xFF, char);
    assert_eq!(4, read);

    let (char, read) = source.read_symbol(&EncodingKind::BigEndian32).unwrap();
    assert_eq!(0xAA, char);
    assert_eq!(1, read);

    assert_eq!(None, source.read_byte());
}

#[test]
fn test_data_source_backed_by_reader_with_seek() {
    let buffer = [0x12u8, 0x23, 0x34, 0x45, 0x56, 0x67, 0x78, 0x89, 0xFF, 0xAA];

    let mut source = ReaderWithSeek::new(ByteArrayHolder::new(&buffer));

    assert_eq!(0x12, source.read_byte().unwrap());

    let (char, read) = source.read_symbol(&EncodingKind::Bit7).unwrap();
    assert_eq!(0x23, char);
    assert_eq!(1, read);

    let (char, read) = source.read_symbol(&EncodingKind::BigEndian32).unwrap();
    assert_eq!(0x34 << 24 | 0x45 << 16 | 0x56 << 8 | 0x67, char);
    assert_eq!(4, read);

    source.seek_back(3);

    let (char, read) = source.read_symbol(&EncodingKind::BigEndian16).unwrap();
    assert_eq!(0x45 << 8 | 0x56, char);
    assert_eq!(2, read);

    let (char, read) = source.read_symbol(&EncodingKind::BigEndian32).unwrap();
    assert_eq!(0x67 << 24 | 0x78 << 16 | 0x89 << 8 | 0xFF, char);
    assert_eq!(4, read);

    let (char, read) = source.read_symbol(&EncodingKind::BigEndian32).unwrap();
    assert_eq!(0xAA, char);
    assert_eq!(1, read);

    assert_eq!(None, source.read_byte());
}

#[test]
fn test_data_source_backed_by_reader_with_seek_unicode() {
    let buffer = [0x12u8, 0x23, 0x34, 0x45, 0x56, 0x67, 0x78, 0x89, 0xFF, 0xAA];

    let mut source = ReaderWithSeek::new(ByteArrayHolder::new(&buffer));

    assert_eq!(0x12, source.read_byte().unwrap());

    let vec = source.read_unicode().unwrap();

    assert_eq!(4, vec.len());
    assert_eq!(0x23, vec[0]);
    assert_eq!(0x34, vec[1]);
    assert_eq!(0x45, vec[2]);
    assert_eq!(0x56, vec[3]);

    source.seek_back(3);

    let vec = source.read_unicode().unwrap();

    assert_eq!(4, vec.len());
    assert_eq!(0x34, vec[0]);
    assert_eq!(0x45, vec[1]);
    assert_eq!(0x56, vec[2]);
    assert_eq!(0x67, vec[3]);

    source.seek_back(5);

    let vec = source.read_unicode().unwrap();

    assert_eq!(4, vec.len());
    assert_eq!(0x23, vec[0]);
    assert_eq!(0x34, vec[1]);
    assert_eq!(0x45, vec[2]);
    assert_eq!(0x56, vec[3]);

    let vec = source.read_unicode().unwrap();

    assert_eq!(4, vec.len());
    assert_eq!(0x67, vec[0]);
    assert_eq!(0x78, vec[1]);
    assert_eq!(0x89, vec[2]);
    assert_eq!(0xFF, vec[3]);

    let vec = source.read_unicode().unwrap();

    assert_eq!(1, vec.len());
    assert_eq!(0xAA, vec[0]);
}

#[test]
fn test_data_source_backed_by_array_unicode() {
    let buffer = [0x12u8, 0x23, 0x34, 0x45, 0x56, 0x67, 0x78, 0x89, 0xFF, 0xAA];

    let mut source = ByteArrayHolder {
        inner: &buffer,
        position: 0,
    };

    assert_eq!(0x12, source.read_byte().unwrap());

    let vec = source.read_unicode().unwrap();

    assert_eq!(4, vec.len());
    assert_eq!(0x23, vec[0]);
    assert_eq!(0x34, vec[1]);
    assert_eq!(0x45, vec[2]);
    assert_eq!(0x56, vec[3]);

    source.seek_back(3);

    let vec = source.read_unicode().unwrap();

    assert_eq!(4, vec.len());
    assert_eq!(0x34, vec[0]);
    assert_eq!(0x45, vec[1]);
    assert_eq!(0x56, vec[2]);
    assert_eq!(0x67, vec[3]);

    source.seek_back(5);

    let vec = source.read_unicode().unwrap();

    assert_eq!(4, vec.len());
    assert_eq!(0x23, vec[0]);
    assert_eq!(0x34, vec[1]);
    assert_eq!(0x45, vec[2]);
    assert_eq!(0x56, vec[3]);

    let vec = source.read_unicode().unwrap();

    assert_eq!(4, vec.len());
    assert_eq!(0x67, vec[0]);
    assert_eq!(0x78, vec[1]);
    assert_eq!(0x89, vec[2]);
    assert_eq!(0xFF, vec[3]);

    let vec = source.read_unicode().unwrap();

    assert_eq!(1, vec.len());
    assert_eq!(0xAA, vec[0]);
}

#[test]
fn reader_takes_in_what_the_stream_gave() {
    let nothing: [u8; 0] = [];
    let mut source = ReaderWithSeek::new(ByteArrayHolder::new(&nothing));
    for byte in [0x12u8, 0x23, 0x34, 0x45, 0x56, 0x67, 0x78, 0x89, 0xFF, 0xAA] {
        assert_eq!(Some(byte), source.accept(Some(byte)));
    }
    assert_eq!(None, source.accept(None));
    assert_eq!(None, source.read_byte());

    source.seek_back(10);
    assert_eq!(Some(0x12), source.read_byte());
    assert_eq!(Some((0x23, 1)), source.read_symbol(&EncodingKind::Bit7));
    assert_eq!(Some((0x34455667, 4)), source.read_symbol(&EncodingKind::BigEndian32));
    source.seek_back(3);
    assert_eq!(Some((0x4556, 2)), source.read_symbol(&EncodingKind::BigEndian16));
    assert_eq!(Some((0x677889FF, 4)), source.read_symbol(&EncodingKind::BigEndian32));
    source.seek_back(5);
    assert_eq!(Some(vec![0x56, 0x67, 0x78, 0x89]), source.read_unicode());
    assert_eq!(Some(vec![0xFF, 0xAA]), source.read_unicode());
    assert_eq!(None, source.read_unicode());
}

#[test]
fn reader_reads_the_bytes_of_its_stream_in_their_order() {
    let bytes: Vec<u8> = (0..3000u32).map(|i| (i * 7 % 251) as u8).collect();
    let mut source = ReaderWithSeek::new(ByteArrayHolder::new(&bytes));
    let mut read = Vec::new();
    let mut round = 0;
    while let Some(window) = source.read_unicode() {
        let whole = window.len() == 4;
        read.extend(window);
        round += 1;
        if whole && round % 3 == 0 {
            source.seek_back(2);
            read.truncate(read.len() - 2);
        }
    }
    assert_eq!(bytes, read);
}
