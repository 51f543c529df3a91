use nakala::prim::skip::{Reader, Writer};
use nakala::prim::varint::{read_u64, write_u64};
use nakala::prim::{ReadCursor, WriteCursor};
use nakala::{ErrorKind, FormatContext, FormatError};

fn encode(n: u64) -> (Vec<u8>, usize) {
    let mut c = WriteCursor::new(vec![]);
    let count = write_u64(&mut c, n).unwrap();
    (c.into_inner(), count)
}

#[test]
fn varint_known_encodings() {
    assert_eq!(encode(0), (vec![0x00], 1));
    assert_eq!(encode(1), (vec![0x01], 1));
    assert_eq!(encode(127), (vec![0x7f], 1));
    assert_eq!(encode(128), (vec![0x80, 0x01], 2));
    assert_eq!(encode(300), (vec![0xac, 0x02], 2));
    assert_eq!(
        encode(u64::MAX),
        (vec![0xff, 0xff, 0xff, 0xff, 0xff, 0xff, 0xff, 0xff, 0xff, 0x01], 10)
    );
}

#[test]
fn varint_roundtrip_values() {
    for &n in &[0u64, 1, 127, 128, 255, 300, 16_383, 16_384, u32::MAX as u64, u64::MAX - 1, u64::MAX] {
        let (mut bytes, count) = encode(n);
        bytes.extend_from_slice(&[0xff, 0x00, 0x42]);
        assert_eq!(read_u64(&bytes).unwrap(), (n, count));
    }
}

#[test]
fn varint_read_errors() {
    assert_eq!(*read_u64(&[]).unwrap_err().kind(), ErrorKind::VarintEmpty);
    assert_eq!(*read_u64(&[0x80]).unwrap_err().kind(), ErrorKind::VarintUnexpectedEof);
    assert_eq!(*read_u64(&[0x80, 0x81]).unwrap_err().kind(), ErrorKind::VarintUnexpectedEof);
    let mut too_long = vec![0x80u8; 10];
    too_long.push(0x00);
    assert_eq!(*read_u64(&too_long).unwrap_err().kind(), ErrorKind::VarintTooManyContinuationBytes);
    let too_many = vec![0x80u8; 11];
    assert_eq!(*read_u64(&too_many).unwrap_err().kind(), ErrorKind::VarintTooManyBytes);
    assert_eq!(read_u64(&[0x96, 0x01]).unwrap(), (150, 2));
}

#[test]
fn varint_tenth_byte_drops_high_bits() {
    // The tenth byte starts at bit 63: only its lowest bit fits in a u64.
    let mut bytes = vec![0x80u8; 9];
    bytes.push(0x03);
    assert_eq!(read_u64(&bytes).unwrap(), (1u64 << 63, 10));
}

#[test]
fn write_cursor_basics() {
    let mut c = WriteCursor::new(vec![9, 9]);
    assert_eq!(c.pos(), 0);
    c.write_u32_le(0x0102_0304).unwrap();
    assert_eq!(c.pos(), 4);
    assert_eq!(c.get_ref(), &vec![9, 9, 4, 3, 2, 1]);
    c.write_u64_le(0x0102_0304_0506_0708).unwrap();
    assert_eq!(c.pos(), 12);
    c.write_usize_le(1).unwrap();
    assert_eq!(c.pos(), 20);
    c.get_mut().push(7);
    assert_eq!(c.pos(), 20);
    let bytes = c.get_ref().clone();
    assert_eq!(bytes.len(), 23);
    assert_eq!(&bytes[6..14], &[8, 7, 6, 5, 4, 3, 2, 1]);
    assert_eq!(&bytes[14..22], &[1, 0, 0, 0, 0, 0, 0, 0]);
    c.clear();
    assert_eq!(c.pos(), 0);
    assert_eq!(c.into_inner(), Vec::<u8>::new());
}

#[test]
fn write_cursor_varints_and_prefixed() {
    let mut c = WriteCursor::new(vec![]);
    c.write_varu64(300).unwrap();
    c.write_varusize(5).unwrap();
    c.write_prefixed_bytes(b"abc").unwrap();
    c.write_prefixed_str("héllo").unwrap();
    assert_eq!(c.pos(), 2 + 1 + 4 + 7);
    let bytes = c.into_inner();
    assert_eq!(bytes, vec![0xac, 0x02, 0x05, 0x03, b'a', b'b', b'c', 0x06, b'h', 0xc3, 0xa9, b'l', b'l', b'o']);

    let mut r = ReadCursor::new(&bytes);
    assert_eq!(r.read_varu64().unwrap(), 300);
    assert_eq!(r.read_varusize().unwrap(), 5);
    assert_eq!(r.read_prefixed_bytes().unwrap(), b"abc");
    assert_eq!(r.read_prefixed_str().unwrap(), "héllo");
    assert!(r.is_empty());
}

#[test]
fn read_cursor_positions() {
    let bytes = [1u8, 2, 3, 4, 5, 6, 7, 8, 9, 10];
    let mut c = ReadCursor::new(&bytes);
    assert_eq!(c.pos(), 0);
    assert_eq!(c.len(), 10);
    assert!(!c.is_empty());
    c.set_pos(3).unwrap();
    assert_eq!(c.as_slice(), &[4, 5, 6, 7, 8, 9, 10]);
    let e = c.set_pos(11).unwrap_err();
    assert_eq!(*e.kind(), ErrorKind::PositionOutOfBounds { pos: 11, len: 7 });
    assert_eq!(e.message(), "expected pos <= 7, but got 11");
    assert_eq!(c.pos(), 3);
    c.set_pos(10).unwrap();
    assert!(c.is_empty());
    c.set_pos_rev(4).unwrap();
    assert_eq!(c.pos(), 6);
    let e = c.set_pos_rev(11).unwrap_err();
    assert_eq!(*e.kind(), ErrorKind::ReversePositionOutOfBounds { rpos: 11, len: 10 });
    c.inc(2).unwrap();
    assert_eq!(c.pos(), 8);
    let e = c.inc(3).unwrap_err();
    assert_eq!(*e.kind(), ErrorKind::PositionOutOfBounds { pos: 11, len: 2 });
    let e = c.inc(usize::MAX).unwrap_err();
    assert_eq!(*e.kind(), ErrorKind::IncrementOverflow { amount: usize::MAX });
    assert_eq!(c.pos(), 8);
}

#[test]
fn read_cursor_zero_and_ranges() {
    let bytes = [1u8, 2, 3, 4, 5, 6, 7, 8, 9, 10];
    let mut c = ReadCursor::new(&bytes);
    c.set_pos(2).unwrap();
    let z = c.zero();
    assert_eq!(z.pos(), 0);
    assert_eq!(z.as_slice(), &[3, 4, 5, 6, 7, 8, 9, 10]);

    let r = c.range(1..4).unwrap();
    assert_eq!(r.pos(), 3);
    assert_eq!(r.as_slice(), &[4, 5, 6]);
    assert_eq!(c.pos(), 2);
    let e = c.range(3..9).unwrap_err();
    assert_eq!(*e.kind(), ErrorKind::InvalidCursorRange { start: 3, end: 9 });

    let r = c.read_range(0..3).unwrap();
    assert_eq!(r.as_slice(), &[3, 4, 5]);
    assert_eq!(c.pos(), 5);

    assert_eq!(c.read_slice(1..3).unwrap(), &[7, 8]);
    assert_eq!(c.pos(), 8);
    let e = c.read_slice(0..4).unwrap_err();
    assert_eq!(*e.kind(), ErrorKind::InvalidSliceRange { start: 0, end: 4 });
    assert_eq!(e.message(), "invalid slice range 0..4");
    assert_eq!(c.pos(), 8);

    c.set_pos(2).unwrap();
    let r = c.read_range(2..5).unwrap();
    assert_eq!(r.pos(), 4);
    assert_eq!(r.as_slice(), &[5, 6, 7]);
    assert_eq!(c.pos(), 7);
}

#[test]
fn read_cursor_integers() {
    let bytes = [0x01u8, 0x02, 0x03, 0x04, 0x05, 0x06, 0x07, 0x08, 0x09, 0x0a, 0x0b, 0x0c, 0x0d, 0x0e];
    let mut c = ReadCursor::new(&bytes);
    assert_eq!(c.read_u16_le().unwrap(), 0x0201);
    assert_eq!(c.read_u32_le().unwrap(), 0x0605_0403);
    assert_eq!(c.read_u64_le().unwrap(), 0x0e0d_0c0b_0a09_0807);
    assert_eq!(*c.read_u16_le().unwrap_err().kind(), ErrorKind::InvalidSliceRange { start: 0, end: 2 });

    let le = 42u64.to_le_bytes();
    let mut c = ReadCursor::new(&le);
    assert_eq!(c.read_usize_le().unwrap(), 42);
}

#[test]
fn read_prefixed_errors() {
    // A length of 5 with only 2 bytes after it.
    let bytes = [0x05u8, 1, 2];
    let mut c = ReadCursor::new(&bytes);
    let e = c.read_prefixed_bytes().unwrap_err();
    assert_eq!(*e.kind(), ErrorKind::InvalidSliceRange { start: 0, end: 5 });
    // The length prefix was consumed.
    assert_eq!(c.pos(), 1);

    let bytes = [0x02u8, 0xff, 0xfe];
    let mut c = ReadCursor::new(&bytes);
    let e = c.read_prefixed_str().unwrap_err();
    assert_eq!(*e.kind(), ErrorKind::InvalidUtf8);
    assert_eq!(e.message(), "invalid UTF-8 in fixed length string");
    assert_eq!(c.pos(), 3);

    let mut c = ReadCursor::new(&[]);
    assert_eq!(*c.read_varu64().unwrap_err().kind(), ErrorKind::VarintEmpty);
}

#[test]
fn read_fst_valid_and_invalid() {
    let set = fst::raw::Fst::from_iter_set(vec!["a", "bc", "d"]).unwrap().into_inner();
    let mut bytes = vec![0xaa, 0xbb];
    bytes.extend_from_slice(&set);
    let mut c = ReadCursor::new(&bytes);
    c.set_pos(2).unwrap();
    let f = c.read_fst().unwrap();
    assert_eq!(f.len(), 3);
    assert!(c.is_empty());

    let mut c = ReadCursor::new(&bytes);
    let e = match c.read_fst() {
        Ok(_) => panic!("bytes that are not an FST were accepted"),
        Err(e) => e,
    };
    assert_eq!(*e.kind(), ErrorKind::InvalidFst);
    assert_eq!(e.message(), "could not read FST");
    assert_eq!(c.pos(), 0);

    let short = [0u8; 10];
    let mut c = ReadCursor::new(&short);
    match c.read_fst() {
        Ok(_) => panic!("too few bytes for an FST were accepted"),
        Err(e) => assert_eq!(*e.kind(), ErrorKind::InvalidFst),
    }
}

#[test]
fn format_error_context_chain() {
    let e = FormatError::msg(ErrorKind::VarintEmpty, "inner".to_string());
    assert_eq!(e.message(), "inner");
    let e = e.context("outer".to_string());
    assert_eq!(e.message(), "outer");
    assert_eq!(*e.kind(), ErrorKind::VarintEmpty);
    let r: Result<u32, FormatError> = Err(e);
    let e = r.context("outermost".to_string()).unwrap_err();
    assert_eq!(e.message(), "outermost");
    let ok: Result<u32, FormatError> = Ok(5);
    assert_eq!(ok.context("unused".to_string()).unwrap(), 5);
}

#[test]
fn skip_list_after_other_bytes() {
    let mut wtr = Writer::with_skip_size(3);
    for i in 0..20u32 {
        wtr.add(i * 7 + 3, 1000 + i as usize);
    }
    let mut cursor = WriteCursor::new(vec![]);
    cursor.write_u64_le(0xdead_beef).unwrap();
    cursor.write_prefixed_str("prefix").unwrap();
    wtr.write(&mut cursor).unwrap();
    let bytes = cursor.into_inner();
    let rdr = Reader::new(ReadCursor::new(&bytes)).unwrap();
    assert_eq!(rdr.levels(), 2);
    assert_eq!(rdr.min(), 3);
    assert_eq!(rdr.max(), 136);
    // Last level entries are at indexes 0, 3, 6, ..., 18; the final one
    // counts as the maximum.
    assert_eq!(rdr.skip_to(0).unwrap(), Some(1000));
    assert_eq!(rdr.skip_to(3).unwrap(), Some(1000));
    assert_eq!(rdr.skip_to(4).unwrap(), Some(1003));
    assert_eq!(rdr.skip_to(24).unwrap(), Some(1003));
    assert_eq!(rdr.skip_to(25).unwrap(), Some(1006));
    assert_eq!(rdr.skip_to(130).unwrap(), Some(1018));
    assert_eq!(rdr.skip_to(136).unwrap(), Some(1018));
    assert_eq!(rdr.skip_to(137).unwrap(), None);
}

#[test]
fn skip_list_first_value_zero() {
    let mut wtr = Writer::with_skip_size(2);
    wtr.add(0, 0);
    wtr.add(5, 1);
    wtr.add(9, 2);
    let mut cursor = WriteCursor::new(vec![]);
    wtr.write(&mut cursor).unwrap();
    let bytes = cursor.into_inner();
    let rdr = Reader::new(ReadCursor::new(&bytes)).unwrap();
    // A first value of zero leaves the minimum to the next value.
    assert_eq!(rdr.min(), 5);
    assert_eq!(rdr.max(), 9);
    assert_eq!(rdr.skip_to(0).unwrap(), Some(0));
    assert_eq!(rdr.skip_to(1).unwrap(), Some(2));
}

fn le64(n: u64) -> [u8; 8] {
    n.to_le_bytes()
}

#[test]
fn skip_reader_header_errors() {
    let e = Reader::new(ReadCursor::new(&[0u8; 10])).unwrap_err();
    assert_eq!(*e.kind(), ErrorKind::ReversePositionOutOfBounds { rpos: 24, len: 10 });

    let mut bytes = vec![];
    bytes.extend_from_slice(&le64(100));
    bytes.extend_from_slice(&le64(1));
    bytes.extend_from_slice(&[0; 8]);
    let e = Reader::new(ReadCursor::new(&bytes)).unwrap_err();
    assert_eq!(*e.kind(), ErrorKind::PositionOutOfBounds { pos: 100, len: 0 });
    assert_eq!(e.message(), "invalid skip list start offset");
}

#[test]
fn skip_reader_detects_cycles_and_bad_siblings() {
    // One level with a single entry whose sibling offset is 0, while the
    // maximum claims more values: walking the level would never end.
    let mut bytes = vec![];
    bytes.extend_from_slice(&5u32.to_le_bytes());
    bytes.extend_from_slice(&le64(7));
    bytes.extend_from_slice(&le64(0));
    bytes.extend_from_slice(&le64(0));
    bytes.extend_from_slice(&le64(1));
    bytes.extend_from_slice(&0u32.to_le_bytes());
    bytes.extend_from_slice(&100u32.to_le_bytes());
    let rdr = Reader::new(ReadCursor::new(&bytes)).unwrap();
    assert_eq!(rdr.skip_to(3).unwrap(), Some(7));
    assert_eq!(*rdr.skip_to(50).unwrap_err().kind(), ErrorKind::SkipListCycle);

    // A sibling offset that points forwards.
    let mut bytes = vec![];
    bytes.extend_from_slice(&5u32.to_le_bytes());
    bytes.extend_from_slice(&le64(7));
    bytes.extend_from_slice(&le64(30));
    bytes.extend_from_slice(&le64(0));
    bytes.extend_from_slice(&le64(1));
    bytes.extend_from_slice(&0u32.to_le_bytes());
    bytes.extend_from_slice(&100u32.to_le_bytes());
    let rdr = Reader::new(ReadCursor::new(&bytes)).unwrap();
    assert_eq!(
        *rdr.skip_to(50).unwrap_err().kind(),
        ErrorKind::InvalidSiblingOffset { offset: 30, pos: 20 }
    );
}

#[test]
fn writer_clone_keeps_values() {
    let mut wtr = Writer::with_skip_size(2);
    wtr.add(10, 0);
    wtr.add(20, 1);
    let mut copy = wtr.clone();
    let mut a = WriteCursor::new(vec![]);
    let mut b = WriteCursor::new(vec![]);
    wtr.write(&mut a).unwrap();
    copy.write(&mut b).unwrap();
    assert_eq!(a.into_inner(), b.into_inner());
}

#[test]
fn empty_skip_list_with_skip_size_one() {
    let mut wtr = Writer::with_skip_size(1);
    let mut cursor = WriteCursor::new(vec![]);
    wtr.write(&mut cursor).unwrap();
    let bytes = cursor.into_inner();
    assert_eq!(bytes.len(), 24);
    let rdr = Reader::new(ReadCursor::new(&bytes)).unwrap();
    assert_eq!(rdr.levels(), 0);
    assert_eq!(rdr.skip_to(0).unwrap(), None);
}

#[test]
fn skip_list_layout_of_one_level() {
    let mut wtr = Writer::with_skip_size(2);
    wtr.add(10, 100);
    wtr.add(20, 200);
    let mut cursor = WriteCursor::new(vec![]);
    wtr.write(&mut cursor).unwrap();
    let bytes = cursor.into_inner();
    // One entry at the last level (value = maximum, offset, no sibling),
    // then the start, the number of levels, the minimum and the maximum.
    let mut expected = vec![];
    expected.extend_from_slice(&20u32.to_le_bytes());
    expected.extend_from_slice(&100u64.to_le_bytes());
    expected.extend_from_slice(&0u64.to_le_bytes());
    expected.extend_from_slice(&0u64.to_le_bytes());
    expected.extend_from_slice(&1u64.to_le_bytes());
    expected.extend_from_slice(&10u32.to_le_bytes());
    expected.extend_from_slice(&20u32.to_le_bytes());
    assert_eq!(bytes, expected);
}

#[test]
fn little_endian_roundtrip() {
    let mut w = WriteCursor::new(vec![]);
    w.write_varu64(99).unwrap();
    w.write_u32_le(0xdead_beef).unwrap();
    w.write_u64_le(u64::MAX - 5).unwrap();
    w.write_usize_le(123_456_789).unwrap();
    let bytes = w.into_inner();
    let mut r = ReadCursor::new(&bytes);
    assert_eq!(r.read_varu64().unwrap(), 99);
    assert_eq!(r.read_u32_le().unwrap(), 0xdead_beef);
    assert_eq!(r.read_u64_le().unwrap(), u64::MAX - 5);
    assert_eq!(r.read_usize_le().unwrap(), 123_456_789);
    assert!(r.is_empty());
}

#[test]
fn format_error_wrap_and_err() {
    let inner = FormatError::msg(ErrorKind::InvalidUtf8, "bad bytes".to_string());
    let outer = FormatError::msg(ErrorKind::InvalidFst, "first".to_string());
    let wrapped = outer.wrap(inner);
    assert_eq!(*wrapped.kind(), ErrorKind::InvalidUtf8);
    assert_eq!(wrapped.message(), "bad bytes");
    let copied = FormatError::err(wrapped);
    assert_eq!(*copied.kind(), ErrorKind::InvalidUtf8);
    assert_eq!(copied.message(), "bad bytes");
}

fn fst_bytes(version: u64, total: usize) -> Vec<u8> {
    let mut bytes = vec![0u8; total];
    bytes[..8].copy_from_slice(&version.to_le_bytes());
    bytes
}

#[test]
fn read_fst_header_rules() {
    // The smallest transducer of the third version: no keys, a root
    // address of zero, and a checksum.
    let bytes = fst_bytes(3, 36);
    let mut c = ReadCursor::new(&bytes);
    let f = c.read_fst().unwrap();
    assert_eq!(f.len(), 0);
    assert_eq!(c.pos(), 36);

    // A root address of zero is refused at any other size.
    let bytes = fst_bytes(3, 40);
    let mut c = ReadCursor::new(&bytes);
    let e = match c.read_fst() {
        Ok(_) => panic!("a root address of zero was accepted"),
        Err(e) => e,
    };
    assert_eq!(*e.kind(), ErrorKind::InvalidFst);
    assert_eq!(c.pos(), 0);

    // So are versions that fst does not read.
    for version in [0u64, 4] {
        let bytes = fst_bytes(version, 36);
        let mut c = ReadCursor::new(&bytes);
        match c.read_fst() {
            Ok(_) => panic!("an unknown version was accepted"),
            Err(e) => assert_eq!(*e.kind(), ErrorKind::InvalidFst),
        }
    }
}

#[test]
fn error_messages_of_reads() {
    let mut c = ReadCursor::new(&[1u8, 2]);
    let e = c.read_u32_le().unwrap_err();
    assert_eq!(e.message(), "invalid slice range 0..4");
    let e = c.inc(5).unwrap_err();
    assert_eq!(e.message(), "expected pos <= 2, but got 5");
    let e = c.set_pos_rev(3).unwrap_err();
    assert_eq!(e.message(), "expected rpos <= 2, but got 3");
    let e = c.range(1..0).unwrap_err();
    assert_eq!(e.message(), "invalid cursor range 1..0");
    let e = read_u64(&[]).unwrap_err();
    assert_eq!(e.message(), "no bytes to read varu64");
    let e = read_u64(&[0x80]).unwrap_err();
    assert_eq!(e.message(), "unexpected EOF when reading varu64");
}

#[test]
fn skip_to_error_messages() {
    // The entry starts at the minimum of the trailer, and its offset is
    // cut off by the end of the bytes.
    let mut bytes = vec![];
    bytes.extend_from_slice(&le64(20));
    bytes.extend_from_slice(&le64(1));
    bytes.extend_from_slice(&0u32.to_le_bytes());
    bytes.extend_from_slice(&100u32.to_le_bytes());
    let rdr = Reader::new(ReadCursor::new(&bytes)).unwrap();
    let e = rdr.skip_to(3).unwrap_err();
    assert_eq!(e.message(), "failed to read last level skip offset");

    // A start position at the trailer: the target value is read from it.
    let mut bytes = vec![];
    bytes.extend_from_slice(&le64(22));
    bytes.extend_from_slice(&le64(1));
    bytes.extend_from_slice(&0u32.to_le_bytes());
    bytes.extend_from_slice(&100u32.to_le_bytes());
    let rdr = Reader::new(ReadCursor::new(&bytes)).unwrap();
    let e = rdr.skip_to(3).unwrap_err();
    assert_eq!(*e.kind(), ErrorKind::InvalidSliceRange { start: 0, end: 4 });
    assert_eq!(e.message(), "failed to read skip target value");

    // Two readers over the same bytes fail alike.
    let other = Reader::new(ReadCursor::new(&bytes)).unwrap();
    let e2 = other.skip_to(3).unwrap_err();
    assert_eq!(*e2.kind(), *e.kind());
    assert_eq!(e2.message(), e.message());
}

fn serialize_with(mut w: Writer) -> Vec<u8> {
    let mut c = WriteCursor::new(vec![]);
    w.write(&mut c).unwrap();
    c.into_inner()
}

#[test]
fn levels_count_powers_of_the_skip_size() {
    for (n, expected) in [(0u32, 0usize), (1, 0), (2, 1), (3, 1), (4, 2), (5, 2), (8, 3)] {
        let mut w = Writer::with_skip_size(2);
        for i in 0..n {
            w.add(i + 1, i as usize);
        }
        let bytes = serialize_with(w);
        let rdr = Reader::new(ReadCursor::new(&bytes)).unwrap();
        assert_eq!(rdr.levels(), expected);
    }
}

#[test]
fn default_skip_size_is_four() {
    let mut a = Writer::new();
    let mut b = Writer::with_skip_size(4);
    for i in 0..100u32 {
        a.add((i + 1) * 10, i as usize);
        b.add((i + 1) * 10, i as usize);
    }
    let x = serialize_with(a);
    let y = serialize_with(b);
    assert_eq!(x, y);
    // 12 bytes per entry above the last level, 20 on it, and the trailer.
    assert_eq!(x.len(), 632);
    let rdr = Reader::new(ReadCursor::new(&x)).unwrap();
    assert_eq!(rdr.levels(), 3);
}

#[test]
fn trailer_after_a_prefix() {
    let mut w = Writer::with_skip_size(3);
    for i in 0..10u32 {
        w.add(2 * i + 7, 100 + i as usize);
    }
    let mut c = WriteCursor::new(vec![]);
    c.write_all(&[9, 9, 9]).unwrap();
    w.write(&mut c).unwrap();
    let bytes = c.into_inner();
    let n = bytes.len();
    assert_eq!(&bytes[..3], &[9, 9, 9]);
    let start = u64::from_le_bytes(bytes[n - 24..n - 16].try_into().unwrap()) as usize;
    assert!(3 <= start && start < n - 24);
    assert_eq!(u64::from_le_bytes(bytes[n - 16..n - 8].try_into().unwrap()), 2);
    assert_eq!(u32::from_le_bytes(bytes[n - 8..n - 4].try_into().unwrap()), 7);
    assert_eq!(u32::from_le_bytes(bytes[n - 4..].try_into().unwrap()), 25);

    // After clear, the writer starts afresh with the same skip size.
    w.add(1, 1);
    w.clear();
    w.add(5, 6);
    let mut fresh = Writer::with_skip_size(3);
    fresh.add(5, 6);
    assert_eq!(serialize_with(w), serialize_with(fresh));
}
