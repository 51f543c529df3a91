use nakala::prim::skip::{Reader, Writer};
use nakala::prim::{ReadCursor, WriteCursor};

fn serialize(wtr: &mut Writer) -> Vec<u8> {
    let mut cursor = WriteCursor::new(vec![]);
    wtr.write(&mut cursor).unwrap();
    cursor.into_inner()
}

fn deserialize(bytes: &[u8]) -> Reader<'_> {
    Reader::new(ReadCursor::new(bytes)).unwrap()
}

fn skip_to(rdr: &Reader<'_>, value: u32) -> Option<usize> {
    rdr.skip_to(value).unwrap()
}

#[test]
fn basic() {
    let mut wtr = Writer::new();
    for i in 0..100 {
        wtr.add((i + 1) * 10, i as usize);
    }
    let bytes = serialize(&mut wtr);
    let rdr = deserialize(&bytes);

    assert_eq!(rdr.levels(), 3);
    assert_eq!(rdr.min(), 10);
    assert_eq!(rdr.max(), 1000);

    assert_eq!(skip_to(&rdr, 0), Some(0));
    assert_eq!(skip_to(&rdr, 1), Some(0));
    assert_eq!(skip_to(&rdr, 2), Some(0));
    assert_eq!(skip_to(&rdr, 10), Some(0));
    assert_eq!(skip_to(&rdr, 11), Some(4));
    assert_eq!(skip_to(&rdr, 19), Some(4));
    assert_eq!(skip_to(&rdr, 20), Some(4));
    assert_eq!(skip_to(&rdr, 21), Some(4));
    assert_eq!(skip_to(&rdr, 50), Some(4));
    assert_eq!(skip_to(&rdr, 51), Some(8));
    assert_eq!(skip_to(&rdr, 90), Some(8));
    assert_eq!(skip_to(&rdr, 91), Some(12));
    assert_eq!(skip_to(&rdr, 130), Some(12));
    assert_eq!(skip_to(&rdr, 131), Some(16));
    assert_eq!(skip_to(&rdr, 610), Some(60));
    assert_eq!(skip_to(&rdr, 611), Some(64));
    assert_eq!(skip_to(&rdr, 930), Some(92));
    assert_eq!(skip_to(&rdr, 931), Some(96));
    assert_eq!(skip_to(&rdr, 970), Some(96));
    assert_eq!(skip_to(&rdr, 971), Some(96));
    assert_eq!(skip_to(&rdr, 1000), Some(96));
    assert_eq!(skip_to(&rdr, 1001), None);
}

#[test]
fn empty() {
    let mut wtr = Writer::with_skip_size(2);
    let bytes = serialize(&mut wtr);
    let rdr = deserialize(&bytes);

    assert_eq!(rdr.levels(), 0);
    assert_eq!(rdr.min(), 0);
    assert_eq!(rdr.max(), 0);

    assert_eq!(skip_to(&rdr, 0), None);
    assert_eq!(skip_to(&rdr, 1), None);
}

#[test]
fn no_levels_non_empty() {
    let mut wtr = Writer::with_skip_size(2);
    wtr.add(10, 0);
    let bytes = serialize(&mut wtr);
    let rdr = deserialize(&bytes);

    assert_eq!(rdr.levels(), 0);
    assert_eq!(rdr.min(), 10);
    assert_eq!(rdr.max(), 10);

    assert_eq!(skip_to(&rdr, 0), None);
    assert_eq!(skip_to(&rdr, 1), None);
}

#[test]
fn one_level1() {
    let mut wtr = Writer::with_skip_size(2);
    wtr.add(10, 0);
    wtr.add(20, 1);
    let bytes = serialize(&mut wtr);
    let rdr = deserialize(&bytes);

    assert_eq!(rdr.levels(), 1);
    assert_eq!(rdr.min(), 10);
    assert_eq!(rdr.max(), 20);

    assert_eq!(skip_to(&rdr, 0), Some(0));
    assert_eq!(skip_to(&rdr, 10), Some(0));
    assert_eq!(skip_to(&rdr, 11), Some(0));
    assert_eq!(skip_to(&rdr, 20), Some(0));
    assert_eq!(skip_to(&rdr, 21), None);
}

#[test]
fn one_level2() {
    let mut wtr = Writer::with_skip_size(2);
    wtr.add(10, 0);
    wtr.add(20, 1);
    wtr.add(30, 2);
    let bytes = serialize(&mut wtr);
    let rdr = deserialize(&bytes);

    assert_eq!(rdr.levels(), 1);
    assert_eq!(rdr.min(), 10);
    assert_eq!(rdr.max(), 30);

    assert_eq!(skip_to(&rdr, 0), Some(0));
    assert_eq!(skip_to(&rdr, 10), Some(0));
    assert_eq!(skip_to(&rdr, 11), Some(2));
    assert_eq!(skip_to(&rdr, 20), Some(2));
    assert_eq!(skip_to(&rdr, 21), Some(2));
    assert_eq!(skip_to(&rdr, 30), Some(2));
    assert_eq!(skip_to(&rdr, 31), None);
}

#[test]
fn two_level1() {
    let mut wtr = Writer::with_skip_size(2);
    wtr.add(10, 0);
    wtr.add(20, 1);
    wtr.add(30, 2);
    wtr.add(40, 3);
    let bytes = serialize(&mut wtr);
    let rdr = deserialize(&bytes);

    assert_eq!(rdr.levels(), 2);
    assert_eq!(rdr.min(), 10);
    assert_eq!(rdr.max(), 40);

    assert_eq!(skip_to(&rdr, 0), Some(0));
    assert_eq!(skip_to(&rdr, 10), Some(0));
    assert_eq!(skip_to(&rdr, 11), Some(2));
    assert_eq!(skip_to(&rdr, 20), Some(2));
    assert_eq!(skip_to(&rdr, 21), Some(2));
    assert_eq!(skip_to(&rdr, 30), Some(2));
    assert_eq!(skip_to(&rdr, 31), Some(2));
    assert_eq!(skip_to(&rdr, 40), Some(2));
    assert_eq!(skip_to(&rdr, 41), None);
}

#[test]
fn two_level2() {
    let mut wtr = Writer::with_skip_size(2);
    wtr.add(10, 0);
    wtr.add(20, 1);
    wtr.add(30, 2);
    wtr.add(40, 3);
    wtr.add(50, 4);
    let bytes = serialize(&mut wtr);
    let rdr = deserialize(&bytes);

    assert_eq!(rdr.levels(), 2);
    assert_eq!(rdr.min(), 10);
    assert_eq!(rdr.max(), 50);

    assert_eq!(skip_to(&rdr, 0), Some(0));
    assert_eq!(skip_to(&rdr, 10), Some(0));
    assert_eq!(skip_to(&rdr, 11), Some(2));
    assert_eq!(skip_to(&rdr, 20), Some(2));
    assert_eq!(skip_to(&rdr, 21), Some(2));
    assert_eq!(skip_to(&rdr, 30), Some(2));
    assert_eq!(skip_to(&rdr, 31), Some(4));
    assert_eq!(skip_to(&rdr, 40), Some(4));
    assert_eq!(skip_to(&rdr, 41), Some(4));
    assert_eq!(skip_to(&rdr, 50), Some(4));
    assert_eq!(skip_to(&rdr, 51), None);
}

#[test]
fn repeated() {
    let mut wtr = Writer::with_skip_size(2);
    wtr.add(10, 0);
    wtr.add(20, 1);
    let bytes = serialize(&mut wtr);
    let rdr = deserialize(&bytes);

    assert_eq!(rdr.levels(), 1);
    assert_eq!(rdr.min(), 10);
    assert_eq!(rdr.max(), 20);

    assert_eq!(skip_to(&rdr, 0), Some(0));
    assert_eq!(skip_to(&rdr, 10), Some(0));
    assert_eq!(skip_to(&rdr, 11), Some(0));
    assert_eq!(skip_to(&rdr, 20), Some(0));
    assert_eq!(skip_to(&rdr, 21), None);

    // The call to write above should have reset the writer. So just repeat
    // the same as above.
    wtr.add(10, 0);
    wtr.add(20, 1);
    let bytes = serialize(&mut wtr);
    let rdr = deserialize(&bytes);

    assert_eq!(rdr.levels(), 1);
    assert_eq!(rdr.min(), 10);
    assert_eq!(rdr.max(), 20);

    assert_eq!(skip_to(&rdr, 0), Some(0));
    assert_eq!(skip_to(&rdr, 10), Some(0));
    assert_eq!(skip_to(&rdr, 11), Some(0));
    assert_eq!(skip_to(&rdr, 20), Some(0));
    assert_eq!(skip_to(&rdr, 21), None);
}
