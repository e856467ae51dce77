use labs::records::dump_decodable;
use labs::records::{decode_block, decode_dump, reversed, CData, ValueStructT};

/// A block in reading order: its fields are taken from its end, least
/// significant byte first.
fn block(fields: &[u32], size: usize) -> Vec<u8> {
    let mut b = vec![0u8; size];
    let mut end = size;
    for f in fields {
        b[end - 1] = (f & 0xff) as u8;
        b[end - 2] = ((f >> 8) & 0xff) as u8;
        b[end - 3] = ((f >> 16) & 0xff) as u8;
        end -= 3;
    }
    b
}

fn dump(blocks: &[Vec<u8>]) -> Vec<u8> {
    let mut all: Vec<u8> = blocks.concat();
    all.reverse();
    all
}

#[test]
fn decode_value_block() {
    let b = block(&[0, 5, 0x00c0_0000, 1_000_000], 12);
    assert_eq!(
        decode_block(b),
        CData::ValueStruct(ValueStructT { t: 5, val_bits: 0x00c0_0000, timestamp: 1_000_000 })
    );
}

#[test]
fn decode_other_kinds() {
    assert_eq!(decode_block(block(&[1], 12)), CData::MValueStruct);
    assert_eq!(decode_block(block(&[2], 3)), CData::MessageStruct);
    assert_eq!(decode_block(block(&[0x01_0203], 3)), CData::Unknown(0x01_0203));
}

#[test]
fn only_three_bytes_make_a_field() {
    // The fourth byte of each little-endian field is never read.
    let b = vec![0xff, 0x07, 0x00, 0x00];
    assert_eq!(decode_block(b), CData::Unknown(0x07_0000));
}

#[test]
fn reversed_reverses() {
    assert_eq!(reversed(&vec![1, 2, 3]), vec![3, 2, 1]);
    assert_eq!(reversed(&vec![]), Vec::<u8>::new());
}

#[test]
fn decode_a_dump_of_blocks() {
    let raw = dump(&[block(&[0, 1, 2, 3], 16), block(&[2], 16), block(&[9], 16)]);
    let records = decode_dump(&raw, 3, 16);
    assert_eq!(
        records,
        vec![
            CData::ValueStruct(ValueStructT { t: 1, val_bits: 2, timestamp: 3 }),
            CData::MessageStruct,
            CData::Unknown(9),
        ]
    );
    assert_eq!(decode_dump(&raw, 1, 16).len(), 1);
    assert_eq!(decode_dump(&raw, 0, 16), vec![]);
}

#[test]
fn dumps_that_can_be_decoded() {
    let raw = dump(&[block(&[0, 1, 2, 3], 12), block(&[1], 12)]);
    assert!(dump_decodable(&raw, 2, 12));
    assert!(!dump_decodable(&raw, 3, 12));
    assert!(dump_decodable(&raw, 0, 100));
    let short = dump(&[block(&[0], 6)]);
    assert!(!dump_decodable(&short, 1, 6));
    assert!(dump_decodable(&dump(&[block(&[2], 6)]), 1, 6));
    assert!(!dump_decodable(&raw, 1, 2));
    assert!(!dump_decodable(&raw, usize::MAX, 2));
}
