use gba_inflate::util::BitIter;
use gba_inflate::video::HuffmanTreeEntry;

#[test]
fn four_symbol_alphabet_decodes_balanced() {
    // Lengths [2,2,2,2] build a balanced two-level tree; the bit sequences
    // 00 01 10 11 decode to the symbols 0, 1, 2, 3 in order.
    let tree = HuffmanTreeEntry::from_code_lengths(&[2, 2, 2, 2]);
    let data = [0b1101_1000u8];
    let mut bits = BitIter::new(&data);
    assert_eq!(tree.decode_from_bits(&mut bits), 0);
    assert_eq!(tree.decode_from_bits(&mut bits), 1);
    assert_eq!(tree.decode_from_bits(&mut bits), 2);
    assert_eq!(tree.decode_from_bits(&mut bits), 3);
}

#[test]
fn decode_consumes_exactly_the_code_length() {
    // Lengths [1,2,3,3]: canonical codes 0, 10, 110, 111. After decoding
    // symbol 3 from its three-bit code, the stream continues precisely at
    // the next code: symbol 0's single bit.
    let tree = HuffmanTreeEntry::from_code_lengths(&[1, 2, 3, 3]);
    // Stream: 111 (symbol 3), 0 (symbol 0), 10 (symbol 1), 110 (symbol 2).
    // LSB-first packing of 1,1,1,0,1,0,1,1 then 0 gives 0xd7, 0x00.
    let data = [0b1101_0111u8, 0b0000_0000u8];
    let mut bits = BitIter::new(&data);
    assert_eq!(tree.decode_from_bits(&mut bits), 3);
    assert_eq!(tree.decode_from_bits(&mut bits), 0);
    assert_eq!(tree.decode_from_bits(&mut bits), 1);
    assert_eq!(tree.decode_from_bits(&mut bits), 2);
}

#[test]
fn unused_lengths_are_skipped() {
    // A zero length leaves a symbol out of the tree entirely.
    let tree = HuffmanTreeEntry::from_code_lengths(&[0, 1, 0, 1]);
    // Codes: symbol 1 -> 0, symbol 3 -> 1.
    let data = [0b0000_0010u8];
    let mut bits = BitIter::new(&data);
    assert_eq!(tree.decode_from_bits(&mut bits), 1);
    assert_eq!(tree.decode_from_bits(&mut bits), 3);
    assert_eq!(tree.decode_from_bits(&mut bits), 1);
}

#[test]
fn replace_entry_plants_a_leaf() {
    let mut tree = HuffmanTreeEntry::from_code_lengths(&[1, 1]);
    // Overwrite the right child (code 1, one bit) with symbol 9.
    tree.replace_entry(1, 1, 9);
    let data = [0b0000_0001u8];
    let mut bits = BitIter::new(&data);
    assert_eq!(tree.decode_from_bits(&mut bits), 9);
}

#[test]
fn next_bit_walks_children() {
    let tree = HuffmanTreeEntry::from_code_lengths(&[1, 1]);
    match tree.next_bit(false) {
        HuffmanTreeEntry::Leaf(v) => assert_eq!(*v, 0u16),
        _ => panic!("left child should be a leaf"),
    }
    match tree.next_bit(true) {
        HuffmanTreeEntry::Leaf(v) => assert_eq!(*v, 1u16),
        _ => panic!("right child should be a leaf"),
    }
}
