use gba_inflate::util::BitIter;
use gba_inflate::video::bititer::BitIter as WordBitIter;

#[test]
fn next_is_lsb_first() {
    let data = [0b1010_0010u8];
    let mut bits = BitIter::new(&data);
    let got: Vec<bool> = (0..8).map(|_| bits.next().unwrap()).collect();
    assert_eq!(
        got,
        vec![false, true, false, false, false, true, false, true]
    );
    assert_eq!(bits.next(), None);
}

#[test]
fn take_chunks_match_whole() {
    // take(3) then take(5) carries the same information as one take(8),
    // for every byte value.
    for b in 0u8..=255 {
        let data = [b];
        let mut bits = BitIter::new(&data);
        let low = bits.take_into_u8(3).unwrap();
        let high = bits.take_into_u8(5).unwrap();
        let data2 = [b];
        let mut bits2 = BitIter::new(&data2);
        let whole = bits2.take_into_u8(8).unwrap();
        assert_eq!(low as u16 + 8 * high as u16, whole as u16);
        assert_eq!(whole, b);
    }
}

#[test]
fn take_packs_little_endian_across_bytes() {
    let data = [0x34u8, 0x12u8];
    let mut bits = BitIter::new(&data);
    assert_eq!(bits.take_into_u16(16).unwrap(), 0x1234);

    let data2 = [0xcdu8, 0xabu8];
    let mut bits2 = BitIter::new(&data2);
    assert_eq!(bits2.take_into_usize(16).unwrap(), 0xabcd);
}

#[test]
fn short_read_reports_available_bits() {
    let data = [0xffu8];
    let mut bits = BitIter::new(&data);
    assert_eq!(bits.take_into_u16(12), Err(8));

    let mut empty = BitIter::new(&[]);
    assert_eq!(empty.take_into_u8(1), Err(0));
}

#[test]
fn skip_to_byte_start_discards_partial_byte() {
    let data = [0xffu8, 0x5au8];
    let mut bits = BitIter::new(&data);
    bits.take_into_u8(3).unwrap();
    bits.skip_to_byte_start();
    assert_eq!(bits.take_into_u8(8).unwrap(), 0x5a);

    // Already aligned: nothing is lost.
    let data2 = [0x77u8];
    let mut bits2 = BitIter::new(&data2);
    bits2.skip_to_byte_start();
    assert_eq!(bits2.take_into_u8(8).unwrap(), 0x77);
}

#[test]
fn word_reader_matches_byte_reader() {
    // The high-throughput variant reads 32-bit words little-endian and
    // must hand out the very same bit stream as the generic one.
    let words = [0x1234_5678u32, 0x9abc_def0u32];
    let bytes = [0x78u8, 0x56, 0x34, 0x12, 0xf0, 0xde, 0xbc, 0x9a];
    let mut wb = WordBitIter::new(&words);
    let mut bb = BitIter::new(&bytes);
    for _ in 0..64 {
        assert_eq!(wb.next(), bb.next().unwrap());
    }
}

#[test]
fn word_reader_take_and_align() {
    let words = [0xdead_beefu32];
    let mut wb = WordBitIter::new(&words);
    assert_eq!(wb.take_into_u16(16), 0xbeef);
    wb.take_into_u8(3);
    wb.skip_to_byte_start();
    assert_eq!(wb.take_into_u8(8), 0xde);
}
