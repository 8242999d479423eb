use gba_inflate::video::{display_bitmap_file, lz77_copy, BlockDecodeState, HuffmanTreeEntry};
use gba_inflate::util::BitIter;
use gba_inflate::RomFile;
use std::io::Write;

/// Build a one-file directory image holding `content` under the name "f".
fn image_with(content: &[u8]) -> Vec<u8> {
    let mut img = vec![1u8, b'f', 0, 0];
    img.extend_from_slice(&(content.len() as u32).to_le_bytes());
    img.extend_from_slice(content);
    while img.len() % 4 != 0 {
        img.push(0);
    }
    img.push(0); // terminating entry
    img
}

fn decode(stream: &[u8]) -> Vec<u8> {
    let img = image_with(stream);
    let file = RomFile::raw_open(&img, b"f").unwrap();
    let state = display_bitmap_file(file);
    state.output_bytes()
}

#[test]
fn stored_block_passes_through() {
    // One final stored block of length 8: the bytes come out unchanged.
    let stream = [
        0x01, 0x08, 0x00, 0xf7, 0xff, 0x41, 0x42, 0x41, 0x42, 0x41, 0x42, 0x41, 0x42,
    ];
    assert_eq!(
        decode(&stream),
        vec![0x41, 0x42, 0x41, 0x42, 0x41, 0x42, 0x41, 0x42]
    );
}

#[test]
fn stored_block_empty_payload() {
    let stream = [0x01, 0x00, 0x00, 0xff, 0xff];
    assert_eq!(decode(&stream), Vec::<u8>::new());
}

#[test]
fn run_length_repeats_last_byte_even_parity() {
    // distance = 1, length = 5 over a single-byte history: five repeats,
    // read back through the still-buffered accumulator byte.
    let mut state = BlockDecodeState {
        vram: Vec::new(),
        vram_data: 0,
        vram_parity: false,
        last_block: false,
        literal_code_lengths: Vec::new(),
        distance_code_lengths: Vec::new(),
    };
    gba_inflate::video::write_to_vram(&mut state, 0xab);
    // A single-leaf distance tree decodes symbol 0 (distance 1) from no bits.
    let dtree = HuffmanTreeEntry::from_code_lengths(&[]);
    let mut bits = BitIter::new(&[]);
    lz77_copy(&mut state, &mut bits, &dtree, 5);
    assert_eq!(state.output_bytes(), vec![0xab; 6]);
}

#[test]
fn run_length_repeats_last_byte_odd_parity() {
    // The same run starting on the opposite output parity: the most recent
    // byte is already committed to the window.
    let mut state = BlockDecodeState {
        vram: Vec::new(),
        vram_data: 0,
        vram_parity: false,
        last_block: false,
        literal_code_lengths: Vec::new(),
        distance_code_lengths: Vec::new(),
    };
    gba_inflate::video::write_to_vram(&mut state, 0x11);
    gba_inflate::video::write_to_vram(&mut state, 0xcd);
    let dtree = HuffmanTreeEntry::from_code_lengths(&[]);
    let mut bits = BitIter::new(&[]);
    lz77_copy(&mut state, &mut bits, &dtree, 5);
    assert_eq!(state.output_bytes(), vec![0x11, 0xcd, 0xcd, 0xcd, 0xcd, 0xcd, 0xcd]);
}

#[test]
fn overlapping_copy_cycles_history() {
    // distance = 2, length = 6 over "ab": the copy re-reads what it wrote.
    let mut state = BlockDecodeState {
        vram: Vec::new(),
        vram_data: 0,
        vram_parity: false,
        last_block: false,
        literal_code_lengths: Vec::new(),
        distance_code_lengths: Vec::new(),
    };
    gba_inflate::video::write_to_vram(&mut state, b'a');
    gba_inflate::video::write_to_vram(&mut state, b'b');
    // Distance tree over lengths [1,1]: symbol 1 (distance 2) is code 1.
    let dtree = HuffmanTreeEntry::from_code_lengths(&[1, 1]);
    let data = [0x01u8];
    let mut bits = BitIter::new(&data);
    lz77_copy(&mut state, &mut bits, &dtree, 6);
    assert_eq!(state.output_bytes(), b"abababab".to_vec());
}

fn roundtrip(data: &[u8], level: flate2::Compression) {
    let mut enc = flate2::write::DeflateEncoder::new(Vec::new(), level);
    enc.write_all(data).unwrap();
    let compressed = enc.finish().unwrap();
    assert_eq!(decode(&compressed), data.to_vec(), "level {:?}", level);
}

#[test]
fn roundtrip_stored_blocks() {
    let data: Vec<u8> = (0u32..2000).map(|i| (i * 7 + 13) as u8).collect();
    roundtrip(&data, flate2::Compression::none());
}

#[test]
fn roundtrip_text() {
    let data = b"the quick brown fox jumps over the lazy dog, \
                 the quick brown fox jumps over the lazy dog again"
        .repeat(20);
    roundtrip(&data, flate2::Compression::default());
    roundtrip(&data, flate2::Compression::fast());
    roundtrip(&data, flate2::Compression::best());
}

#[test]
fn roundtrip_runs_and_noise() {
    let mut data = vec![0u8; 4096];
    for (i, b) in data.iter_mut().enumerate() {
        *b = ((i * i + 3 * i) % 251) as u8;
    }
    data.extend_from_slice(&[0x41; 1000]);
    data.extend_from_slice(&[0x42, 0x41].repeat(600));
    roundtrip(&data, flate2::Compression::default());
    roundtrip(&data, flate2::Compression::none());
}

#[test]
fn roundtrip_empty_and_single() {
    roundtrip(b"", flate2::Compression::default());
    roundtrip(b"x", flate2::Compression::default());
    roundtrip(&[0u8; 3], flate2::Compression::best());
}

#[test]
fn distance_with_extra_bits() {
    // Distance symbol 6 (code 110 in a [3;8] table) plus extra value 1
    // encodes distance 10; three bytes are copied from ten back.
    let mut state = BlockDecodeState {
        vram: Vec::new(),
        vram_data: 0,
        vram_parity: false,
        last_block: false,
        literal_code_lengths: Vec::new(),
        distance_code_lengths: Vec::new(),
    };
    for b in b"ABCDEFGHIJKL" {
        gba_inflate::video::write_to_vram(&mut state, *b);
    }
    let dtree = HuffmanTreeEntry::from_code_lengths(&[3, 3, 3, 3, 3, 3, 3, 3]);
    // Bits: 1,1,0 (code 110), then 1,0 (extra, LSB first) -> 0x0b.
    let data = [0x0bu8];
    let mut bits = BitIter::new(&data);
    lz77_copy(&mut state, &mut bits, &dtree, 3);
    assert_eq!(state.output_bytes(), b"ABCDEFGHIJKLCDE".to_vec());
}

#[test]
fn fixed_block_single_literal() {
    // A final fixed-Huffman block holding the literal 'A' and end-of-block.
    let stream = [0x73u8, 0x04, 0x00];
    assert_eq!(decode(&stream), b"A".to_vec());
}
