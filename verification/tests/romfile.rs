use gba_inflate::file::{OpenError, SeekError, SeekFrom};
use gba_inflate::RomFile;

/// A directory image with the file "a" (bytes `hello`), the directory "sub"
/// holding the file "inner" (bytes `world!`), and a terminator.
fn sample_image() -> Vec<u8> {
    fn pad4(v: &mut Vec<u8>) {
        while v.len() % 4 != 0 {
            v.push(0);
        }
    }
    // Inner listing: the file "inner".
    let mut inner = Vec::new();
    inner.push(5u8);
    inner.extend_from_slice(b"inner");
    pad4(&mut inner);
    inner.extend_from_slice(&6u32.to_le_bytes());
    inner.extend_from_slice(b"world!");
    pad4(&mut inner);
    inner.push(0);
    pad4(&mut inner);

    let mut img = Vec::new();
    img.push(1u8);
    img.push(b'a');
    pad4(&mut img);
    img.extend_from_slice(&5u32.to_le_bytes());
    img.extend_from_slice(b"hello");
    pad4(&mut img);

    img.push(3u8);
    img.extend_from_slice(b"sub");
    pad4(&mut img);
    img.extend_from_slice(&(inner.len() as u32 | 0x200_0000).to_le_bytes());
    img.extend_from_slice(&inner);
    pad4(&mut img);

    img.push(0);
    img
}

#[test]
fn open_top_level_file() {
    let img = sample_image();
    let f = RomFile::open(&img, "a").unwrap();
    assert_eq!(f.as_bytes(), b"hello");
    assert_eq!(f.as_str(), Some("hello"));
}

#[test]
fn open_nested_file() {
    let img = sample_image();
    let f = RomFile::open(&img, "sub/inner").unwrap();
    assert_eq!(f.as_bytes(), b"world!");
    // Leading separators are ignored.
    let g = RomFile::open(&img, "/sub/inner").unwrap();
    assert_eq!(g.as_bytes(), b"world!");
}

#[test]
fn open_reports_each_error() {
    let img = sample_image();
    assert!(matches!(RomFile::open(&img, "nope"), Err(OpenError::NotFound)));
    assert!(matches!(RomFile::open(&img, "sub"), Err(OpenError::IsDir)));
    assert!(matches!(RomFile::open(&img, "a/x"), Err(OpenError::IsFile)));
    assert!(matches!(
        RomFile::open(&img, "sub/none"),
        Err(OpenError::NotFound)
    ));
}

#[test]
fn read_fills_buffer_and_advances() {
    let img = sample_image();
    let mut f = RomFile::open(&img, "a").unwrap();
    let mut buf = [0u8; 3];
    assert_eq!(f.read(&mut buf), 3);
    assert_eq!(&buf, b"hel");
    assert_eq!(f.read(&mut buf), 2);
    assert_eq!(&buf[..2], b"lo");
    assert_eq!(f.read(&mut buf), 0);
}

#[test]
fn seek_moves_and_rejects_negative() {
    let img = sample_image();
    let mut f = RomFile::open(&img, "a").unwrap();
    assert_eq!(f.seek(SeekFrom::Start(2)), Ok(2));
    assert_eq!(f.as_bytes(), b"llo");
    assert_eq!(f.seek(SeekFrom::Current(1)), Ok(3));
    assert_eq!(f.as_bytes(), b"lo");
    assert_eq!(f.seek(SeekFrom::End(-1)), Ok(4));
    assert_eq!(f.as_bytes(), b"o");
    assert_eq!(
        f.seek(SeekFrom::Current(-10)),
        Err(SeekError::NegativeOffset)
    );
    // The cursor is untouched by a rejected seek.
    assert_eq!(f.as_bytes(), b"o");
}

#[test]
fn as_str_rejects_invalid_utf8() {
    let bad = [1u8, b'b', 0, 0, 2, 0, 0, 0, 0xff, 0xfe, 0, 0, 0];
    let f = RomFile::raw_open(&bad, b"b").unwrap();
    assert_eq!(f.as_bytes(), &[0xff, 0xfe]);
    assert_eq!(f.as_str(), None);
}
