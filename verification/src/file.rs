//! Read-only files resolved by walking a serialized directory image: a
//! listing of entries, each a length-prefixed name padded to a word
//! boundary, then a little-endian size word whose bit 25 marks a directory,
//! then the entry's contents, padded again. A zero name length ends a
//! listing; a directory's contents are a nested listing of the same shape.

use vstd::prelude::*;
use vstd::slice::{slice_index_get, slice_subrange};
use vstd::string::*;

verus! {

/// A file located inside the directory image: its byte region and a read
/// cursor.
pub struct RomFile<'a> {
    data: &'a [u8],
    offset: usize,
}

#[derive(Debug, PartialEq, Eq, Structural)]
pub enum OpenError {
    NotFound,
    IsFile,
    IsDir,
}

pub enum SeekFrom {
    Start(u32),
    End(i32),
    Current(i32),
}

#[non_exhaustive]
#[derive(Debug, PartialEq, Eq, Structural)]
pub enum SeekError {
    NegativeOffset,
}

/// Round an index up to the next word boundary, as entries are padded.
pub open spec fn align4(i: int) -> int {
    if i % 4 == 0 {
        i
    } else {
        i + 4 - (i % 4)
    }
}

/// The little-endian 32-bit word at `h`.
pub open spec fn u32_le_at(root: Seq<u8>, h: int) -> nat {
    root[h] as nat + 256 * root[h + 1] as nat + 65536 * root[h + 2] as nat + 16777216 * root[h
        + 3] as nat
}

/// The first position at or after `i` that is not a path separator.
pub open spec fn skip_slashes(name: Seq<u8>, i: int) -> int
    decreases name.len() - i,
{
    if 0 <= i < name.len() && name[i] == 47 {
        skip_slashes(name, i + 1)
    } else {
        i
    }
}

/// Scan the listing that starts at `idx` for the path suffix that starts at
/// `begin`. An entry matches when its name is a prefix of the remaining
/// path and ends the path or meets a separator; a matching directory is
/// entered, a matching file's byte range is returned, and everything else
/// is skipped. `None` means the scan would read outside the image, which
/// the build pipeline is trusted never to produce.
pub open spec fn spec_dir_scan(root: Seq<u8>, name: Seq<u8>, idx: int, begin: int) -> Option<
    Result<(int, int), OpenError>,
>
    decreases root.len() - idx,
{
    if idx < 0 || idx >= root.len() || begin < 0 || begin > name.len() {
        None
    } else {
        let name_size = root[idx] as int;
        if name_size == 0 {
            Some(Err(OpenError::NotFound))
        } else {
            let hdr = align4(idx + 1 + name_size);
            if hdr + 4 > root.len() {
                None
            } else {
                let raw = u32_le_at(root, hdr);
                let is_dir = raw / 0x2000000 % 2 == 1;
                let size = (raw % 0x2000000) as int;
                let content = hdr + 4;
                let matched = begin + name_size <= name.len() && name.subrange(
                    begin,
                    begin + name_size,
                ) == root.subrange(idx + 1, idx + 1 + name_size);
                let np = begin + name_size;
                if matched && np >= name.len() {
                    if is_dir {
                        Some(Err(OpenError::IsDir))
                    } else if content + size <= root.len() {
                        Some(Ok((content, content + size)))
                    } else {
                        None
                    }
                } else if matched && name[np] == 47 {
                    if !is_dir {
                        Some(Err(OpenError::IsFile))
                    } else if content <= root.len() {
                        spec_dir_scan(root, name, content, np + 1)
                    } else {
                        None
                    }
                } else {
                    let nxt = align4(content + size);
                    if nxt <= root.len() {
                        spec_dir_scan(root, name, nxt, begin)
                    } else {
                        None
                    }
                }
            }
        }
    }
}

/// Resolve a path from the top of the image, ignoring leading separators.
pub open spec fn spec_raw_open(root: Seq<u8>, name: Seq<u8>) -> Option<
    Result<(int, int), OpenError>,
> {
    spec_dir_scan(root, name, 0, skip_slashes(name, 0))
}

/// Relies on `core::str::from_utf8`: it succeeds exactly on valid UTF-8 and
/// returns the same bytes as a string slice.
#[verifier::external_body]
fn utf8_from(v: &[u8]) -> (r: Option<&str>)
    ensures
        r.is_some() == vstd::utf8::valid_utf8(v@),
        r.is_some() ==> r.unwrap().spec_bytes() == v@,
{
    core::str::from_utf8(v).ok()
}

impl<'a> RomFile<'a> {
    /// The bytes of the located file.
    pub closed spec fn data_bytes(self) -> Seq<u8> {
        self.data@
    }

    /// The read cursor.
    pub closed spec fn cursor(self) -> int {
        self.offset as int
    }

    /// Resolve `name` against the directory image `root_dir`. The image is
    /// trusted: the caller promises the scan stays inside it.
    #[verifier::loop_isolation(false)]
    pub fn raw_open(root_dir: &'a [u8], name: &[u8]) -> (r: Result<RomFile<'a>, OpenError>)
        requires
            spec_raw_open(root_dir@, name@).is_some(),
            root_dir@.len() <= 0x7fff_ffff,
            name@.len() <= 0x7fff_ffff,
        ensures
            match r {
                Ok(f) => {
                    &&& spec_raw_open(root_dir@, name@).unwrap() is Ok
                    &&& f.data_bytes() == root_dir@.subrange(
                        spec_raw_open(root_dir@, name@).unwrap().unwrap().0,
                        spec_raw_open(root_dir@, name@).unwrap().unwrap().1,
                    )
                    &&& f.cursor() == 0
                },
                Err(e) => spec_raw_open(root_dir@, name@).unwrap() == Err::<(int, int), OpenError>(
                    e,
                ),
            },
    {
        let ghost gr = spec_raw_open(root_dir@, name@);

        let mut name_begin: usize = 0;
        while name_begin < name.len() && *slice_index_get(name, name_begin) == 47
            invariant
                name_begin <= name@.len(),
                skip_slashes(name@, 0) == skip_slashes(name@, name_begin as int),
            decreases name@.len() - name_begin,
        {
            name_begin = name_begin + 1;
        }
        proof {
            assert(skip_slashes(name@, name_begin as int) == name_begin as int);
        }

        let mut dir_index: usize = 0;
        loop
            invariant
                name_begin <= name@.len(),
                dir_index <= root_dir@.len(),
                spec_dir_scan(root_dir@, name@, dir_index as int, name_begin as int) == gr,
            decreases root_dir@.len() - dir_index,
        {
            let ghost idx = dir_index as int;
            let ghost begin = name_begin as int;
            let name_size = *slice_index_get(root_dir, dir_index) as usize;
            if name_size == 0 {
                return Err(OpenError::NotFound);
            }
            let ghost g_matched = begin + name_size <= name@.len() && name@.subrange(
                begin,
                begin + name_size as int,
            ) == root_dir@.subrange(idx + 1, idx + 1 + name_size as int);

            let mut hdr = dir_index + 1 + name_size;
            if hdr % 4 != 0 {
                hdr = hdr + (4 - hdr % 4);
            }
            proof {
                assert(hdr as int == align4(idx + 1 + name_size as int));
            }

            // The entry name is fully inside the image: compare it with the
            // remaining path component by component.
            let mut matched: bool = name.len() - name_begin >= name_size;
            let mut k: usize = 0;
            while matched && k < name_size
                invariant
                    k <= name_size,
                    idx + 1 + name_size <= root_dir@.len(),
                    matched ==> begin + name_size <= name@.len(),
                    matched ==> name@.subrange(begin, begin + k as int) == root_dir@.subrange(
                        idx + 1,
                        idx + 1 + k as int,
                    ),
                    !matched ==> !g_matched,
                decreases (if matched { 1int } else { 0int }), name_size - k,
            {
                if *slice_index_get(name, name_begin + k) != *slice_index_get(
                    root_dir,
                    dir_index + 1 + k,
                ) {
                    proof {
                        if g_matched {
                            let kk = k as int;
                            assert(name@.subrange(begin, begin + name_size as int)[kk]
                                == root_dir@.subrange(idx + 1, idx + 1 + name_size as int)[kk]);
                        }
                    }
                    matched = false;
                } else {
                    proof {
                        assert(name@.subrange(begin, begin + (k + 1) as int) =~= name@.subrange(
                            begin,
                            begin + k as int,
                        ).push(name@[begin + k]));
                        assert(root_dir@.subrange(idx + 1, idx + 1 + (k + 1) as int)
                            =~= root_dir@.subrange(idx + 1, idx + 1 + k as int).push(
                            root_dir@[idx + 1 + k],
                        ));
                    }
                    k = k + 1;
                }
            }
            proof {
                if matched {
                    assert(name@.subrange(begin, begin + name_size as int) == root_dir@.subrange(
                        idx + 1,
                        idx + 1 + name_size as int,
                    ));
                    assert(g_matched);
                }
            }

            let b0 = *slice_index_get(root_dir, hdr);
            let b1 = *slice_index_get(root_dir, hdr + 1);
            let b2 = *slice_index_get(root_dir, hdr + 2);
            let b3 = *slice_index_get(root_dir, hdr + 3);
            let raw: u32 = b0 as u32 + 256 * (b1 as u32) + 65536 * (b2 as u32) + 16777216 * (
            b3 as u32);
            let is_dir = raw & 0x2000000 == 0x2000000;
            let size = (raw & 0x1FFFFFF) as usize;
            proof {
                assert((raw & 0x2000000 == 0x2000000) == (raw / 0x2000000 % 2 == 1))
                    by (bit_vector);
                assert(raw & 0x1FFFFFF == raw % 0x2000000) by (bit_vector);
            }
            let content = hdr + 4;

            if matched && name_begin + name_size >= name.len() {
                if is_dir {
                    return Err(OpenError::IsDir);
                } else {
                    return Ok(
                        RomFile {
                            data: slice_subrange(root_dir, content, content + size),
                            offset: 0,
                        },
                    );
                }
            } else if matched && *slice_index_get(name, name_begin + name_size) == 47 {
                if !is_dir {
                    return Err(OpenError::IsFile);
                }
                dir_index = content;
                name_begin = name_begin + name_size + 1;
            } else {
                let mut nxt = content + size;
                if nxt % 4 != 0 {
                    nxt = nxt + (4 - nxt % 4);
                }
                proof {
                    assert(nxt as int == align4(content as int + size as int));
                }
                dir_index = nxt;
            }
        }
    }

    /// Resolve a path given as a string.
    pub fn open(root_dir: &'a [u8], name: &str) -> (r: Result<RomFile<'a>, OpenError>)
        requires
            spec_raw_open(root_dir@, name.spec_bytes()).is_some(),
            root_dir@.len() <= 0x7fff_ffff,
            name.spec_bytes().len() <= 0x7fff_ffff,
        ensures
            match r {
                Ok(f) => {
                    &&& spec_raw_open(root_dir@, name.spec_bytes()).unwrap() is Ok
                    &&& f.data_bytes() == root_dir@.subrange(
                        spec_raw_open(root_dir@, name.spec_bytes()).unwrap().unwrap().0,
                        spec_raw_open(root_dir@, name.spec_bytes()).unwrap().unwrap().1,
                    )
                    &&& f.cursor() == 0
                },
                Err(e) => spec_raw_open(root_dir@, name.spec_bytes()).unwrap() == Err::<
                    (int, int),
                    OpenError,
                >(e),
            },
    {
        Self::raw_open(root_dir, name.as_bytes())
    }

    /// Copy bytes from the cursor into `buffer`; the number copied is
    /// bounded by both the buffer and what is left of the file.
    #[verifier::loop_isolation(false)]
    pub fn read(&mut self, buffer: &mut [u8]) -> (n: usize)
        ensures
            final(self).data_bytes() == old(self).data_bytes(),
            n == vstd::math::min(
                if old(self).cursor() <= old(self).data_bytes().len() {
                    old(self).data_bytes().len() - old(self).cursor()
                } else {
                    0
                },
                old(buffer)@.len() as int,
            ),
            final(self).cursor() == old(self).cursor() + n,
            n > 0 ==> final(buffer)@ == old(self).data_bytes().subrange(
                old(self).cursor(),
                old(self).cursor() + n,
            ) + old(buffer)@.skip(n as int),
            n == 0 ==> final(buffer)@ == old(buffer)@,
    {
        let data_end = if self.data.len() >= self.offset {
            self.data.len() - self.offset
        } else {
            0
        };
        let read_end = if data_end < buffer.len() {
            data_end
        } else {
            buffer.len()
        };
        if read_end > 0 {
            let mut k: usize = 0;
            while k < read_end
                invariant
                    k <= read_end,
                    read_end <= buffer@.len(),
                    self == old(self),
                    self.offset + read_end <= self.data@.len(),
                    buffer@.len() == old(buffer)@.len(),
                    buffer@ == self.data@.subrange(
                        self.offset as int,
                        self.offset + k as int,
                    ) + old(buffer)@.skip(k as int),
                decreases read_end - k,
            {
                let b = *slice_index_get(self.data, self.offset + k);
                buffer[k] = b;
                proof {
                    assert(buffer@ =~= self.data@.subrange(
                        self.offset as int,
                        self.offset + (k + 1) as int,
                    ) + old(buffer)@.skip((k + 1) as int));
                }
                k = k + 1;
            }
        }
        self.offset = self.offset + read_end;
        read_end
    }

    /// Move the cursor. A target before the start of the file, or past what
    /// a 32-bit offset can address, is rejected and leaves the cursor.
    pub fn seek(&mut self, pos: SeekFrom) -> (r: Result<u32, SeekError>)
        requires
            old(self).data_bytes().len() <= 0x7fff_ffff,
            old(self).cursor() <= 0x7fff_ffff,
        ensures
            final(self).data_bytes() == old(self).data_bytes(),
            match pos {
                SeekFrom::Start(off) => r == Ok::<u32, SeekError>(off) && final(self).cursor()
                    == off,
                SeekFrom::End(off) => if 0 <= old(self).data_bytes().len() + off
                    <= 0x7fff_ffff {
                    r == Ok::<u32, SeekError>(
                        (old(self).data_bytes().len() + off) as u32,
                    ) && final(self).cursor() == old(self).data_bytes().len() + off
                } else {
                    r == Err::<u32, SeekError>(SeekError::NegativeOffset) && final(self).cursor()
                        == old(self).cursor()
                },
                SeekFrom::Current(off) => if 0 <= old(self).cursor() + off <= 0x7fff_ffff {
                    r == Ok::<u32, SeekError>((old(self).cursor() + off) as u32) && final(self).cursor()
                        == old(self).cursor() + off
                } else {
                    r == Err::<u32, SeekError>(SeekError::NegativeOffset) && final(self).cursor()
                        == old(self).cursor()
                },
            },
    {
        let new_offset: Option<u32> = match pos {
            SeekFrom::Start(offset) => Some(offset),
            SeekFrom::End(offset) => {
                let sum: i64 = self.data.len() as i64 + offset as i64;
                if 0 <= sum && sum <= 0x7fff_ffff {
                    Some(sum as u32)
                } else {
                    None
                }
            },
            SeekFrom::Current(offset) => {
                let sum: i64 = self.offset as i64 + offset as i64;
                if 0 <= sum && sum <= 0x7fff_ffff {
                    Some(sum as u32)
                } else {
                    None
                }
            },
        };
        match new_offset {
            Some(off) => {
                self.offset = off as usize;
                Ok(off)
            },
            None => Err(SeekError::NegativeOffset),
        }
    }

    /// The bytes from the cursor to the end of the file.
    pub fn as_bytes(&self) -> (r: &'a [u8])
        requires
            self.cursor() <= self.data_bytes().len(),
        ensures
            r@ == self.data_bytes().skip(self.cursor()),
    {
        let r = slice_subrange(self.data, self.offset, self.data.len());
        proof {
            assert(r@ =~= self.data_bytes().skip(self.cursor()));
        }
        r
    }

    /// The bytes from the cursor onward as text, when they are valid UTF-8.
    pub fn as_str(&self) -> (r: Option<&'a str>)
        requires
            self.cursor() <= self.data_bytes().len(),
        ensures
            r.is_some() == vstd::utf8::valid_utf8(self.data_bytes().skip(self.cursor())),
            r.is_some() ==> r.unwrap().spec_bytes() == self.data_bytes().skip(self.cursor()),
    {
        utf8_from(self.as_bytes())
    }
}

} // verus!
