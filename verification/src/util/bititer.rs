//! A forward-only reader that hands out the bits of a byte slice, least
//! significant bit first within each byte.
//!
//! The model of every reader in this crate is the sequence of bits it has not
//! yet consumed, given by [`BitIter::bits`]; the contracts of `next` and the
//! `take_into` family are stated purely over that sequence.

use vstd::arithmetic::div_mod::lemma_div_denominator;
use vstd::arithmetic::power2::{lemma2_to64, lemma_pow2_adds, lemma_pow2_pos, pow2};
use vstd::bits::{lemma_u16_shl_is_mul, lemma_u8_shl_is_mul, lemma_u8_shr_is_div};
use vstd::bits::{lemma_usize_pow2_no_overflow, lemma_usize_shl_is_mul};
use vstd::prelude::*;

verus! {

/// Bit `i` of the value `v`, counting from the least significant end.
pub open spec fn bit_of(v: nat, i: int) -> bool {
    v / pow2(i as nat) % 2 == 1
}

/// A byte sequence as a bit stream: each byte contributes its eight bits,
/// least significant first, bytes in order.
pub open spec fn bytes_bits(s: Seq<u8>) -> Seq<bool> {
    Seq::new(s.len() * 8, |i: int| bit_of(s[i / 8] as nat, i % 8))
}

/// The integer a bit sequence encodes when read least-significant-bit first.
pub open spec fn bits_value(s: Seq<bool>) -> nat
    decreases s.len(),
{
    if s.len() == 0 {
        0
    } else {
        (if s[0] {
            1nat
        } else {
            0nat
        }) + 2 * bits_value(s.skip(1))
    }
}

/// A bit sequence of length `n` encodes a value below `pow2(n)`.
pub proof fn lemma_bits_value_bound(s: Seq<bool>)
    ensures
        bits_value(s) < pow2(s.len()),
    decreases s.len(),
{
    if s.len() == 0 {
        lemma2_to64();
    } else {
        lemma_bits_value_bound(s.skip(1));
        lemma_pow2_adds(1, (s.len() - 1) as nat);
        lemma2_to64();
    }
}

/// Appending a bit at the most significant end adds its place value.
pub proof fn lemma_bits_value_snoc(s: Seq<bool>, b: bool)
    ensures
        bits_value(s.push(b)) == bits_value(s) + (if b {
            pow2(s.len())
        } else {
            0nat
        }),
    decreases s.len(),
{
    if s.len() == 0 {
        assert(s.push(b).skip(1) =~= Seq::<bool>::empty());
        lemma2_to64();
        assert(s.push(b)[0] == b);
        assert(bits_value(s.push(b)) == (if b {
            1nat
        } else {
            0nat
        }) + 2 * bits_value(s.push(b).skip(1)));
        assert(bits_value(s.push(b).skip(1)) == 0);
    } else {
        assert(s.push(b).skip(1) =~= s.skip(1).push(b));
        lemma_bits_value_snoc(s.skip(1), b);
        lemma_pow2_adds(1, (s.len() - 1) as nat);
        lemma2_to64();
        assert(s.push(b)[0] == s[0]);
        assert(bits_value(s.push(b)) == (if s[0] {
            1nat
        } else {
            0nat
        }) + 2 * bits_value(s.push(b).skip(1)));
        assert(bits_value(s.push(b).skip(1)) == bits_value(s.skip(1)) + (if b {
            pow2((s.len() - 1) as nat)
        } else {
            0nat
        }));
        assert(pow2(s.len()) == 2 * pow2((s.len() - 1) as nat));
    }
}

/// Splitting a bit sequence splits its value: the first `k` bits hold the
/// low part and the rest is scaled by `pow2(k)`.
pub proof fn lemma_bits_value_split(s: Seq<bool>, k: int)
    requires
        0 <= k <= s.len(),
    ensures
        bits_value(s) == bits_value(s.take(k)) + pow2(k as nat) * bits_value(s.skip(k)),
    decreases k,
{
    if k == 0 {
        assert(s.take(0) =~= Seq::<bool>::empty());
        assert(s.skip(0) =~= s);
        lemma2_to64();
    } else {
        lemma_bits_value_split(s.skip(1), k - 1);
        assert(s.take(k)[0] == s[0]);
        assert(s.take(k).skip(1) =~= s.skip(1).take(k - 1));
        assert(s.skip(1).skip(k - 1) =~= s.skip(k));
        lemma_pow2_adds(1, (k - 1) as nat);
        lemma2_to64();
        let a = pow2((k - 1) as nat);
        let b = bits_value(s.skip(k));
        assert(2 * (a * b) == (2 * a) * b) by (nonlinear_arith);
    }
}

/// Chunk invariance of the reader: taking three bits and then five yields
/// the same byte value as taking eight at once, the five-bit part holding
/// the high places.
pub proof fn lemma_take_chunk_invariance(s: Seq<bool>)
    requires
        s.len() >= 8,
    ensures
        bits_value(s.take(8)) == bits_value(s.take(3)) + 8 * bits_value(s.skip(3).take(5)),
{
    lemma_bits_value_split(s.take(8), 3);
    assert(s.take(8).take(3) =~= s.take(3));
    assert(s.take(8).skip(3) =~= s.skip(3).take(5));
    lemma2_to64();
}

/// Monotonicity of powers of two.
pub proof fn lemma_pow2_le(a: nat, b: nat)
    requires
        a <= b,
    ensures
        pow2(a) <= pow2(b),
{
    if a < b {
        vstd::arithmetic::power2::lemma_pow2_strictly_increases(a, b);
    }
}

/// Shifting a byte right by one drops its lowest bit and moves every other
/// bit down one place.
proof fn lemma_u8_shift_bits(b: u8)
    ensures
        forall|i: int| 0 <= i ==> bit_of((b >> 1u8) as nat, i) == bit_of(b as nat, i + 1),
        (b & 1 == 1) == bit_of(b as nat, 0),
{
    lemma2_to64();
    lemma_u8_shr_is_div(b, 1);
    assert((b & 1 == 1) == (b % 2 == 1)) by (bit_vector);
    assert(pow2(0) == 1);
    assert(b as nat / pow2(0) == b as nat);
    assert((b as nat) % 2 == (b % 2) as nat);
    assert forall|i: int| 0 <= i implies bit_of((b >> 1u8) as nat, i) == bit_of(b as nat, i + 1) by {
        lemma_pow2_pos(i as nat);
        lemma_div_denominator(b as int, 2, pow2(i as nat) as int);
        lemma_pow2_adds(1, i as nat);
    }
}

/// A forward-only bit reader over a byte slice. `front_byte` buffers the
/// partially consumed byte; its lowest `front_byte_left` bits are the ones
/// not yet handed out.
pub struct BitIter<'a> {
    front_byte: u8,
    front_byte_left: u8,
    data: &'a [u8],
    pos: usize,
}

impl<'a> BitIter<'a> {
    /// The reader's internal bookkeeping stays in range: at most seven bits
    /// are ever buffered, and the cursor stays inside the slice.
    pub closed spec fn wf(self) -> bool {
        self.front_byte_left < 8 && self.pos <= self.data@.len()
    }

    /// The sequence of bits not yet consumed: the buffered remainder of the
    /// current byte, then the bits of the bytes still ahead of the cursor.
    pub closed spec fn bits(self) -> Seq<bool> {
        Seq::new(self.front_byte_left as nat, |i: int| bit_of(self.front_byte as nat, i))
            + bytes_bits(self.data@.skip(self.pos as int))
    }

    pub fn new(data: &'a [u8]) -> (r: Self)
        ensures
            r.wf(),
            r.bits() == bytes_bits(data@),
    {
        let r = Self { front_byte: 0, front_byte_left: 0, data, pos: 0 };
        proof {
            assert(r.bits() =~= bytes_bits(data@));
        }
        r
    }

    /// Consume one bit; `None` only when the stream is exhausted.
    pub fn next(&mut self) -> (r: Option<bool>)
        requires
            old(self).wf(),
        ensures
            final(self).wf(),
            old(self).bits().len() > 0 ==> r == Some(old(self).bits()[0]) && final(self).bits()
                == old(self).bits().skip(1),
            old(self).bits().len() == 0 ==> r.is_none() && final(self).bits().len() == 0,
    {
        let ghost orig = *self;
        if self.front_byte_left == 0 {
            if self.pos < self.data.len() {
                self.front_byte = *vstd::slice::slice_index_get(self.data, self.pos);
                self.front_byte_left = 8;
                self.pos = self.pos + 1;
                proof {
                    let tail = orig.data@.skip(orig.pos as int);
                    assert(orig.bits() =~= bytes_bits(tail));
                    assert(tail[0] == self.front_byte);
                }
            } else {
                proof {
                    assert(orig.data@.skip(orig.pos as int).len() == 0);
                    assert(orig.bits().len() == 0);
                }
                return None;
            }
        }
        let ghost mid = *self;
        let ret = self.front_byte & 1 == 1;
        self.front_byte_left = self.front_byte_left - 1;
        self.front_byte = self.front_byte >> 1;
        proof {
            lemma_u8_shift_bits(mid.front_byte);
            // The buffered byte's remaining bits line up one place lower.
            assert(self.bits() =~= mid.bits().skip(1)) by {
                assert forall|j: int| 0 <= j < self.bits().len() implies self.bits()[j]
                    == mid.bits()[j + 1] by {
                    let left = self.front_byte_left as int;
                    if j < left {
                        assert(self.bits()[j] == bit_of(self.front_byte as nat, j));
                        assert(mid.bits()[j + 1] == bit_of(mid.front_byte as nat, j + 1));
                    } else {
                        let rest = bytes_bits(self.data@.skip(self.pos as int));
                        assert(self.bits()[j] == rest[j - left]);
                        assert(mid.bits()[j + 1] == rest[j + 1 - (left + 1)]);
                    }
                }
            }
            assert(mid.bits()[0] == bit_of(mid.front_byte as nat, 0));
            if orig.front_byte_left == 0 {
                // Refill: the old view was exactly the bytes ahead; the new
                // buffered byte contributes the same first eight bits.
                let tail = orig.data@.skip(orig.pos as int);
                assert(mid.bits() =~= orig.bits()) by {
                    assert forall|j: int| 0 <= j < mid.bits().len() implies mid.bits()[j]
                        == orig.bits()[j] by {
                        if j < 8 {
                            assert(mid.bits()[j] == bit_of(mid.front_byte as nat, j));
                            assert(orig.bits()[j] == bit_of(tail[j / 8] as nat, j % 8));
                            assert(j / 8 == 0 && j % 8 == j);
                        } else {
                            let rest = bytes_bits(mid.data@.skip(mid.pos as int));
                            assert(mid.bits()[j] == rest[j - 8]);
                            assert(mid.data@.skip(mid.pos as int) =~= tail.skip(1));
                            assert(rest[j - 8] == bit_of(tail.skip(1)[(j - 8) / 8] as nat, (j - 8)
                                % 8));
                            assert(tail.skip(1)[(j - 8) / 8] == tail[(j - 8) / 8 + 1]);
                            assert((j - 8) / 8 + 1 == j / 8 && (j - 8) % 8 == j % 8);
                            assert(orig.bits()[j] == bit_of(tail[j / 8] as nat, j % 8));
                        }
                    }
                }
            } else {
                assert(mid.bits() == orig.bits());
            }
        }
        Some(ret)
    }

    /// Discard the buffered remainder of the current byte, so that the next
    /// bit read starts a fresh byte. Stored blocks resume byte-aligned.
    pub fn skip_to_byte_start(&mut self)
        requires
            old(self).wf(),
        ensures
            final(self).wf(),
            final(self).bits() == old(self).bits().skip((old(self).bits().len() % 8) as int),
    {
        proof {
            let left = old(self).front_byte_left as int;
            let rest = bytes_bits(old(self).data@.skip(old(self).pos as int));
            assert(old(self).bits().len() == left + rest.len());
            assert(rest.len() % 8 == 0);
            assert(old(self).bits().len() % 8 == left);
            assert(old(self).bits().skip(left) =~= rest);
        }
        self.front_byte_left = 0;
        proof {
            assert(self.bits() =~= bytes_bits(self.data@.skip(self.pos as int)));
        }
    }

    /// Read `n` bits, packing them least significant first. On a short
    /// stream, reports the number of bits that were actually available.
    pub fn take_into_u8(&mut self, n: u8) -> (r: Result<u8, usize>)
        requires
            old(self).wf(),
            n <= 8,
        ensures
            final(self).wf(),
            match r {
                Ok(v) => old(self).bits().len() >= n && v == bits_value(
                    old(self).bits().take(n as int),
                ) && final(self).bits() == old(self).bits().skip(n as int),
                Err(avail) => old(self).bits().len() < n && avail == old(self).bits().len()
                    && final(self).bits().len() == 0,
            },
    {
        let ghost orig = self.bits();
        let mut ret: u8 = 0;
        let mut i: u8 = 0;
        while i < n
            invariant
                self.wf(),
                i <= n,
                n <= 8,
                orig == old(self).bits(),
                orig.len() >= i,
                self.bits() == orig.skip(i as int),
                ret == bits_value(orig.take(i as int)),
            decreases n - i,
        {
            match self.next() {
                Some(bit) => {
                    proof {
                        lemma_bits_value_bound(orig.take(i as int));
                        lemma2_to64();
                        lemma_pow2_le(i as nat, 7);
                        lemma_u8_shl_is_mul(1u8, i);
                        lemma_pow2_adds(i as nat, 1);
                        assert(orig.take((i + 1) as int) =~= orig.take(i as int).push(
                            orig[i as int],
                        ));
                        lemma_bits_value_snoc(orig.take(i as int), orig[i as int]);
                        assert(orig.skip(i as int)[0] == orig[i as int]);
                        assert(orig.skip(i as int).skip(1) =~= orig.skip(i + 1));
                    }
                    if bit {
                        ret = ret + (1u8 << i);
                    }
                    i = i + 1;
                },
                None => {
                    return Err(i as usize);
                },
            }
        }
        Ok(ret)
    }

    /// Read `n` bits into a `u16`, packing them least significant first.
    pub fn take_into_u16(&mut self, n: u8) -> (r: Result<u16, usize>)
        requires
            old(self).wf(),
            n <= 16,
        ensures
            final(self).wf(),
            match r {
                Ok(v) => old(self).bits().len() >= n && v == bits_value(
                    old(self).bits().take(n as int),
                ) && final(self).bits() == old(self).bits().skip(n as int),
                Err(avail) => old(self).bits().len() < n && avail == old(self).bits().len()
                    && final(self).bits().len() == 0,
            },
    {
        let ghost orig = self.bits();
        let mut ret: u16 = 0;
        let mut i: u8 = 0;
        while i < n
            invariant
                self.wf(),
                i <= n,
                n <= 16,
                orig == old(self).bits(),
                orig.len() >= i,
                self.bits() == orig.skip(i as int),
                ret == bits_value(orig.take(i as int)),
            decreases n - i,
        {
            match self.next() {
                Some(bit) => {
                    proof {
                        lemma_bits_value_bound(orig.take(i as int));
                        lemma2_to64();
                        lemma_pow2_le(i as nat, 15);
                        lemma_u16_shl_is_mul(1u16, i as u16);
                        lemma_pow2_adds(i as nat, 1);
                        assert(orig.take((i + 1) as int) =~= orig.take(i as int).push(
                            orig[i as int],
                        ));
                        lemma_bits_value_snoc(orig.take(i as int), orig[i as int]);
                        assert(orig.skip(i as int)[0] == orig[i as int]);
                        assert(orig.skip(i as int).skip(1) =~= orig.skip(i + 1));
                    }
                    if bit {
                        ret = ret + (1u16 << i);
                    }
                    i = i + 1;
                },
                None => {
                    return Err(i as usize);
                },
            }
        }
        Ok(ret)
    }

    /// Read `n` bits into a `usize`: up to a machine word's worth.
    pub fn take_into_usize(&mut self, n: u8) -> (r: Result<usize, usize>)
        requires
            old(self).wf(),
            n as u32 <= usize::BITS,
        ensures
            final(self).wf(),
            match r {
                Ok(v) => old(self).bits().len() >= n && v == bits_value(
                    old(self).bits().take(n as int),
                ) && final(self).bits() == old(self).bits().skip(n as int),
                Err(avail) => old(self).bits().len() < n && avail == old(self).bits().len()
                    && final(self).bits().len() == 0,
            },
    {
        let ghost orig = self.bits();
        let mut ret: usize = 0;
        let mut i: u8 = 0;
        while i < n
            invariant
                self.wf(),
                i <= n,
                n as u32 <= usize::BITS,
                orig == old(self).bits(),
                orig.len() >= i,
                self.bits() == orig.skip(i as int),
                ret == bits_value(orig.take(i as int)),
            decreases n - i,
        {
            match self.next() {
                Some(bit) => {
                    proof {
                        lemma_bits_value_bound(orig.take(i as int));
                        lemma_usize_pow2_no_overflow(i as nat);
                        lemma_usize_shl_is_mul(1usize, i as usize);
                        lemma_pow2_adds(i as nat, 1);
                        lemma2_to64();
                        vstd::layout::unsigned_int_max_values();
                        if i + 1 == n {
                            assert(pow2(n as nat) <= pow2(usize::BITS as nat)) by {
                                if (n as nat) < usize::BITS as nat {
                                    vstd::arithmetic::power2::lemma_pow2_strictly_increases(
                                        n as nat,
                                        usize::BITS as nat,
                                    );
                                }
                            }
                        } else {
                            lemma_usize_pow2_no_overflow((i + 1) as nat);
                        }
                        assert(orig.take((i + 1) as int) =~= orig.take(i as int).push(
                            orig[i as int],
                        ));
                        lemma_bits_value_snoc(orig.take(i as int), orig[i as int]);
                        assert(orig.skip(i as int)[0] == orig[i as int]);
                        assert(orig.skip(i as int).skip(1) =~= orig.skip(i + 1));
                    }
                    if bit {
                        ret = ret + (1usize << i);
                    }
                    i = i + 1;
                },
                None => {
                    return Err(i as usize);
                },
            }
        }
        Ok(ret)
    }
}

} // verus!
