//! The high-throughput bit reader for the hot path: it pulls whole 32-bit
//! words from a pre-validated buffer and carries no end-of-stream check of
//! its own. That bound is deliberately the caller's contract: every read
//! requires enough bits to be left, which is how the "caller guarantees
//! sufficient payload length" trade-off is written down here.
//!
//! Its bit order is identical to the generic byte reader's:
//! [`lemma_words_bits_le_bytes`] states that reading little-endian words
//! yields exactly the byte stream's bits.

use crate::util::bititer::{bit_of, bits_value, bytes_bits, lemma_bits_value_bound, lemma_pow2_le};
use vstd::arithmetic::div_mod::lemma_div_denominator;
use vstd::arithmetic::power2::{lemma2_to64, lemma_pow2_adds, lemma_pow2_pos, pow2};
use vstd::bits::{lemma_u16_shl_is_mul, lemma_u32_shr_is_div, lemma_u8_shl_is_mul};
use vstd::prelude::*;

verus! {

/// A word sequence as a bit stream: each word contributes its 32 bits,
/// least significant first, words in order.
pub open spec fn words_bits(s: Seq<u32>) -> Seq<bool> {
    Seq::new(s.len() * 32, |i: int| bit_of(s[i / 32] as nat, i % 32))
}

/// Dividing out a divisor that exactly divides one summand.
proof fn lemma_div_shift_out(a: int, m: int, q: int)
    requires
        q > 0,
        a >= 0,
    ensures
        (q * m + a) / q == m + a / q,
{
    vstd::arithmetic::div_mod::lemma_fundamental_div_mod(a, q);
    vstd::arithmetic::div_mod::lemma_mod_bound(a, q);
    assert(q * m + a == q * (m + a / q) + a % q) by (nonlinear_arith)
        requires
            a == q * (a / q) + a % q,
    ;
    vstd::arithmetic::div_mod::lemma_div_multiples_vanish_fancy(m + a / q, a % q, q);
}

/// One word assembled from four bytes little-endian carries exactly those
/// bytes' bits in stream order.
proof fn lemma_u32_byte_bit(w: u32, bs: Seq<u8>, t: int, j: int)
    requires
        0 <= t < 4,
        0 <= j < 8,
        bs.len() == 4,
        w as nat == bs[0] as nat + 256 * bs[1] as nat + 65536 * bs[2] as nat + 16777216 * bs[3]
            as nat,
    ensures
        bit_of(w as nat, 8 * t + j) == bit_of(bs[t] as nat, j),
{
    lemma2_to64();
    let base = pow2((8 * t) as nat) as int;
    let q = pow2(j as nat) as int;
    let e = pow2((8 - j) as nat) as int;
    let bt = bs[t] as int;
    lemma_pow2_pos((8 * t) as nat);
    lemma_pow2_pos(j as nat);
    lemma_pow2_pos((8 - j) as nat);
    lemma_pow2_pos((7 - j) as nat);
    lemma_pow2_adds((8 * t) as nat, j as nat);
    lemma_pow2_adds(j as nat, (8 - j) as nat);
    lemma_pow2_adds(1, (7 - j) as nat);
    // Split the word below and above byte t: w == base * (b_t + 256 * high) + low.
    let low: int = if t == 0 {
        0
    } else if t == 1 {
        bs[0] as int
    } else if t == 2 {
        bs[0] as int + 256 * bs[1] as int
    } else {
        bs[0] as int + 256 * bs[1] as int + 65536 * bs[2] as int
    };
    let high: int = if t == 0 {
        bs[1] as int + 256 * bs[2] as int + 65536 * bs[3] as int
    } else if t == 1 {
        bs[2] as int + 256 * bs[3] as int
    } else if t == 2 {
        bs[3] as int
    } else {
        0
    };
    assert(w == base * (bt + 256 * high) + low && 0 <= low < base) by (nonlinear_arith)
        requires
            0 <= t < 4,
            (t == 0 ==> base == 1 && low == 0 && bt == bs[0] as int && high == bs[1] as int + 256
                * bs[2] as int + 65536 * bs[3] as int),
            (t == 1 ==> base == 256 && low == bs[0] as int && bt == bs[1] as int && high == bs[2]
                as int + 256 * bs[3] as int),
            (t == 2 ==> base == 65536 && low == bs[0] as int + 256 * bs[1] as int && bt == bs[2]
                as int && high == bs[3] as int),
            (t == 3 ==> base == 16777216 && low == bs[0] as int + 256 * bs[1] as int + 65536
                * bs[2] as int && bt == bs[3] as int && high == 0),
            w as nat == bs[0] as nat + 256 * bs[1] as nat + 65536 * bs[2] as nat + 16777216
                * bs[3] as nat,
            bs[0] < 256,
            bs[1] < 256,
            bs[2] < 256,
            bs[3] < 256,
    ;
    vstd::arithmetic::div_mod::lemma_div_multiples_vanish_fancy(bt + 256 * high, low, base);
    assert(w as int / base == bt + 256 * high);
    lemma_div_denominator(w as int, base, q);
    assert(w as int / (pow2((8 * t + j) as nat) as int) == (bt + 256 * high) / q);
    // Divide the selected byte's group out of the high part.
    assert(256 * high == q * (e * high)) by (nonlinear_arith)
        requires
            256 == q * e,
    ;
    lemma_div_shift_out(bt, e * high, q);
    assert((bt + 256 * high) / q == e * high + bt / q);
    // The high part is even, so it drops out of the lowest bit.
    let h7 = pow2((7 - j) as nat) as int;
    assert(e * high == 2 * (h7 * high)) by (nonlinear_arith)
        requires
            e == 2 * h7,
    ;
    assert((2 * (h7 * high) + bt / q) % 2 == (bt / q) % 2);
}

/// Reading 32-bit words little-endian gives exactly the byte reader's bit
/// order: on the same memory the two reader variants see the same stream.
pub proof fn lemma_words_bits_le_bytes(ws: Seq<u32>, bs: Seq<u8>)
    requires
        bs.len() == 4 * ws.len(),
        forall|k: int|
            0 <= k < ws.len() ==> ws[k] as nat == bs[4 * k] as nat + 256 * bs[4 * k + 1] as nat
                + 65536 * bs[4 * k + 2] as nat + 16777216 * bs[4 * k + 3] as nat,
    ensures
        words_bits(ws) == bytes_bits(bs),
{
    assert(words_bits(ws) =~= bytes_bits(bs)) by {
        assert forall|i: int| 0 <= i < ws.len() * 32 implies words_bits(ws)[i] == bytes_bits(bs)[i]
        by {
            let k = i / 32;
            let r = i % 32;
            let t = r / 8;
            let j = r % 8;
            let quad = bs.subrange(4 * k, 4 * k + 4);
            lemma_u32_byte_bit(ws[k], quad, t, j);
            assert(quad[t] == bs[4 * k + t]);
            assert(i / 8 == 4 * k + t && i % 8 == j) by (nonlinear_arith)
                requires
                    k == i / 32,
                    r == i % 32,
                    t == r / 8,
                    j == r % 8,
                    0 <= i,
            ;
        }
    }
}

/// A forward-only bit reader over whole 32-bit words. `front` buffers the
/// partially consumed word; its lowest `front_left` bits are the ones not
/// yet handed out.
pub struct BitIter<'a> {
    front: u32,
    source: &'a [u32],
    widx: usize,
    front_left: u8,
}

impl<'a> BitIter<'a> {
    pub closed spec fn wf(self) -> bool {
        self.front_left < 32 && self.widx <= self.source@.len()
    }

    /// The sequence of bits not yet consumed.
    pub closed spec fn bits(self) -> Seq<bool> {
        Seq::new(self.front_left as nat, |i: int| bit_of(self.front as nat, i)) + words_bits(
            self.source@.skip(self.widx as int),
        )
    }

    pub fn new(source: &'a [u32]) -> (r: Self)
        ensures
            r.wf(),
            r.bits() == words_bits(source@),
    {
        let r = Self { front: 0, source, widx: 0, front_left: 0 };
        proof {
            assert(r.bits() =~= words_bits(source@));
        }
        r
    }

    /// Consume one bit. The caller guarantees one is left: this variant has
    /// no end-of-stream check.
    pub fn next(&mut self) -> (r: bool)
        requires
            old(self).wf(),
            old(self).bits().len() > 0,
        ensures
            final(self).wf(),
            r == old(self).bits()[0],
            final(self).bits() == old(self).bits().skip(1),
    {
        let ghost orig = *self;
        if self.front_left == 0 {
            proof {
                assert(orig.source@.skip(orig.widx as int).len() > 0);
                assert(orig.bits() =~= words_bits(orig.source@.skip(orig.widx as int)));
            }
            let n_words = self.source.len();
            self.front = *vstd::slice::slice_index_get(self.source, self.widx);
            self.front_left = 32;
            self.widx = self.widx + 1;
        }
        let ghost mid = *self;
        let ret = self.front & 1 == 1;
        self.front_left = self.front_left - 1;
        self.front = self.front >> 1u32;
        proof {
            lemma_u32_shift_bits(mid.front);
            assert(self.bits() =~= mid.bits().skip(1)) by {
                assert forall|j: int| 0 <= j < self.bits().len() implies self.bits()[j]
                    == mid.bits()[j + 1] by {
                    let left = self.front_left as int;
                    if j < left {
                        assert(self.bits()[j] == bit_of(self.front as nat, j));
                        assert(mid.bits()[j + 1] == bit_of(mid.front as nat, j + 1));
                    } else {
                        let rest = words_bits(self.source@.skip(self.widx as int));
                        assert(self.bits()[j] == rest[j - left]);
                        assert(mid.bits()[j + 1] == rest[j + 1 - (left + 1)]);
                    }
                }
            }
            assert(mid.bits()[0] == bit_of(mid.front as nat, 0));
            if orig.front_left == 0 {
                let tail = orig.source@.skip(orig.widx as int);
                assert(mid.bits() =~= orig.bits()) by {
                    assert forall|j: int| 0 <= j < mid.bits().len() implies mid.bits()[j]
                        == orig.bits()[j] by {
                        if j < 32 {
                            assert(mid.bits()[j] == bit_of(mid.front as nat, j));
                            assert(orig.bits()[j] == bit_of(tail[j / 32] as nat, j % 32));
                            assert(j / 32 == 0 && j % 32 == j);
                        } else {
                            let rest = words_bits(mid.source@.skip(mid.widx as int));
                            assert(mid.bits()[j] == rest[j - 32]);
                            assert(mid.source@.skip(mid.widx as int) =~= tail.skip(1));
                            assert(rest[j - 32] == bit_of(
                                tail.skip(1)[(j - 32) / 32] as nat,
                                (j - 32) % 32,
                            ));
                            assert(tail.skip(1)[(j - 32) / 32] == tail[(j - 32) / 32 + 1]);
                            assert((j - 32) / 32 + 1 == j / 32 && (j - 32) % 32 == j % 32);
                            assert(orig.bits()[j] == bit_of(tail[j / 32] as nat, j % 32));
                        }
                    }
                }
            } else {
                assert(mid.bits() == orig.bits());
            }
        }
        ret
    }

    /// Discard the buffered remainder of the current byte. Only whole bytes
    /// of the current word are kept, so the stream resumes byte-aligned.
    pub fn skip_to_byte_start(&mut self)
        requires
            old(self).wf(),
        ensures
            final(self).wf(),
            final(self).bits() == old(self).bits().skip((old(self).bits().len() % 8) as int),
    {
        let rest_of_byte = self.front_left % 8;
        proof {
            let left = old(self).front_left as int;
            let rest = words_bits(old(self).source@.skip(old(self).widx as int));
            assert(rest.len() % 8 == 0);
            assert(old(self).bits().len() % 8 == left % 8);
        }
        self.take_into_usize(rest_of_byte);
    }

    /// Read `n` bits, packing them least significant first. The caller
    /// guarantees the payload holds them.
    pub fn take_into_u8(&mut self, n: u8) -> (r: u8)
        requires
            old(self).wf(),
            n <= 8,
            old(self).bits().len() >= n,
        ensures
            final(self).wf(),
            r == bits_value(old(self).bits().take(n as int)),
            final(self).bits() == old(self).bits().skip(n as int),
    {
        let ghost orig = self.bits();
        let mut ret: u8 = 0;
        let mut i: u8 = 0;
        while i < n
            invariant
                self.wf(),
                i <= n,
                n <= 8,
                orig == old(self).bits(),
                orig.len() >= n,
                self.bits() == orig.skip(i as int),
                ret == bits_value(orig.take(i as int)),
            decreases n - i,
        {
            let bit = self.next();
            proof {
                lemma_bits_value_bound(orig.take(i as int));
                lemma2_to64();
                lemma_pow2_le(i as nat, 7);
                lemma_u8_shl_is_mul(1u8, i);
                lemma_pow2_adds(i as nat, 1);
                assert(orig.take((i + 1) as int) =~= orig.take(i as int).push(orig[i as int]));
                crate::util::bititer::lemma_bits_value_snoc(orig.take(i as int), orig[i as int]);
                assert(orig.skip(i as int)[0] == orig[i as int]);
                assert(orig.skip(i as int).skip(1) =~= orig.skip(i + 1));
            }
            if bit {
                ret = ret + (1u8 << i);
            }
            i = i + 1;
        }
        ret
    }

    /// Read `n` bits into a `u16`, least significant first.
    pub fn take_into_u16(&mut self, n: u8) -> (r: u16)
        requires
            old(self).wf(),
            n <= 16,
            old(self).bits().len() >= n,
        ensures
            final(self).wf(),
            r == bits_value(old(self).bits().take(n as int)),
            final(self).bits() == old(self).bits().skip(n as int),
    {
        let ghost orig = self.bits();
        let mut ret: u16 = 0;
        let mut i: u8 = 0;
        while i < n
            invariant
                self.wf(),
                i <= n,
                n <= 16,
                orig == old(self).bits(),
                orig.len() >= n,
                self.bits() == orig.skip(i as int),
                ret == bits_value(orig.take(i as int)),
            decreases n - i,
        {
            let bit = self.next();
            proof {
                lemma_bits_value_bound(orig.take(i as int));
                lemma2_to64();
                lemma_pow2_le(i as nat, 15);
                lemma_u16_shl_is_mul(1u16, i as u16);
                lemma_pow2_adds(i as nat, 1);
                assert(orig.take((i + 1) as int) =~= orig.take(i as int).push(orig[i as int]));
                crate::util::bititer::lemma_bits_value_snoc(orig.take(i as int), orig[i as int]);
                assert(orig.skip(i as int)[0] == orig[i as int]);
                assert(orig.skip(i as int).skip(1) =~= orig.skip(i + 1));
            }
            if bit {
                ret = ret + (1u16 << i);
            }
            i = i + 1;
        }
        ret
    }

    /// Read `n` bits into a `usize`: up to a machine word's worth.
    pub fn take_into_usize(&mut self, n: u8) -> (r: usize)
        requires
            old(self).wf(),
            n as u32 <= usize::BITS,
            old(self).bits().len() >= n,
        ensures
            final(self).wf(),
            r == bits_value(old(self).bits().take(n as int)),
            final(self).bits() == old(self).bits().skip(n as int),
    {
        let ghost orig = self.bits();
        let mut ret: usize = 0;
        let mut i: u8 = 0;
        while i < n
            invariant
                self.wf(),
                i <= n,
                n as u32 <= usize::BITS,
                orig == old(self).bits(),
                orig.len() >= n,
                self.bits() == orig.skip(i as int),
                ret == bits_value(orig.take(i as int)),
            decreases n - i,
        {
            let bit = self.next();
            proof {
                lemma_bits_value_bound(orig.take(i as int));
                vstd::bits::lemma_usize_pow2_no_overflow(i as nat);
                vstd::bits::lemma_usize_shl_is_mul(1usize, i as usize);
                lemma_pow2_adds(i as nat, 1);
                lemma2_to64();
                vstd::layout::unsigned_int_max_values();
                if i + 1 == n {
                    assert(pow2(n as nat) <= pow2(usize::BITS as nat)) by {
                        if (n as nat) < usize::BITS as nat {
                            vstd::arithmetic::power2::lemma_pow2_strictly_increases(
                                n as nat,
                                usize::BITS as nat,
                            );
                        }
                    }
                } else {
                    vstd::bits::lemma_usize_pow2_no_overflow((i + 1) as nat);
                }
                assert(orig.take((i + 1) as int) =~= orig.take(i as int).push(orig[i as int]));
                crate::util::bititer::lemma_bits_value_snoc(orig.take(i as int), orig[i as int]);
                assert(orig.skip(i as int)[0] == orig[i as int]);
                assert(orig.skip(i as int).skip(1) =~= orig.skip(i + 1));
            }
            if bit {
                ret = ret + (1usize << i);
            }
            i = i + 1;
        }
        ret
    }
}

/// Shifting a word right by one drops its lowest bit and moves every other
/// bit down one place.
proof fn lemma_u32_shift_bits(w: u32)
    ensures
        forall|i: int| 0 <= i ==> bit_of((w >> 1u32) as nat, i) == bit_of(w as nat, i + 1),
        (w & 1 == 1) == bit_of(w as nat, 0),
{
    lemma2_to64();
    lemma_u32_shr_is_div(w, 1);
    assert((w & 1 == 1) == (w % 2 == 1)) by (bit_vector);
    assert(pow2(0) == 1);
    assert(w as nat / pow2(0) == w as nat);
    assert((w as nat) % 2 == (w % 2) as nat);
    assert forall|i: int| 0 <= i implies bit_of((w >> 1u32) as nat, i) == bit_of(w as nat, i + 1)
    by {
        lemma_pow2_pos(i as nat);
        lemma_div_denominator(w as int, 2, pow2(i as nat) as int);
        lemma_pow2_adds(1, i as nat);
    }
}

} // verus!
