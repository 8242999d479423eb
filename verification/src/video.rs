//! The DEFLATE decompression engine: canonical Huffman trees, the block
//! decoder with its LZ77 back-reference copy, and the driver that walks the
//! block structure of a compressed image.

pub mod bititer;

use crate::file::RomFile;
use crate::util::bititer::{bit_of, bits_value, lemma_bits_value_bound, lemma_pow2_le, BitIter};
use vstd::arithmetic::power2::{lemma2_to64, lemma_pow2_adds, lemma_pow2_pos, pow2};
use vstd::bits::{lemma_u16_shr_is_div, lemma_u64_shr_is_div};
use vstd::prelude::*;

verus! {

/// A prefix-code tree. Every leaf holds the symbol its root-to-leaf bit path
/// decodes to; `false` selects the left child, `true` the right.
#[derive(Debug)]
pub enum HuffmanTreeEntry {
    Leaf(u16),
    Internal { left: Box<HuffmanTreeEntry>, right: Box<HuffmanTreeEntry> },
}

/// The symbol reached by walking `path` from the root of `t`, if the walk
/// lands exactly on a leaf.
pub open spec fn tree_lookup(t: HuffmanTreeEntry, path: Seq<bool>) -> Option<u16>
    decreases t,
{
    match t {
        HuffmanTreeEntry::Leaf(v) => if path.len() == 0 {
            Some(v)
        } else {
            None
        },
        HuffmanTreeEntry::Internal { left, right } => if path.len() == 0 {
            None
        } else if !path[0] {
            tree_lookup(*left, path.skip(1))
        } else {
            tree_lookup(*right, path.skip(1))
        },
    }
}

/// Walk `t` consuming bits from the front of `stream` until a leaf: the
/// decoded symbol and the number of bits consumed. `None` when the stream
/// runs out on an internal node.
pub open spec fn tree_walk(t: HuffmanTreeEntry, stream: Seq<bool>) -> Option<(u16, nat)>
    decreases t,
{
    match t {
        HuffmanTreeEntry::Leaf(v) => Some((v, 0)),
        HuffmanTreeEntry::Internal { left, right } => if stream.len() == 0 {
            None
        } else {
            let sub = if !stream[0] {
                *left
            } else {
                *right
            };
            match tree_walk(sub, stream.skip(1)) {
                Some(p) => Some((p.0, p.1 + 1)),
                None => None,
            }
        },
    }
}

/// A successful walk consumes the unique prefix of the stream that the tree
/// maps to a leaf.
pub proof fn lemma_walk_lookup(t: HuffmanTreeEntry, stream: Seq<bool>)
    requires
        tree_walk(t, stream).is_some(),
    ensures
        tree_walk(t, stream).unwrap().1 <= stream.len(),
        tree_lookup(t, stream.take(tree_walk(t, stream).unwrap().1 as int)) == Some(
            tree_walk(t, stream).unwrap().0,
        ),
    decreases t,
{
    match t {
        HuffmanTreeEntry::Leaf(v) => {
            assert(stream.take(0) =~= Seq::<bool>::empty());
        },
        HuffmanTreeEntry::Internal { left, right } => {
            let sub = if !stream[0] {
                *left
            } else {
                *right
            };
            lemma_walk_lookup(sub, stream.skip(1));
            let n = tree_walk(sub, stream.skip(1)).unwrap().1;
            assert(stream.take(n as int + 1)[0] == stream[0]);
            assert(stream.take(n as int + 1).skip(1) =~= stream.skip(1).take(n as int));
        },
    }
}

/// Conversely, if some prefix of the stream reaches a leaf, the walk
/// succeeds and consumes exactly that prefix.
pub proof fn lemma_lookup_walk(t: HuffmanTreeEntry, stream: Seq<bool>, n: int)
    requires
        0 <= n <= stream.len(),
        tree_lookup(t, stream.take(n)).is_some(),
    ensures
        tree_walk(t, stream) == Some((tree_lookup(t, stream.take(n)).unwrap(), n as nat)),
    decreases t,
{
    match t {
        HuffmanTreeEntry::Leaf(v) => {
            assert(n == 0);
        },
        HuffmanTreeEntry::Internal { left, right } => {
            assert(n > 0);
            assert(stream.take(n)[0] == stream[0]);
            let sub = if !stream[0] {
                *left
            } else {
                *right
            };
            assert(stream.take(n).skip(1) =~= stream.skip(1).take(n - 1));
            lemma_lookup_walk(sub, stream.skip(1), n - 1);
        },
    }
}

/// The bit path of the lowest `len` bits of `code`, most significant first:
/// the order in which a canonical Huffman code is transmitted.
pub open spec fn code_path(code: nat, len: nat) -> Seq<bool> {
    Seq::new(len, |j: int| bit_of(code, len - 1 - j))
}

/// Inserting `v` at `path` grows internal nodes on demand along the path and
/// plants a leaf at its end, as `replace_entry` does.
pub open spec fn spec_insert(t: HuffmanTreeEntry, path: Seq<bool>, v: u16) -> HuffmanTreeEntry
    decreases path.len(),
{
    if path.len() == 0 {
        HuffmanTreeEntry::Leaf(v)
    } else {
        let (l, r) = match t {
            HuffmanTreeEntry::Internal { left, right } => (*left, *right),
            HuffmanTreeEntry::Leaf(_) => (HuffmanTreeEntry::Leaf(0u16), HuffmanTreeEntry::Leaf(
                0u16,
            )),
        };
        if !path[0] {
            HuffmanTreeEntry::Internal {
                left: Box::new(spec_insert(l, path.skip(1), v)),
                right: Box::new(r),
            }
        } else {
            HuffmanTreeEntry::Internal {
                left: Box::new(l),
                right: Box::new(spec_insert(r, path.skip(1), v)),
            }
        }
    }
}

/// `a` is an initial segment of `b`.
pub open spec fn is_prefix_of(a: Seq<bool>, b: Seq<bool>) -> bool {
    a.len() <= b.len() && a == b.take(a.len() as int)
}

/// Looking up the inserted path finds the inserted symbol.
pub proof fn lemma_insert_lookup(t: HuffmanTreeEntry, path: Seq<bool>, v: u16)
    ensures
        tree_lookup(spec_insert(t, path, v), path) == Some(v),
    decreases path.len(),
{
    if path.len() > 0 {
        let (l, r) = match t {
            HuffmanTreeEntry::Internal { left, right } => (*left, *right),
            HuffmanTreeEntry::Leaf(_) => (HuffmanTreeEntry::Leaf(0u16), HuffmanTreeEntry::Leaf(
                0u16,
            )),
        };
        if !path[0] {
            lemma_insert_lookup(l, path.skip(1), v);
        } else {
            lemma_insert_lookup(r, path.skip(1), v);
        }
    }
}

/// Two nonempty sequences with equal heads are prefix-related exactly when
/// their tails are.
proof fn lemma_prefix_skip(a: Seq<bool>, b: Seq<bool>)
    requires
        a.len() > 0,
        b.len() > 0,
        a[0] == b[0],
    ensures
        is_prefix_of(a, b) == is_prefix_of(a.skip(1), b.skip(1)),
{
    if a.len() <= b.len() {
        if is_prefix_of(a, b) {
            assert(a.skip(1) =~= b.skip(1).take(a.len() - 1)) by {
                assert forall|j: int| 0 <= j < a.len() - 1 implies a.skip(1)[j] == b.skip(1).take(
                    a.len() - 1,
                )[j] by {
                    assert(a[j + 1] == b.take(a.len() as int)[j + 1]);
                }
            }
        }
        if is_prefix_of(a.skip(1), b.skip(1)) {
            assert(a =~= b.take(a.len() as int)) by {
                assert forall|j: int| 0 <= j < a.len() implies a[j] == b.take(a.len() as int)[j] by {
                    if j >= 1 {
                        assert(a.skip(1)[j - 1] == b.skip(1).take(a.len() - 1)[j - 1]);
                    }
                }
            }
        }
    }
}

/// Insertion preserves every decodable path that neither extends nor is
/// extended by the inserted one.
pub proof fn lemma_insert_frame(t: HuffmanTreeEntry, path: Seq<bool>, v: u16, q: Seq<bool>)
    requires
        !is_prefix_of(path, q),
        !is_prefix_of(q, path),
        tree_lookup(t, q).is_some(),
    ensures
        tree_lookup(spec_insert(t, path, v), q) == tree_lookup(t, q),
    decreases path.len(),
{
    assert(path.len() > 0) by {
        if path.len() == 0 {
            assert(path =~= q.take(0));
        }
    }
    assert(q.len() > 0) by {
        if q.len() == 0 {
            assert(q =~= path.take(0));
        }
    }
    // A nonempty decodable path forces an internal root.
    let (l, r) = match t {
        HuffmanTreeEntry::Internal { left, right } => (*left, *right),
        HuffmanTreeEntry::Leaf(_) => (HuffmanTreeEntry::Leaf(0u16), HuffmanTreeEntry::Leaf(0u16)),
    };
    assert(t is Internal);
    if path[0] == q[0] {
        assert(path.len() > 1) by {
            if path.len() == 1 {
                assert(path =~= q.take(1));
            }
        }
        assert(q.len() > 1) by {
            if q.len() == 1 {
                assert(q =~= path.take(1));
            }
        }
        lemma_prefix_skip(path, q);
        lemma_prefix_skip(q, path);
        if !path[0] {
            lemma_insert_frame(l, path.skip(1), v, q.skip(1));
        } else {
            lemma_insert_frame(r, path.skip(1), v, q.skip(1));
        }
    }
}

impl HuffmanTreeEntry {
    /// Building then looking up: every canonical code of `lengths` below 16 can
    /// be transmitted with a sixteen-bit register.
    pub fn from_code_lengths(lengths: &[u8]) -> (t: HuffmanTreeEntry)
        requires
            lengths@.len() <= 65535,
            forall|i: int| 0 <= i < lengths@.len() ==> lengths@[i] < 16,
        ensures
            t == spec_build_tree(lengths@),
    {
        let ghost s = lengths@;
        let n = lengths.len();

        let mut length_count: Vec<u32> = vec![0u32; 16];
        let mut idx: usize = 0;
        while idx < n
            invariant
                s == lengths@,
                n == s.len(),
                idx <= n,
                n <= 65535,
                forall|i: int| 0 <= i < s.len() ==> s[i] < 16,
                length_count@.len() == 16,
                forall|l: int| 0 <= l < 16 ==> length_count@[l] == count_len(s.take(idx as int), l),
            decreases n - idx,
        {
            let length = *vstd::slice::slice_index_get(lengths, idx);
            proof {
                lemma_count_len_le(s.take(idx as int), length as int);
                assert forall|l: int| 0 <= l < 16 implies count_len(s.take(idx as int + 1), l)
                    == count_len(s.take(idx as int), l) + (if s[idx as int] == l {
                    1nat
                } else {
                    0nat
                }) by {
                    lemma_count_len_take_step(s, l, idx as int);
                }
            }
            length_count[length as usize] = length_count[length as usize] + 1;
            idx = idx + 1;
        }
        proof {
            assert(s.take(n as int) =~= s);
        }
        length_count[0] = 0;

        let mut current_code: u64 = 0;
        let mut next_code_length: Vec<u64> = vec![0u64; 16];
        let mut bit: usize = 1;
        while bit < 16
            invariant
                s == lengths@,
                n == s.len(),
                n <= 65535,
                1 <= bit <= 16,
                length_count@.len() == 16,
                length_count@[0] == 0,
                forall|l: int| 1 <= l < 16 ==> length_count@[l] == count_len(s, l),
                next_code_length@.len() == 16,
                current_code == next_code(s, bit as int - 1),
                forall|l: int| 1 <= l < bit ==> next_code_length@[l] == next_code(s, l),
            decreases 16 - bit,
        {
            proof {
                if bit >= 2 {
                    lemma_next_code_bound(s, bit as int - 1);
                    lemma_count_len_le(s, bit as int - 1);
                    lemma_pow2_le((bit - 1) as nat, 15);
                    lemma2_to64();
                    assert((pow2((bit - 1) as nat) - 2) * s.len() <= (pow2(15) - 2) * 65535)
                        by (nonlinear_arith)
                        requires
                            pow2((bit - 1) as nat) <= pow2(15),
                            s.len() <= 65535,
                            pow2((bit - 1) as nat) >= 2,
                    ;
                }
                lemma_pow2_pos((bit - 1) as nat);
                lemma_count_len_le(s, bit as int - 1);
            }
            let sum: u64 = current_code + length_count[bit - 1] as u64;
            proof {
                lemma2_to64();
                vstd::bits::lemma_u64_shl_is_mul(sum, 1);
            }
            current_code = sum << 1u64;
            next_code_length[bit] = current_code;
            bit = bit + 1;
        }

        let mut root = HuffmanTreeEntry::Leaf(0);
        let mut i: usize = 0;
        while i < n
            invariant
                s == lengths@,
                n == s.len(),
                n <= 65535,
                i <= n,
                forall|k: int| 0 <= k < s.len() ==> s[k] < 16,
                next_code_length@.len() == 16,
                forall|l: int|
                    1 <= l < 16 ==> next_code_length@[l] == next_code(s, l) + count_len(
                        s.take(i as int),
                        l,
                    ),
                root == spec_build_up_to(s, i as int),
            decreases n - i,
        {
            let length = *vstd::slice::slice_index_get(lengths, i);
            if length != 0 {
                proof {
                    lemma_next_code_bound(s, length as int);
                    lemma_count_len_le(s.take(i as int), length as int);
                    lemma_pow2_le(length as nat, 15);
                    lemma2_to64();
                    assert((pow2(length as nat) - 2) * s.len() <= (pow2(15) - 2) * 65535)
                        by (nonlinear_arith)
                        requires
                            pow2(length as nat) <= pow2(15),
                            s.len() <= 65535,
                            pow2(length as nat) >= 2,
                    ;
                    lemma_pow2_pos(length as nat);
                }
                let code = next_code_length[length as usize];
                proof {
                    assert(code == code_of(s, i as int));
                    assert(code_path((code as u16) as nat, length as nat) =~= canonical_path(
                        s,
                        i as int,
                    )) by {
                        assert forall|j: int| 0 <= j < length as nat implies code_path(
                            (code as u16) as nat,
                            length as nat,
                        )[j] == canonical_path(s, i as int)[j] by {
                            lemma_u64_trunc16_bit(code, (length - 1 - j) as u16);
                        }
                    }
                }
                root.replace_entry(#[verifier::truncate] (code as u16), length, i as u16);
                next_code_length[length as usize] = code + 1;
            }
            proof {
                assert forall|l: int| 1 <= l < 16 implies count_len(s.take(i as int + 1), l)
                    == count_len(s.take(i as int), l) + (if s[i as int] == l {
                    1nat
                } else {
                    0nat
                }) by {
                    lemma_count_len_take_step(s, l, i as int);
                }
            }
            i = i + 1;
        }
        proof {
            assert(s.take(n as int) =~= s);
        }
        root
    }

    /// Step to the child selected by one bit. The input is trusted: stepping
    /// from a leaf would mean a corrupt stream, so callers must rule it out.
    pub fn next_bit(&self, bit: bool) -> (r: &HuffmanTreeEntry)
        requires
            self is Internal,
        ensures
            *r == (match *self {
                HuffmanTreeEntry::Internal { left, right } => if !bit {
                    *left
                } else {
                    *right
                },
                HuffmanTreeEntry::Leaf(_) => *self,
            }),
    {
        match self {
            HuffmanTreeEntry::Leaf(_) => {
                proof {
                    assert(false);
                }
                self
            },
            HuffmanTreeEntry::Internal { left, right } => {
                if !bit {
                    left
                } else {
                    right
                }
            },
        }
    }

    /// Decode one symbol, consuming exactly the bits of its code.
    pub fn decode_from_bits(&self, bits: &mut BitIter<'_>) -> (r: u16)
        requires
            old(bits).wf(),
            tree_walk(*self, old(bits).bits()).is_some(),
        ensures
            final(bits).wf(),
            r == tree_walk(*self, old(bits).bits()).unwrap().0,
            final(bits).bits() == old(bits).bits().skip(
                tree_walk(*self, old(bits).bits()).unwrap().1 as int,
            ),
    {
        let ghost orig = old(bits).bits();
        let ghost w = tree_walk(*self, orig);
        let mut decoder: &HuffmanTreeEntry = self;
        let ghost mut consumed: int = 0;
        loop
            invariant
                bits.wf(),
                orig == old(bits).bits(),
                w == tree_walk(*self, orig),
                0 <= consumed <= orig.len(),
                bits.bits() == orig.skip(consumed),
                tree_walk(*decoder, bits.bits()).is_some(),
                w.is_some(),
                tree_walk(*decoder, bits.bits()).unwrap().0 == w.unwrap().0,
                consumed + tree_walk(*decoder, bits.bits()).unwrap().1 == w.unwrap().1,
            decreases *decoder,
        {
            match decoder {
                HuffmanTreeEntry::Leaf(x) => {
                    return *x;
                },
                HuffmanTreeEntry::Internal { left, right } => {
                    proof {
                        assert(bits.bits().len() > 0);
                    }
                    let bit = bits.next().unwrap();
                    decoder = decoder.next_bit(bit);
                    proof {
                        consumed = consumed + 1;
                        assert(bits.bits() =~= orig.skip(consumed));
                    }
                },
            }
        }
    }

    /// Plant `value` at the path spelled by the lowest `in_code_len` bits of
    /// `code` (most significant first), growing internal nodes on demand.
    pub fn replace_entry(&mut self, code: u16, in_code_len: u8, value: u16)
        requires
            in_code_len <= 15,
        ensures
            *final(self) == spec_insert(
                *old(self),
                code_path(code as nat, in_code_len as nat),
                value,
            ),
    {
        let mut tmp = HuffmanTreeEntry::Leaf(0);
        core::mem::swap(self, &mut tmp);
        *self = Self::insert_code(tmp, code, in_code_len, value);
    }

    /// The recursion behind `replace_entry`, carrying the subtree by value.
    fn insert_code(t: HuffmanTreeEntry, code: u16, in_code_len: u8, value: u16) -> (r:
        HuffmanTreeEntry)
        requires
            in_code_len <= 15,
        ensures
            r == spec_insert(t, code_path(code as nat, in_code_len as nat), value),
        decreases in_code_len,
    {
        let ghost path = code_path(code as nat, in_code_len as nat);
        if in_code_len == 0 {
            HuffmanTreeEntry::Leaf(value)
        } else {
            let bit = (code >> ((in_code_len - 1) as u16)) & 1;
            proof {
                lemma_u16_shift_bit(code, (in_code_len - 1) as u16);
                assert(path[0] == bit_of(code as nat, in_code_len - 1));
                assert(path.skip(1) =~= code_path(code as nat, (in_code_len - 1) as nat));
            }
            let (l, r) = match t {
                HuffmanTreeEntry::Internal { left, right } => (left, right),
                HuffmanTreeEntry::Leaf(_) => (
                    Box::new(HuffmanTreeEntry::Leaf(0)),
                    Box::new(HuffmanTreeEntry::Leaf(0)),
                ),
            };
            if bit == 0 {
                HuffmanTreeEntry::Internal {
                    left: Box::new(Self::insert_code(*l, code, in_code_len - 1, value)),
                    right: r,
                }
            } else {
                HuffmanTreeEntry::Internal {
                    left: l,
                    right: Box::new(Self::insert_code(*r, code, in_code_len - 1, value)),
                }
            }
        }
    }
}

/// The Kraft weight of a code-length table, scaled by `pow2(15)`: each
/// used symbol of length `l` contributes `pow2(15 - l)`.
pub open spec fn kraft_sum(s: Seq<u8>) -> nat
    decreases s.len(),
{
    if s.len() == 0 {
        0
    } else {
        kraft_sum(s.drop_last()) + (if s.last() == 0 {
            0nat
        } else {
            pow2((15 - s.last()) as nat)
        })
    }
}

/// An admissible code-length table: lengths below 16 whose scaled Kraft
/// weights fit the code space.
pub open spec fn kraft_ok(s: Seq<u8>) -> bool {
    (forall|i: int| 0 <= i < s.len() ==> s[i] < 16) && kraft_sum(s) <= pow2(15)
}

/// The scaled weight of the length classes up to `l`.
spec fn weight_sum(s: Seq<u8>, l: int) -> nat
    decreases l,
{
    if l <= 0 {
        0
    } else {
        weight_sum(s, l - 1) + count_len(s, l) * pow2((15 - l) as nat)
    }
}

proof fn lemma_weight_push(s: Seq<u8>, l: int)
    requires
        s.len() > 0,
        0 <= l <= 15,
        s.last() < 16,
    ensures
        weight_sum(s, l) == weight_sum(s.drop_last(), l) + (if 1 <= s.last() <= l {
            pow2((15 - s.last()) as nat)
        } else {
            0nat
        }),
    decreases l,
{
    if l > 0 {
        lemma_weight_push(s, l - 1);
        let p = pow2((15 - l) as nat) as int;
        let c = count_len(s.drop_last(), l) as int;
        if s.last() == l {
            assert((c + 1) * p == c * p + p) by (nonlinear_arith);
        }
    }
}

proof fn lemma_weight_empty(s: Seq<u8>, l: int)
    requires
        s.len() == 0,
    ensures
        weight_sum(s, l) == 0,
    decreases l,
{
    if l > 0 {
        lemma_weight_empty(s, l - 1);
        assert(count_len(s, l) == 0);
        assert(count_len(s, l) * pow2((15 - l) as nat) == 0);
    }
}

/// Summing weights by symbol or by length class gives the same total.
proof fn lemma_kraft_is_weight(s: Seq<u8>)
    requires
        forall|i: int| 0 <= i < s.len() ==> s[i] < 16,
    ensures
        kraft_sum(s) == weight_sum(s, 15),
    decreases s.len(),
{
    if s.len() == 0 {
        lemma_weight_empty(s, 15);
    } else {
        assert forall|i: int| 0 <= i < s.drop_last().len() implies s.drop_last()[i] < 16 by {
            assert(s.drop_last()[i] == s[i]);
        }
        lemma_kraft_is_weight(s.drop_last());
        lemma_weight_push(s, 15);
    }
}

proof fn lemma_weight_mono(s: Seq<u8>, l1: int, l2: int)
    requires
        0 <= l1 <= l2,
    ensures
        weight_sum(s, l1) <= weight_sum(s, l2),
    decreases l2 - l1,
{
    if l1 < l2 {
        lemma_weight_mono(s, l1, l2 - 1);
    }
}

/// The first code of each length class sits exactly past the scaled weight
/// of all shorter classes.
proof fn lemma_next_code_weight(s: Seq<u8>, l: int)
    requires
        1 <= l <= 15,
    ensures
        next_code(s, l) * pow2((15 - l) as nat) == weight_sum(s, l - 1),
    decreases l,
{
    if l == 1 {
        assert(next_code(s, 1) == 0);
    } else {
        lemma_next_code_weight(s, l - 1);
        let a = next_code(s, l - 1) as int;
        let b = count_len(s, l - 1) as int;
        let p = pow2((15 - l) as nat) as int;
        let pp = pow2((15 - (l - 1)) as nat) as int;
        lemma_pow2_adds(1, (15 - l) as nat);
        lemma2_to64();
        assert(pp == 2 * p);
        assert((2 * (a + b)) * p == a * pp + b * pp) by (nonlinear_arith)
            requires
                pp == 2 * p,
        ;
    }
}

/// Under the Kraft inequality every length class fits inside the code
/// space of its length.
proof fn lemma_class_cap(s: Seq<u8>, l: int)
    requires
        kraft_ok(s),
        1 <= l <= 15,
    ensures
        next_code(s, l) + count_len(s, l) <= pow2(l as nat),
{
    lemma_next_code_weight(s, l);
    lemma_kraft_is_weight(s);
    lemma_weight_mono(s, l, 15);
    let a = next_code(s, l) as int;
    let b = count_len(s, l) as int;
    let p = pow2((15 - l) as nat) as int;
    lemma_pow2_pos((15 - l) as nat);
    lemma_pow2_adds(l as nat, (15 - l) as nat);
    assert((a + b) * p == a * p + b * p) by (nonlinear_arith);
    assert((a + b) * p <= pow2(15));
    assert(pow2(15) == pow2(l as nat) * p);
    assert(a + b <= pow2(l as nat)) by (nonlinear_arith)
        requires
            (a + b) * p <= pow2(l as nat) * p,
            p >= 1,
    ;
}

/// An earlier symbol of the same class has a strictly smaller rank.
proof fn lemma_rank_lt(s: Seq<u8>, k: int)
    requires
        0 <= k < s.len(),
    ensures
        count_len(s.take(k), s[k] as int) < count_len(s, s[k] as int),
{
    lemma_count_len_take_step(s, s[k] as int, k);
    lemma_count_len_take_le(s, s[k] as int, k + 1, s.len() as int);
    assert(s.take(s.len() as int) =~= s);
}

/// A used symbol's canonical code stays inside its length's code space.
proof fn lemma_code_of_range(s: Seq<u8>, k: int)
    requires
        kraft_ok(s),
        0 <= k < s.len(),
        s[k] != 0,
    ensures
        code_of(s, k) + 1 <= next_code(s, s[k] as int) + count_len(s, s[k] as int),
        code_of(s, k) < pow2(s[k] as nat),
{
    lemma_rank_lt(s, k);
    lemma_class_cap(s, s[k] as int);
}

/// A prefix of a code path is the path of the shifted-down code.
proof fn lemma_code_path_take(c: nat, big: nat, small: nat)
    requires
        small <= big,
    ensures
        code_path(c, big).take(small as int) == code_path(c / pow2((big - small) as nat), small),
{
    assert(code_path(c, big).take(small as int) =~= code_path(
        c / pow2((big - small) as nat),
        small,
    )) by {
        assert forall|m: int| 0 <= m < small implies code_path(c, big).take(small as int)[m]
            == code_path(c / pow2((big - small) as nat), small)[m] by {
            lemma_pow2_pos((big - small) as nat);
            lemma_pow2_pos((small - 1 - m) as nat);
            vstd::arithmetic::div_mod::lemma_div_denominator(
                c as int,
                pow2((big - small) as nat) as int,
                pow2((small - 1 - m) as nat) as int,
            );
            lemma_pow2_adds((big - small) as nat, (small - 1 - m) as nat);
        }
    }
}

/// A code path of a given length determines its code.
proof fn lemma_code_path_inj(a: nat, b: nat, n: nat)
    requires
        a < pow2(n),
        b < pow2(n),
        code_path(a, n) == code_path(b, n),
    ensures
        a == b,
    decreases n,
{
    lemma2_to64();
    if n == 0 {
    } else {
        assert(code_path(a, n)[n - 1] == bit_of(a, 0));
        assert(code_path(b, n)[n - 1] == bit_of(b, 0));
        assert(a % 2 == b % 2) by {
            assert(a / pow2(0) == a && b / pow2(0) == b);
        }
        lemma_code_path_take(a, n, (n - 1) as nat);
        lemma_code_path_take(b, n, (n - 1) as nat);
        assert(pow2(1) == 2);
        assert(code_path(a / 2, (n - 1) as nat) == code_path(b / 2, (n - 1) as nat));
        lemma_pow2_adds(1, (n - 1) as nat);
        lemma_code_path_inj(a / 2, b / 2, (n - 1) as nat);
    }
}

/// Two distinct used symbols never get prefix-related canonical codes: the
/// length classes occupy disjoint, consecutively scaled code intervals.
proof fn lemma_canonical_prefix_free(s: Seq<u8>, k: int, j: int)
    requires
        kraft_ok(s),
        0 <= k < s.len(),
        0 <= j < s.len(),
        k != j,
        s[k] != 0,
        s[j] != 0,
    ensures
        !is_prefix_of(canonical_path(s, k), canonical_path(s, j)),
{
    let lk = s[k] as nat;
    let lj = s[j] as nat;
    let ck = code_of(s, k);
    let cj = code_of(s, j);
    lemma_code_of_range(s, k);
    lemma_code_of_range(s, j);
    lemma2_to64();
    if is_prefix_of(canonical_path(s, k), canonical_path(s, j)) {
        assert(lk <= lj);
        let d = (lj - lk) as nat;
        let dd = pow2(d) as int;
        lemma_pow2_pos(d);
        lemma_code_path_take(cj, lj, lk);
        assert(code_path(cj / pow2(d), lk) == code_path(ck, lk));
        lemma_pow2_adds(d, lk);
        lemma_pow2_pos(lk);
        assert(cj / pow2(d) < pow2(lk)) by (nonlinear_arith)
            requires
                cj < pow2(lj),
                pow2(lj) == pow2(d) * pow2(lk),
                pow2(d) >= 1,
                pow2(lk) >= 1,
        ;
        lemma_code_path_inj(cj / pow2(d), ck, lk);
        assert(cj / pow2(d) == ck);
        vstd::arithmetic::div_mod::lemma_fundamental_div_mod(cj as int, dd);
        vstd::arithmetic::div_mod::lemma_mod_bound(cj as int, dd);
        assert(dd * (ck as int) <= cj < dd * (ck as int + 1)) by (nonlinear_arith)
            requires
                cj == dd * (cj as int / dd) + cj as int % dd,
                cj as int / dd == ck,
                0 <= cj as int % dd < dd,
        ;
        if lk == lj {
            // Same class: ranks differ, so codes differ.
            assert(dd == 1);
            assert(cj == ck);
            assert(next_code(s, s[k] as int) == next_code(s, s[j] as int));
            if k < j {
                lemma_count_len_take_step(s, s[j] as int, k);
                lemma_count_len_take_le(s, s[j] as int, k + 1, j);
                assert(count_len(s.take(j), s[j] as int) > count_len(s.take(k), s[k] as int));
            } else {
                lemma_count_len_take_step(s, s[k] as int, j);
                lemma_count_len_take_le(s, s[k] as int, j + 1, k);
                assert(count_len(s.take(k), s[k] as int) > count_len(s.take(j), s[j] as int));
            }
            assert(false);
        } else {
            // Shorter class: symbol j's scaled code starts past the whole
            // interval of symbol k's class.
            let pk = pow2((15 - lk) as nat) as int;
            let pj = pow2((15 - lj) as nat) as int;
            lemma_pow2_pos((15 - lk) as nat);
            lemma_pow2_pos((15 - lj) as nat);
            lemma_next_code_weight(s, lj as int);
            lemma_next_code_weight(s, lk as int);
            lemma_weight_mono(s, lk as int, lj as int - 1);
            assert(weight_sum(s, lk as int) == next_code(s, lk as int) * pk + count_len(
                s,
                lk as int,
            ) * pk);
            assert(cj as int * pj >= next_code(s, lj as int) * pj) by (nonlinear_arith)
                requires
                    cj >= next_code(s, lj as int),
                    pj >= 1,
            ;
            assert((ck as int + 1) * pk <= (next_code(s, lk as int) + count_len(
                s,
                lk as int,
            )) * pk) by (nonlinear_arith)
                requires
                    ck as int + 1 <= next_code(s, lk as int) + count_len(s, lk as int),
                    pk >= 1,
            ;
            assert((next_code(s, lk as int) + count_len(s, lk as int)) * pk == next_code(
                s,
                lk as int,
            ) * pk + count_len(s, lk as int) * pk) by (nonlinear_arith);
            assert(cj as int * pj >= (ck as int + 1) * pk);
            lemma_pow2_adds(d, (15 - lj) as nat);
            assert(pk == dd * pj);
            assert(cj as int * pj < (ck as int + 1) * pk) by (nonlinear_arith)
                requires
                    cj < dd * (ck as int + 1),
                    pk == dd * pj,
                    pj >= 1,
            ;
        }
    }
}

/// Every used symbol is decodable from the canonical tree at its own path.
proof fn lemma_canonical_lookup_upto(s: Seq<u8>, k: int, i: int)
    requires
        kraft_ok(s),
        s.len() <= 65535,
        0 <= k < i <= s.len(),
        s[k] != 0,
    ensures
        tree_lookup(spec_build_up_to(s, i), canonical_path(s, k)) == Some(k as u16),
    decreases i,
{
    if i == k + 1 {
        lemma_insert_lookup(spec_build_up_to(s, k), canonical_path(s, k), k as u16);
    } else {
        lemma_canonical_lookup_upto(s, k, i - 1);
        if s[i - 1] != 0 {
            lemma_canonical_prefix_free(s, i - 1, k);
            lemma_canonical_prefix_free(s, k, i - 1);
            lemma_insert_frame(
                spec_build_up_to(s, i - 1),
                canonical_path(s, i - 1),
                (i - 1) as u16,
                canonical_path(s, k),
            );
        }
    }
}

/// Building then decoding recovers every symbol at its assigned length:
/// for any code-length table satisfying the Kraft inequality, a stream
/// that starts with symbol `k`'s canonical code decodes to `k` consuming
/// exactly `s[k]` bits.
pub proof fn lemma_build_then_decode(s: Seq<u8>, k: int, stream: Seq<bool>)
    requires
        kraft_ok(s),
        s.len() <= 65535,
        0 <= k < s.len(),
        s[k] != 0,
        stream.len() >= s[k],
        stream.take(s[k] as int) == canonical_path(s, k),
    ensures
        tree_walk(spec_build_tree(s), stream) == Some((k as u16, s[k] as nat)),
{
    lemma_canonical_lookup_upto(s, k, s.len() as int);
    lemma_lookup_walk(spec_build_tree(s), stream, s[k] as int);
}

/// The low byte of an output word.
pub open spec fn word_lo(w: u16) -> u8 {
    (w as nat % 256) as u8
}

/// The high byte of an output word.
pub open spec fn word_hi(w: u16) -> u8 {
    (w as nat / 256) as u8
}

/// The byte stream a sequence of 16-bit output words carries: low byte
/// first within each word.
pub open spec fn words_bytes(ws: Seq<u16>) -> Seq<u8> {
    Seq::new(
        ws.len() * 2,
        |i: int|
            if i % 2 == 0 {
                word_lo(ws[i / 2])
            } else {
                word_hi(ws[i / 2])
            },
    )
}

/// One LZ77 step: append the byte `dist` places back from the cursor.
pub open spec fn lz77_step(out: Seq<u8>, dist: nat) -> Seq<u8> {
    out.push(out[out.len() - dist])
}

/// `len` LZ77 steps. Because each step re-reads the stream it extends, an
/// overlapping copy repeats the bytes it produced itself.
pub open spec fn lz77_run(out: Seq<u8>, dist: nat, len: nat) -> Seq<u8>
    decreases len,
{
    if len == 0 {
        out
    } else {
        lz77_run(lz77_step(out, dist), dist, (len - 1) as nat)
    }
}

pub proof fn lemma_lz77_run_len(out: Seq<u8>, dist: nat, len: nat)
    ensures
        lz77_run(out, dist, len).len() == out.len() + len,
    decreases len,
{
    if len > 0 {
        lemma_lz77_run_len(lz77_step(out, dist), dist, (len - 1) as nat);
    }
}

/// A run of `len + 1` steps is a run of `len` steps followed by one more.
pub proof fn lemma_lz77_run_snoc(out: Seq<u8>, dist: nat, len: nat)
    ensures
        lz77_run(out, dist, len + 1) == lz77_step(lz77_run(out, dist, len), dist),
    decreases len,
{
    if len == 0 {
        assert(lz77_run(lz77_step(out, dist), dist, 0) == lz77_step(out, dist));
    } else {
        lemma_lz77_run_snoc(lz77_step(out, dist), dist, (len - 1) as nat);
        assert(lz77_run(out, dist, len + 1) == lz77_run(lz77_step(out, dist), dist, len));
        assert(lz77_run(out, dist, len) == lz77_run(lz77_step(out, dist), dist, (len - 1) as nat));
    }
}

/// A pure run: a back-reference at distance one repeats the most recent
/// byte, however long the copy and wherever the output cursor stands.
pub proof fn lemma_lz77_run_repeats(out: Seq<u8>, len: nat)
    requires
        out.len() >= 1,
    ensures
        lz77_run(out, 1, len) == out + Seq::new(len, |i: int| out.last()),
    decreases len,
{
    if len == 0 {
        assert(lz77_run(out, 1, 0) =~= out + Seq::new(0, |i: int| out.last()));
    } else {
        lemma_lz77_run_repeats(out, (len - 1) as nat);
        lemma_lz77_run_snoc(out, 1, (len - 1) as nat);
        lemma_lz77_run_len(out, 1, (len - 1) as nat);
        assert(lz77_step(lz77_run(out, 1, (len - 1) as nat), 1) =~= out + Seq::new(
            len,
            |i: int| out.last(),
        ));
    }
}

/// Per-image decode state: the output window accumulated as whole 16-bit
/// words, the pending low byte and its parity flag, the final-block flag,
/// and the two code-length tables of the block being decoded.
pub struct BlockDecodeState {
    pub vram: Vec<u16>,
    pub vram_data: u16,
    pub vram_parity: bool,
    pub last_block: bool,
    pub literal_code_lengths: Vec<u8>,
    pub distance_code_lengths: Vec<u8>,
}

impl BlockDecodeState {
    /// When a byte is pending, only the low half of the accumulator is
    /// meaningful.
    pub open spec fn wf(self) -> bool {
        self.vram_parity ==> self.vram_data < 256
    }

    /// Every byte handed to the output path so far: the committed words
    /// split back into bytes, then the pending unflushed byte, if any.
    pub open spec fn out_bytes(self) -> Seq<u8> {
        words_bytes(self.vram@) + if self.vram_parity {
            seq![self.vram_data as u8]
        } else {
            Seq::empty()
        }
    }

    /// All bytes handed to the output path, the pending byte included: the
    /// plain-buffer view of the output window.
    pub fn output_bytes(&self) -> (r: Vec<u8>)
        requires
            self.wf(),
        ensures
            r@ == self.out_bytes(),
    {
        let mut r: Vec<u8> = Vec::new();
        let mut k: usize = 0;
        while k < self.vram.len()
            invariant
                k <= self.vram@.len(),
                r@ == words_bytes(self.vram@.take(k as int)),
            decreases self.vram@.len() - k,
        {
            let w = self.vram[k];
            proof {
                assert(w & 0xFF == w % 256) by (bit_vector);
                lemma_u16_shr_is_div(w, 8);
                lemma2_to64();
            }
            r.push((w & 0xFF) as u8);
            r.push((w >> 8u16) as u8);
            proof {
                assert(r@ =~= words_bytes(self.vram@.take(k as int + 1)));
            }
            k = k + 1;
        }
        proof {
            assert(self.vram@.take(self.vram@.len() as int) =~= self.vram@);
        }
        if self.vram_parity {
            r.push(self.vram_data as u8);
        }
        proof {
            assert(r@ =~= self.out_bytes());
        }
        r
    }
}

/// Accumulate one byte; every second byte commits a full 16-bit word to the
/// output window.
pub fn write_to_vram(state: &mut BlockDecodeState, in_value: u8)
    requires
        old(state).wf(),
    ensures
        final(state).wf(),
        final(state).out_bytes() == old(state).out_bytes().push(in_value),
        final(state).last_block == old(state).last_block,
        final(state).literal_code_lengths == old(state).literal_code_lengths,
        final(state).distance_code_lengths == old(state).distance_code_lengths,
{
    let value = in_value as u16;
    if !state.vram_parity {
        state.vram_data = value;
        state.vram_parity = true;
        proof {
            assert(state.out_bytes() =~= old(state).out_bytes().push(in_value));
        }
    } else {
        let d = state.vram_data;
        let w = d | (value << 8u16);
        proof {
            assert(w & 0xFF == d && (w >> 8u16) == value) by (bit_vector)
                requires
                    w == d | (value << 8u16),
                    d < 256,
                    value < 256,
            ;
            assert(w & 0xFF == w % 256) by (bit_vector);
            lemma_u16_shr_is_div(w, 8);
            lemma2_to64();
        }
        state.vram_data = w;
        state.vram.push(w);
        state.vram_parity = false;
        proof {
            assert(state.out_bytes() =~= old(state).out_bytes().push(in_value));
        }
    }
}

/// Read back one byte already handed to the output path, committed or still
/// pending in the accumulator.
fn read_back_byte(state: &BlockDecodeState, pos: usize) -> (b: u8)
    requires
        state.wf(),
        pos < state.out_bytes().len(),
    ensures
        b == state.out_bytes()[pos as int],
{
    if pos / 2 < state.vram.len() {
        let w = state.vram[pos / 2];
        if pos % 2 == 0 {
            proof {
                assert(w & 0xFF == w % 256) by (bit_vector);
            }
            (w & 0xFF) as u8
        } else {
            proof {
                lemma_u16_shr_is_div(w, 8);
                lemma2_to64();
            }
            (w >> 8u16) as u8
        }
    } else {
        proof {
            assert(pos == 2 * state.vram@.len());
        }
        state.vram_data as u8
    }
}

/// How many extra bits follow length symbol `sym` (257 through 285).
pub open spec fn length_extra_bits(sym: int) -> nat {
    if sym <= 264 {
        0
    } else if sym <= 268 {
        1
    } else if sym <= 272 {
        2
    } else if sym <= 276 {
        3
    } else if sym <= 280 {
        4
    } else if sym <= 284 {
        5
    } else {
        0
    }
}

/// The copy length encoded by length symbol `sym` with extra-bits value `e`.
pub open spec fn length_of(sym: int, e: nat) -> nat {
    if sym <= 264 {
        (sym - 254) as nat
    } else if sym <= 268 {
        ((sym - 265) * 2) as nat + e + 11
    } else if sym <= 272 {
        ((sym - 269) * 4) as nat + e + 19
    } else if sym <= 276 {
        ((sym - 273) * 8) as nat + e + 35
    } else if sym <= 280 {
        ((sym - 277) * 16) as nat + e + 67
    } else if sym <= 284 {
        ((sym - 281) * 32) as nat + e + 131
    } else {
        258
    }
}

/// How many extra bits follow distance symbol `sym` (0 through 29).
pub open spec fn dist_extra_bits(sym: int) -> nat {
    if sym <= 3 {
        0
    } else {
        ((sym - 4) / 2 + 1) as nat
    }
}

/// The back-reference distance encoded by distance symbol `sym` with
/// extra-bits value `e`.
pub open spec fn dist_of(sym: int, e: nat) -> nat {
    if sym <= 3 {
        (sym + 1) as nat
    } else {
        let k = ((sym - 4) / 2 + 1) as nat;
        (((sym - 4) % 2) as nat) * pow2(k) + e + pow2((k + 1) as nat) + 1
    }
}

/// Decode a distance at the front of `stream`: walk the distance tree, then
/// read the symbol's extra bits. The result pairs the distance with the
/// total number of bits consumed; `None` when the stream cannot supply it.
pub open spec fn spec_read_distance(dtree: HuffmanTreeEntry, stream: Seq<bool>) -> Option<
    (nat, nat),
> {
    match tree_walk(dtree, stream) {
        None => None,
        Some((dsym, n)) => {
            if dsym <= 29 {
                let k = dist_extra_bits(dsym as int);
                if stream.len() >= n + k {
                    let e = bits_value(stream.subrange(n as int, (n + k) as int));
                    Some((dist_of(dsym as int, e), n + k))
                } else {
                    None
                }
            } else {
                None
            }
        },
    }
}

/// Shift a symbol's group offset up, read the group's extra bits into the
/// low positions, and add the table base: the common shape of every length
/// and distance group with extra bits.
fn extend_with_extra_bits(bits: &mut BitIter<'_>, d0: u16, k: u8, base: u16) -> (r: u16)
    requires
        old(bits).wf(),
        1 <= k <= 13,
        old(bits).bits().len() >= k,
        d0 < 16,
        d0 * pow2(k as nat) + pow2(k as nat) + base <= 65536,
    ensures
        final(bits).wf(),
        final(bits).bits() == old(bits).bits().skip(k as int),
        r as nat == d0 * pow2(k as nat) + bits_value(old(bits).bits().take(k as int)) + base,
{
    proof {
        lemma_pow2_le(k as nat, 13);
        lemma2_to64();
        vstd::bits::lemma_u16_shl_is_mul(d0, k as u16);
        vstd::bits::lemma_u16_shl_is_mul(1u16, k as u16);
    }
    let mut v: u16 = d0 << (k as u16);
    let extra = bits.take_into_u16(k).unwrap();
    proof {
        lemma_bits_value_bound(old(bits).bits().take(k as int));
        assert(extra < pow2(k as nat));
        assert(v | extra == v + extra) by (bit_vector)
            requires
                v == (d0 << (k as u16)),
                d0 < 16,
                k <= 13,
                extra < (1u16 << (k as u16)),
        ;
    }
    v = v | extra;
    v = v + base;
    v
}

/// Resolve one back-reference: decode a distance symbol and its extra bits,
/// then copy `length` bytes from `distance` bytes behind the cursor, one
/// byte at a time, re-reading bytes this copy itself produced when the
/// reference overlaps the cursor. A distance of one repeats the most recent
/// byte, which may still be pending in the accumulator.
pub fn lz77_copy(
    state: &mut BlockDecodeState,
    bits: &mut BitIter<'_>,
    distance_tree: &HuffmanTreeEntry,
    length: u16,
)
    requires
        old(state).wf(),
        old(bits).wf(),
        old(state).vram@.len() <= 0x3fff_ffff,
        spec_read_distance(*distance_tree, old(bits).bits()).is_some(),
        1 <= spec_read_distance(*distance_tree, old(bits).bits()).unwrap().0 <= old(
            state,
        ).out_bytes().len(),
    ensures
        final(state).wf(),
        final(bits).wf(),
        final(state).last_block == old(state).last_block,
        final(state).literal_code_lengths == old(state).literal_code_lengths,
        final(state).distance_code_lengths == old(state).distance_code_lengths,
        final(bits).bits() == old(bits).bits().skip(
            spec_read_distance(*distance_tree, old(bits).bits()).unwrap().1 as int,
        ),
        final(state).out_bytes() == lz77_run(
            old(state).out_bytes(),
            spec_read_distance(*distance_tree, old(bits).bits()).unwrap().0,
            length as nat,
        ),
{
    let ghost stream0 = old(bits).bits();
    let ghost rd = spec_read_distance(*distance_tree, stream0);
    let ghost wd = tree_walk(*distance_tree, stream0);
    proof {
        lemma2_to64();
    }

    let distance_sym = distance_tree.decode_from_bits(bits);
    let ghost nw = wd.unwrap().1;
    let ghost kx = dist_extra_bits(distance_sym as int);
    let ghost ex = bits_value(stream0.subrange(nw as int, (nw + kx) as int));
    proof {
        assert(bits.bits().take(kx as int) =~= stream0.subrange(nw as int, (nw + kx) as int));
    }

    let distance: u16 = match distance_sym {
        0..=3 => distance_sym + 1,
        4..=5 => extend_with_extra_bits(bits, distance_sym - 4, 1, 5),
        6..=7 => extend_with_extra_bits(bits, distance_sym - 6, 2, 9),
        8..=9 => extend_with_extra_bits(bits, distance_sym - 8, 3, 17),
        10..=11 => extend_with_extra_bits(bits, distance_sym - 10, 4, 33),
        12..=13 => extend_with_extra_bits(bits, distance_sym - 12, 5, 65),
        14..=15 => extend_with_extra_bits(bits, distance_sym - 14, 6, 129),
        16..=17 => extend_with_extra_bits(bits, distance_sym - 16, 7, 257),
        18..=19 => extend_with_extra_bits(bits, distance_sym - 18, 8, 513),
        20..=21 => extend_with_extra_bits(bits, distance_sym - 20, 9, 1025),
        22..=23 => extend_with_extra_bits(bits, distance_sym - 22, 10, 2049),
        24..=25 => extend_with_extra_bits(bits, distance_sym - 24, 11, 4097),
        26..=27 => extend_with_extra_bits(bits, distance_sym - 26, 12, 8193),
        28..=29 => extend_with_extra_bits(bits, distance_sym - 28, 13, 16385),
        _ => {
            proof {
                assert(false);
            }
            0
        },
    };
    proof {
        assert(distance as nat == rd.unwrap().0);
        assert(bits.bits() =~= stream0.skip(rd.unwrap().1 as int));
    }

    let ghost out0 = old(state).out_bytes();
    let ghost d = distance as nat;
    if distance == 1 {
        // The most recent byte may still sit unflushed in the accumulator;
        // `read_back_byte` reads it from there rather than from the window.
        let total = 2 * state.vram.len() + if state.vram_parity {
            1
        } else {
            0
        };
        let rept_byte = read_back_byte(state, total - 1);
        let mut c: u16 = 0;
        while c < length
            invariant
                state.wf(),
                c <= length,
                out0.len() >= 1,
                state.out_bytes() == lz77_run(out0, 1, c as nat),
                state.out_bytes().len() == out0.len() + c,
                rept_byte == state.out_bytes().last(),
                state.last_block == old(state).last_block,
                state.literal_code_lengths == old(state).literal_code_lengths,
                state.distance_code_lengths == old(state).distance_code_lengths,
            decreases length - c,
        {
            proof {
                lemma_lz77_run_snoc(out0, 1, c as nat);
            }
            write_to_vram(state, rept_byte);
            c = c + 1;
        }
    } else {
        let mut c: u16 = 0;
        while c < length
            invariant
                state.wf(),
                c <= length,
                2 <= d <= out0.len(),
                d == distance,
                out0.len() <= 0x7fff_ffff,
                state.out_bytes() == lz77_run(out0, d, c as nat),
                state.out_bytes().len() == out0.len() + c,
                state.last_block == old(state).last_block,
                state.literal_code_lengths == old(state).literal_code_lengths,
                state.distance_code_lengths == old(state).distance_code_lengths,
            decreases length - c,
        {
            let total = 2 * state.vram.len() + if state.vram_parity {
                1
            } else {
                0
            };
            let value = read_back_byte(state, total - distance as usize);
            proof {
                lemma_lz77_run_snoc(out0, d, c as nat);
            }
            write_to_vram(state, value);
            c = c + 1;
        }
    }
}

/// One block's symbol stream, interpreted against a literal/length tree and
/// a distance tree: the remaining bits and the output after the end-of-block
/// symbol. `None` when the stream is malformed for this decoder: a walk
/// that runs out of bits, a symbol past 285, a reference behind the start
/// of the output, or a step that consumes no bits and so would never end.
pub open spec fn spec_block_decode(
    lit: HuffmanTreeEntry,
    dist: HuffmanTreeEntry,
    stream: Seq<bool>,
    out: Seq<u8>,
) -> Option<(Seq<bool>, Seq<u8>)>
    decreases stream.len(),
{
    match tree_walk(lit, stream) {
        None => None,
        Some((sym, n)) => {
            let rest = stream.skip(n as int);
            if sym < 256 {
                if n == 0 || n > stream.len() {
                    None
                } else {
                    spec_block_decode(lit, dist, rest, out.push(sym as u8))
                }
            } else if sym == 256 {
                Some((rest, out))
            } else if sym <= 285 {
                let kl = length_extra_bits(sym as int);
                if n + kl > stream.len() {
                    None
                } else {
                    let length = length_of(sym as int, bits_value(rest.take(kl as int)));
                    let rest2 = rest.skip(kl as int);
                    match spec_read_distance(dist, rest2) {
                        None => None,
                        Some((d, m)) => {
                            if 1 <= d <= out.len() && 1 <= n + kl + m && n + kl + m
                                <= stream.len() {
                                spec_block_decode(
                                    lit,
                                    dist,
                                    stream.skip((n + kl + m) as int),
                                    lz77_run(out, d, length),
                                )
                            } else {
                                None
                            }
                        },
                    }
                }
            } else {
                None
            }
        },
    }
}

/// A decoded block only ever appends to the output.
pub proof fn lemma_block_decode_out_mono(
    lit: HuffmanTreeEntry,
    dist: HuffmanTreeEntry,
    stream: Seq<bool>,
    out: Seq<u8>,
)
    requires
        spec_block_decode(lit, dist, stream, out).is_some(),
    ensures
        spec_block_decode(lit, dist, stream, out).unwrap().1.len() >= out.len(),
        spec_block_decode(lit, dist, stream, out).unwrap().0.len() <= stream.len(),
    decreases stream.len(),
{
    let (sym, n) = tree_walk(lit, stream).unwrap();
    lemma_walk_lookup(lit, stream);
    let rest = stream.skip(n as int);
    if sym < 256 {
        lemma_block_decode_out_mono(lit, dist, rest, out.push(sym as u8));
    } else if sym == 256 {
    } else {
        let kl = length_extra_bits(sym as int);
        let length = length_of(sym as int, bits_value(rest.take(kl as int)));
        let rest2 = rest.skip(kl as int);
        let (d, m) = spec_read_distance(dist, rest2).unwrap();
        lemma_lz77_run_len(out, d, length);
        lemma_block_decode_out_mono(
            lit,
            dist,
            stream.skip((n + kl + m) as int),
            lz77_run(out, d, length),
        );
    }
}

/// Decode one block's symbols until the end-of-block symbol: literals and
/// resolved back-references go through the output path byte by byte.
#[verifier::loop_isolation(false)]
#[verifier::rlimit(100)]
pub fn decode_hufman_block(state: &mut BlockDecodeState, bits: &mut BitIter<'_>)
    requires
        old(state).wf(),
        old(bits).wf(),
        old(state).literal_code_lengths@.len() <= 65535,
        forall|i: int|
            0 <= i < old(state).literal_code_lengths@.len() ==> old(
                state,
            ).literal_code_lengths@[i] < 16,
        old(state).distance_code_lengths@.len() <= 65535,
        forall|i: int|
            0 <= i < old(state).distance_code_lengths@.len() ==> old(
                state,
            ).distance_code_lengths@[i] < 16,
        spec_block_decode(
            spec_build_tree(old(state).literal_code_lengths@),
            spec_build_tree(old(state).distance_code_lengths@),
            old(bits).bits(),
            old(state).out_bytes(),
        ).is_some(),
        spec_block_decode(
            spec_build_tree(old(state).literal_code_lengths@),
            spec_build_tree(old(state).distance_code_lengths@),
            old(bits).bits(),
            old(state).out_bytes(),
        ).unwrap().1.len() <= 0x7fff_ffff,
    ensures
        final(state).wf(),
        final(bits).wf(),
        final(state).last_block == old(state).last_block,
        final(state).literal_code_lengths == old(state).literal_code_lengths,
        final(state).distance_code_lengths == old(state).distance_code_lengths,
        final(bits).bits() == spec_block_decode(
            spec_build_tree(old(state).literal_code_lengths@),
            spec_build_tree(old(state).distance_code_lengths@),
            old(bits).bits(),
            old(state).out_bytes(),
        ).unwrap().0,
        final(state).out_bytes() == spec_block_decode(
            spec_build_tree(old(state).literal_code_lengths@),
            spec_build_tree(old(state).distance_code_lengths@),
            old(bits).bits(),
            old(state).out_bytes(),
        ).unwrap().1,
{
    let ghost lt = spec_build_tree(old(state).literal_code_lengths@);
    let ghost dt = spec_build_tree(old(state).distance_code_lengths@);
    let ghost goal = spec_block_decode(lt, dt, old(bits).bits(), old(state).out_bytes());
    proof {
        lemma2_to64();
        lemma_block_decode_out_mono(lt, dt, old(bits).bits(), old(state).out_bytes());
    }
    let literal_hufman_tree = HuffmanTreeEntry::from_code_lengths(state.literal_code_lengths.as_slice());
    let distance_hufman_tree = HuffmanTreeEntry::from_code_lengths(state.distance_code_lengths.as_slice());

    loop
        invariant
            state.wf(),
            bits.wf(),
            goal == spec_block_decode(lt, dt, bits.bits(), state.out_bytes()),
            state.out_bytes().len() <= goal.unwrap().1.len(),
            state.last_block == old(state).last_block,
            state.literal_code_lengths == old(state).literal_code_lengths,
            state.distance_code_lengths == old(state).distance_code_lengths,
        decreases bits.bits().len(),
    {
        let ghost stream_it = bits.bits();
        let ghost out_it = state.out_bytes();
        let ghost w = tree_walk(lt, stream_it);
        let decoded = literal_hufman_tree.decode_from_bits(bits);
        let ghost n = w.unwrap().1;
        let ghost rest = stream_it.skip(n as int);

        if decoded <= 255 {
            proof {
                lemma_block_decode_out_mono(lt, dt, rest, out_it.push(decoded as u8));
            }
            write_to_vram(state, decoded as u8);
        } else if decoded == 256 {
            return ;
        } else {
            proof {
                assert(decoded <= 285);
            }
            let ghost kl = length_extra_bits(decoded as int);
            let ghost length_g = length_of(
                decoded as int,
                bits_value(rest.take(kl as int)),
            );
            let length: u16 = if decoded <= 264 {
                decoded - 254
            } else if decoded <= 268 {
                extend_with_extra_bits(bits, decoded - 265, 1, 11)
            } else if decoded <= 272 {
                extend_with_extra_bits(bits, decoded - 269, 2, 19)
            } else if decoded <= 276 {
                extend_with_extra_bits(bits, decoded - 273, 3, 35)
            } else if decoded <= 280 {
                extend_with_extra_bits(bits, decoded - 277, 4, 67)
            } else if decoded <= 284 {
                extend_with_extra_bits(bits, decoded - 281, 5, 131)
            } else {
                258
            };
            let ghost rest2 = rest.skip(kl as int);
            proof {
                assert(rest.take(kl as int) =~= stream_it.skip(n as int).take(kl as int));
                assert(length as nat == length_g);
                assert(bits.bits() =~= rest2);
                let (d, m) = spec_read_distance(dt, rest2).unwrap();
                lemma_block_decode_out_mono(
                    lt,
                    dt,
                    stream_it.skip((n + kl + m) as int),
                    lz77_run(out_it, d, length as nat),
                );
                assert(rest2.skip(m as int) =~= stream_it.skip((n + kl + m) as int));
            }
            lz77_copy(state, bits, &distance_hufman_tree, length);
        }
    }
}

/// One step of reading a dynamic block's code-length tables: symbols up to
/// 15 append themselves, 16 repeats the previous length 3 to 6 times, 17
/// and 18 append 3 to 10, or 11 to 138, zeros.
pub open spec fn spec_len_len_step(
    tree: HuffmanTreeEntry,
    stream: Seq<bool>,
    dest: Seq<u8>,
) -> Option<(Seq<bool>, Seq<u8>)> {
    match tree_walk(tree, stream) {
        None => None,
        Some((sym, n)) => {
            if n > stream.len() {
                None
            } else {
                let rest = stream.skip(n as int);
                if sym <= 15 {
                    Some((rest, dest.push(sym as u8)))
                } else if sym == 16 {
                    if dest.len() == 0 || rest.len() < 2 {
                        None
                    } else {
                        Some(
                            (
                                rest.skip(2),
                                dest + Seq::new(
                                    3 + bits_value(rest.take(2)),
                                    |j: int| dest.last(),
                                ),
                            ),
                        )
                    }
                } else if sym == 17 {
                    if rest.len() < 3 {
                        None
                    } else {
                        Some(
                            (
                                rest.skip(3),
                                dest + Seq::new(3 + bits_value(rest.take(3)), |j: int| 0u8),
                            ),
                        )
                    }
                } else if sym == 18 {
                    if rest.len() < 7 {
                        None
                    } else {
                        Some(
                            (
                                rest.skip(7),
                                dest + Seq::new(11 + bits_value(rest.take(7)), |j: int| 0u8),
                            ),
                        )
                    }
                } else {
                    None
                }
            }
        },
    }
}

/// Read one code-length symbol and extend `dest` as it directs.
#[verifier::loop_isolation(false)]
pub fn handle_len_len(bits: &mut BitIter<'_>, len_tree: &HuffmanTreeEntry, dest: &mut Vec<u8>)
    requires
        old(bits).wf(),
        spec_len_len_step(*len_tree, old(bits).bits(), old(dest)@).is_some(),
    ensures
        final(bits).wf(),
        final(bits).bits() == spec_len_len_step(*len_tree, old(bits).bits(), old(dest)@).unwrap().0,
        final(dest)@ == spec_len_len_step(*len_tree, old(bits).bits(), old(dest)@).unwrap().1,
{
    let ghost st = spec_len_len_step(*len_tree, old(bits).bits(), old(dest)@);
    proof {
        lemma_walk_lookup(*len_tree, old(bits).bits());
        lemma2_to64();
    }
    let len_symbol_full = len_tree.decode_from_bits(bits);
    proof {
        assert(len_symbol_full <= 18);
    }
    let len_symbol = len_symbol_full as u8;

    if len_symbol <= 15 {
        dest.push(len_symbol);
        proof {
            assert(dest@ == st.unwrap().1);
        }
    } else if len_symbol == 16 {
        let last_len = dest[dest.len() - 1];
        let ghost e = bits_value(bits.bits().take(2));
        proof {
            lemma_bits_value_bound(bits.bits().take(2));
        }
        let repeat_count = bits.take_into_u8(2).unwrap() + 3;
        let mut c: u8 = 0;
        while c < repeat_count
            invariant
                c <= repeat_count,
                dest@ == old(dest)@ + Seq::new(c as nat, |j: int| old(dest)@.last()),
            decreases repeat_count - c,
        {
            dest.push(last_len);
            proof {
                assert(dest@ =~= old(dest)@ + Seq::new((c + 1) as nat, |j: int| old(dest)@.last()));
            }
            c = c + 1;
        }
        proof {
            assert(dest@ == st.unwrap().1);
        }
    } else if len_symbol == 17 {
        let ghost e = bits_value(bits.bits().take(3));
        proof {
            lemma_bits_value_bound(bits.bits().take(3));
        }
        let repeat_count = bits.take_into_u8(3).unwrap() + 3;
        let mut c: u8 = 0;
        while c < repeat_count
            invariant
                c <= repeat_count,
                dest@ == old(dest)@ + Seq::new(c as nat, |j: int| 0u8),
            decreases repeat_count - c,
        {
            dest.push(0);
            proof {
                assert(dest@ =~= old(dest)@ + Seq::new((c + 1) as nat, |j: int| 0u8));
            }
            c = c + 1;
        }
        proof {
            assert(dest@ == st.unwrap().1);
        }
    } else {
        proof {
            assert(len_symbol == 18);
        }
        let ghost e = bits_value(bits.bits().take(7));
        proof {
            lemma_bits_value_bound(bits.bits().take(7));
        }
        let repeat_count = bits.take_into_u8(7).unwrap() + 11;
        let mut c: u8 = 0;
        while c < repeat_count
            invariant
                c <= repeat_count,
                dest@ == old(dest)@ + Seq::new(c as nat, |j: int| 0u8),
            decreases repeat_count - c,
        {
            dest.push(0);
            proof {
                assert(dest@ =~= old(dest)@ + Seq::new((c + 1) as nat, |j: int| 0u8));
            }
            c = c + 1;
        }
        proof {
            assert(dest@ == st.unwrap().1);
        }
    }
}

/// The fixed literal/length code lengths of block type 1.
pub open spec fn fixed_literal_lengths() -> Seq<u8> {
    Seq::new(
        288,
        |i: int|
            if i <= 143 {
                8u8
            } else if i <= 255 {
                9u8
            } else if i <= 279 {
                7u8
            } else {
                8u8
            },
    )
}

/// The fixed distance code lengths of block type 1.
pub open spec fn fixed_distance_lengths() -> Seq<u8> {
    Seq::new(32, |i: int| 5u8)
}

/// The transmission order of the code-length code's lengths.
pub open spec fn clen_order(j: int) -> int {
    if j == 0 {
        16
    } else if j == 1 {
        17
    } else if j == 2 {
        18
    } else if j == 3 {
        0
    } else if j == 4 {
        8
    } else if j == 5 {
        7
    } else if j == 6 {
        9
    } else if j == 7 {
        6
    } else if j == 8 {
        10
    } else if j == 9 {
        5
    } else if j == 10 {
        11
    } else if j == 11 {
        4
    } else if j == 12 {
        12
    } else if j == 13 {
        3
    } else if j == 14 {
        13
    } else if j == 15 {
        2
    } else if j == 16 {
        14
    } else if j == 17 {
        1
    } else {
        15
    }
}

/// The code-length code's lengths after reading `count` three-bit fields in
/// transmission order.
pub open spec fn spec_clen_table(stream: Seq<bool>, count: int) -> Seq<u8>
    decreases count,
{
    if count <= 0 {
        Seq::new(19, |t: int| 0u8)
    } else {
        spec_clen_table(stream, count - 1).update(
            clen_order(count - 1),
            bits_value(stream.subrange(3 * (count - 1), 3 * count)) as u8,
        )
    }
}

pub proof fn lemma_clen_table_bounded(stream: Seq<bool>, count: int)
    requires
        count <= 19,
        3 * count <= stream.len(),
    ensures
        spec_clen_table(stream, count).len() == 19,
        forall|t: int| 0 <= t < 19 ==> spec_clen_table(stream, count)[t] < 16,
    decreases count,
{
    if count > 0 {
        lemma_clen_table_bounded(stream, count - 1);
        lemma_bits_value_bound(stream.subrange(3 * (count - 1), 3 * count));
        lemma2_to64();
        assert(stream.subrange(3 * (count - 1), 3 * count).len() == 3);
    }
}

/// Grow a code-length table by repeated `spec_len_len_step`s until it holds
/// exactly `target` entries; overshooting or stalling is malformed.
pub open spec fn spec_read_code_lengths(
    tree: HuffmanTreeEntry,
    stream: Seq<bool>,
    dest: Seq<u8>,
    target: nat,
) -> Option<(Seq<bool>, Seq<u8>)>
    decreases target - dest.len(),
{
    if dest.len() == target {
        Some((stream, dest))
    } else if dest.len() > target {
        None
    } else {
        match spec_len_len_step(tree, stream, dest) {
            None => None,
            Some((s2, d2)) => {
                if dest.len() < d2.len() <= target {
                    spec_read_code_lengths(tree, s2, d2, target)
                } else {
                    None
                }
            },
        }
    }
}

/// One table step appends at least one length below 16 and never lengthens
/// the stream.
pub proof fn lemma_len_len_step_props(tree: HuffmanTreeEntry, stream: Seq<bool>, dest: Seq<u8>)
    requires
        spec_len_len_step(tree, stream, dest).is_some(),
        forall|i: int| 0 <= i < dest.len() ==> dest[i] < 16,
    ensures
        spec_len_len_step(tree, stream, dest).unwrap().1.len() > dest.len(),
        forall|i: int|
            0 <= i < spec_len_len_step(tree, stream, dest).unwrap().1.len()
                ==> spec_len_len_step(tree, stream, dest).unwrap().1[i] < 16,
        spec_len_len_step(tree, stream, dest).unwrap().0.len() <= stream.len(),
{
    let (sym, n) = tree_walk(tree, stream).unwrap();
    let rest = stream.skip(n as int);
    let d2 = spec_len_len_step(tree, stream, dest).unwrap().1;
    if sym <= 15 {
    } else {
        assert forall|i: int| 0 <= i < d2.len() implies d2[i] < 16 by {
            if i < dest.len() {
                assert(d2[i] == dest[i]);
            }
        }
    }
}

/// Reading a table to its target yields exactly `target` lengths, all below
/// 16, and never lengthens the stream.
pub proof fn lemma_read_code_lengths_props(
    tree: HuffmanTreeEntry,
    stream: Seq<bool>,
    dest: Seq<u8>,
    target: nat,
)
    requires
        spec_read_code_lengths(tree, stream, dest, target).is_some(),
        forall|i: int| 0 <= i < dest.len() ==> dest[i] < 16,
    ensures
        spec_read_code_lengths(tree, stream, dest, target).unwrap().1.len() == target,
        forall|i: int|
            0 <= i < target ==> spec_read_code_lengths(tree, stream, dest, target).unwrap().1[i]
                < 16,
        spec_read_code_lengths(tree, stream, dest, target).unwrap().0.len() <= stream.len(),
    decreases target - dest.len(),
{
    if dest.len() == target {
    } else {
        let (s2, d2) = spec_len_len_step(tree, stream, dest).unwrap();
        lemma_len_len_step_props(tree, stream, dest);
        lemma_read_code_lengths_props(tree, s2, d2, target);
    }
}

/// The header of a dynamic block: the three counts, the code-length code
/// read in transmission order, and the two tables it expands to.
pub open spec fn spec_dynamic_header(rest: Seq<bool>) -> Option<(Seq<u8>, Seq<u8>, Seq<bool>)> {
    if rest.len() < 14 {
        None
    } else {
        let hlit = bits_value(rest.subrange(0, 5)) + 257;
        let hdist = bits_value(rest.subrange(5, 10)) + 1;
        let hclen = bits_value(rest.subrange(10, 14)) + 4;
        let r1 = rest.skip(14);
        if r1.len() < 3 * hclen {
            None
        } else {
            let lct = spec_build_tree(spec_clen_table(r1, hclen as int));
            let r2 = r1.skip(3 * hclen as int);
            match spec_read_code_lengths(lct, r2, Seq::empty(), hlit) {
                None => None,
                Some((r3, litl)) => match spec_read_code_lengths(lct, r3, Seq::empty(), hdist) {
                    None => None,
                    Some((r4, distl)) => Some((litl, distl, r4)),
                },
            }
        }
    }
}

/// Byte `i` of a stored block's payload.
pub open spec fn stored_byte(body: Seq<bool>, i: int) -> u8 {
    bits_value(body.subrange(8 * i, 8 * i + 8)) as u8
}

/// A stored block after its three header bits: realign to the byte
/// boundary, read the 16-bit length, skip its 16-bit companion word
/// (deliberately without the usual one's-complement cross-check, as the
/// asset pipeline is trusted), and pass the payload bytes through
/// unchanged.
pub open spec fn spec_stored_block(rest: Seq<bool>, out: Seq<u8>) -> Option<(Seq<bool>, Seq<u8>)> {
    let aligned = rest.skip((rest.len() % 8) as int);
    if aligned.len() < 32 {
        None
    } else {
        let len = bits_value(aligned.take(16));
        let body = aligned.skip(32);
        if body.len() < len * 8 {
            None
        } else {
            Some((body.skip(8 * len as int), out + Seq::new(len, |i: int| stored_byte(body, i))))
        }
    }
}

/// The whole image: blocks decoded in sequence until one carries the
/// final-block flag. `None` when any block is malformed for this decoder,
/// including the reserved block type.
pub open spec fn spec_inflate(stream: Seq<bool>, out: Seq<u8>) -> Option<Seq<u8>>
    decreases stream.len(),
    via spec_inflate_decreases
{
    if stream.len() < 3 {
        None
    } else {
        let last = stream[0];
        let btype = bits_value(stream.subrange(1, 3));
        let rest = stream.skip(3);
        if btype == 0 {
            match spec_stored_block(rest, out) {
                None => None,
                Some((rest2, out2)) => if last {
                    Some(out2)
                } else {
                    spec_inflate(rest2, out2)
                },
            }
        } else if btype == 1 {
            match spec_block_decode(
                spec_build_tree(fixed_literal_lengths()),
                spec_build_tree(fixed_distance_lengths()),
                rest,
                out,
            ) {
                None => None,
                Some((rest2, out2)) => if last {
                    Some(out2)
                } else {
                    spec_inflate(rest2, out2)
                },
            }
        } else if btype == 2 {
            match spec_dynamic_header(rest) {
                None => None,
                Some((litl, distl, r4)) => {
                    match spec_block_decode(spec_build_tree(litl), spec_build_tree(distl), r4, out) {
                        None => None,
                        Some((rest2, out2)) => if last {
                            Some(out2)
                        } else {
                            spec_inflate(rest2, out2)
                        },
                    }
                },
            }
        } else {
            None
        }
    }
}

#[via_fn]
proof fn spec_inflate_decreases(stream: Seq<bool>, out: Seq<u8>) {
    if stream.len() >= 3 {
        let btype = bits_value(stream.subrange(1, 3));
        let rest = stream.skip(3);
        if btype == 1 {
            let bd = spec_block_decode(
                spec_build_tree(fixed_literal_lengths()),
                spec_build_tree(fixed_distance_lengths()),
                rest,
                out,
            );
            if bd.is_some() {
                lemma_block_decode_out_mono(
                    spec_build_tree(fixed_literal_lengths()),
                    spec_build_tree(fixed_distance_lengths()),
                    rest,
                    out,
                );
            }
        } else if btype == 2 {
            if spec_dynamic_header(rest).is_some() {
                let hlit = bits_value(rest.subrange(0, 5)) + 257;
                let hdist = bits_value(rest.subrange(5, 10)) + 1;
                let hclen = bits_value(rest.subrange(10, 14)) + 4;
                let r1 = rest.skip(14);
                let lct = spec_build_tree(spec_clen_table(r1, hclen as int));
                let r2 = r1.skip(3 * hclen as int);
                let (r3, litl) = spec_read_code_lengths(lct, r2, Seq::empty(), hlit).unwrap();
                lemma_read_code_lengths_props(lct, r2, Seq::empty(), hlit);
                let (r4, distl) = spec_read_code_lengths(lct, r3, Seq::empty(), hdist).unwrap();
                lemma_read_code_lengths_props(lct, r3, Seq::empty(), hdist);
                let bd = spec_block_decode(spec_build_tree(litl), spec_build_tree(distl), r4, out);
                if bd.is_some() {
                    lemma_block_decode_out_mono(
                        spec_build_tree(litl),
                        spec_build_tree(distl),
                        r4,
                        out,
                    );
                }
            }
        }
    }
}

/// The tables of a well-formed dynamic header are small and hold lengths
/// below 16, and the header is read from the block's own bits alone.
pub proof fn lemma_dynamic_header_props(rest: Seq<bool>)
    requires
        spec_dynamic_header(rest).is_some(),
    ensures
        spec_dynamic_header(rest).unwrap().0.len() <= 65535,
        spec_dynamic_header(rest).unwrap().1.len() <= 65535,
        forall|i: int|
            0 <= i < spec_dynamic_header(rest).unwrap().0.len() ==> spec_dynamic_header(
                rest,
            ).unwrap().0[i] < 16,
        forall|i: int|
            0 <= i < spec_dynamic_header(rest).unwrap().1.len() ==> spec_dynamic_header(
                rest,
            ).unwrap().1[i] < 16,
        spec_dynamic_header(rest).unwrap().2.len() <= rest.len(),
{
    let hlit = bits_value(rest.subrange(0, 5)) + 257;
    let hdist = bits_value(rest.subrange(5, 10)) + 1;
    let hclen = bits_value(rest.subrange(10, 14)) + 4;
    let r1 = rest.skip(14);
    let lct = spec_build_tree(spec_clen_table(r1, hclen as int));
    let r2 = r1.skip(3 * hclen as int);
    let (r3, litl) = spec_read_code_lengths(lct, r2, Seq::empty(), hlit).unwrap();
    lemma_read_code_lengths_props(lct, r2, Seq::empty(), hlit);
    lemma_read_code_lengths_props(lct, r3, Seq::empty(), hdist);
    lemma_bits_value_bound(rest.subrange(0, 5));
    lemma_bits_value_bound(rest.subrange(5, 10));
    lemma2_to64();
}

/// Decoding only ever appends to the output.
pub proof fn lemma_inflate_out_mono(stream: Seq<bool>, out: Seq<u8>)
    requires
        spec_inflate(stream, out).is_some(),
    ensures
        spec_inflate(stream, out).unwrap().len() >= out.len(),
    decreases stream.len(),
{
    let last = stream[0];
    let btype = bits_value(stream.subrange(1, 3));
    let rest = stream.skip(3);
    if btype == 0 {
        let (rest2, out2) = spec_stored_block(rest, out).unwrap();
        if !last {
            lemma_inflate_out_mono(rest2, out2);
        }
    } else if btype == 1 {
        let lt = spec_build_tree(fixed_literal_lengths());
        let dt = spec_build_tree(fixed_distance_lengths());
        lemma_block_decode_out_mono(lt, dt, rest, out);
        let (rest2, out2) = spec_block_decode(lt, dt, rest, out).unwrap();
        if !last {
            lemma_inflate_out_mono(rest2, out2);
        }
    } else {
        let (litl, distl, r4) = spec_dynamic_header(rest).unwrap();
        let lt = spec_build_tree(litl);
        let dt = spec_build_tree(distl);
        lemma_block_decode_out_mono(lt, dt, r4, out);
        let (rest2, out2) = spec_block_decode(lt, dt, r4, out).unwrap();
        if !last {
            lemma_dynamic_header_props(rest);
            lemma_inflate_out_mono(rest2, out2);
        }
    }
}

/// Index `j` of the code-length transmission order.
fn clen_order_index(j: usize) -> (t: usize)
    requires
        j < 19,
    ensures
        t as int == clen_order(j as int),
        t < 19,
{
    if j == 0 {
        16
    } else if j == 1 {
        17
    } else if j == 2 {
        18
    } else if j == 3 {
        0
    } else if j == 4 {
        8
    } else if j == 5 {
        7
    } else if j == 6 {
        9
    } else if j == 7 {
        6
    } else if j == 8 {
        10
    } else if j == 9 {
        5
    } else if j == 10 {
        11
    } else if j == 11 {
        4
    } else if j == 12 {
        12
    } else if j == 13 {
        3
    } else if j == 14 {
        13
    } else if j == 15 {
        2
    } else if j == 16 {
        14
    } else if j == 17 {
        1
    } else {
        15
    }
}

/// Copy a stored block's payload through the output path: realign to the
/// byte boundary, read the length word, skip its companion word, and copy.
#[verifier::loop_isolation(false)]
fn read_stored_block(state: &mut BlockDecodeState, bits: &mut BitIter<'_>)
    requires
        old(state).wf(),
        old(bits).wf(),
        spec_stored_block(old(bits).bits(), old(state).out_bytes()).is_some(),
    ensures
        final(state).wf(),
        final(bits).wf(),
        final(state).last_block == old(state).last_block,
        final(state).literal_code_lengths == old(state).literal_code_lengths,
        final(state).distance_code_lengths == old(state).distance_code_lengths,
        final(bits).bits() == spec_stored_block(
            old(bits).bits(),
            old(state).out_bytes(),
        ).unwrap().0,
        final(state).out_bytes() == spec_stored_block(
            old(bits).bits(),
            old(state).out_bytes(),
        ).unwrap().1,
{
    let ghost rest_g = old(bits).bits();
    let ghost out_it = old(state).out_bytes();
    let ghost aligned = rest_g.skip((rest_g.len() % 8) as int);
    let ghost body = aligned.skip(32);
    bits.skip_to_byte_start();
    let length = bits.take_into_usize(16).unwrap();
    bits.take_into_usize(16).unwrap();
    proof {
        assert(bits.bits() =~= body);
        assert(aligned.skip(16).take(16) =~= aligned.subrange(16, 32));
        assert(aligned.skip(16).skip(16) =~= body);
    }
    let mut i: usize = 0;
    while i < length
        invariant
            i <= length,
            state.wf(),
            bits.wf(),
            state.last_block == old(state).last_block,
            state.literal_code_lengths == old(state).literal_code_lengths,
            state.distance_code_lengths == old(state).distance_code_lengths,
            bits.bits() == body.skip(8 * i as int),
            state.out_bytes() == out_it + Seq::new(i as nat, |k: int| stored_byte(body, k)),
        decreases length - i,
    {
        proof {
            lemma_bits_value_bound(body.subrange(8 * i as int, 8 * i as int + 8));
            lemma2_to64();
        }
        let next_byte = bits.take_into_u8(8).unwrap();
        proof {
            assert(body.skip(8 * i as int).take(8) =~= body.subrange(
                8 * i as int,
                8 * i as int + 8,
            ));
            assert(next_byte == stored_byte(body, i as int));
            assert(bits.bits() =~= body.skip(8 * (i + 1) as int));
            assert(state.out_bytes().push(next_byte) =~= out_it + Seq::new(
                (i + 1) as nat,
                |k: int| stored_byte(body, k),
            ));
        }
        write_to_vram(state, next_byte);
        i = i + 1;
    }
    proof {
        assert(state.out_bytes() =~= spec_stored_block(rest_g, out_it).unwrap().1);
    }
}

/// Install the fixed code-length tables of block type 1.
fn push_fixed_tables(state: &mut BlockDecodeState)
    requires
        old(state).literal_code_lengths@.len() == 0,
        old(state).distance_code_lengths@.len() == 0,
    ensures
        final(state).literal_code_lengths@ == fixed_literal_lengths(),
        final(state).distance_code_lengths@ == fixed_distance_lengths(),
        final(state).vram == old(state).vram,
        final(state).vram_data == old(state).vram_data,
        final(state).vram_parity == old(state).vram_parity,
        final(state).last_block == old(state).last_block,
{
    let mut c: usize = 0;
    while c < 144
        invariant
            c <= 144,
            state.literal_code_lengths@ == fixed_literal_lengths().take(c as int),
            state.distance_code_lengths@.len() == 0,
            state.vram == old(state).vram,
            state.vram_data == old(state).vram_data,
            state.vram_parity == old(state).vram_parity,
            state.last_block == old(state).last_block,
        decreases 144 - c,
    {
        state.literal_code_lengths.push(8);
        proof {
            assert(state.literal_code_lengths@ =~= fixed_literal_lengths().take(c as int + 1));
        }
        c = c + 1;
    }
    while c < 256
        invariant
            144 <= c <= 256,
            state.literal_code_lengths@ == fixed_literal_lengths().take(c as int),
            state.distance_code_lengths@.len() == 0,
            state.vram == old(state).vram,
            state.vram_data == old(state).vram_data,
            state.vram_parity == old(state).vram_parity,
            state.last_block == old(state).last_block,
        decreases 256 - c,
    {
        state.literal_code_lengths.push(9);
        proof {
            assert(state.literal_code_lengths@ =~= fixed_literal_lengths().take(c as int + 1));
        }
        c = c + 1;
    }
    while c < 280
        invariant
            256 <= c <= 280,
            state.literal_code_lengths@ == fixed_literal_lengths().take(c as int),
            state.distance_code_lengths@.len() == 0,
            state.vram == old(state).vram,
            state.vram_data == old(state).vram_data,
            state.vram_parity == old(state).vram_parity,
            state.last_block == old(state).last_block,
        decreases 280 - c,
    {
        state.literal_code_lengths.push(7);
        proof {
            assert(state.literal_code_lengths@ =~= fixed_literal_lengths().take(c as int + 1));
        }
        c = c + 1;
    }
    while c < 288
        invariant
            280 <= c <= 288,
            state.literal_code_lengths@ == fixed_literal_lengths().take(c as int),
            state.distance_code_lengths@.len() == 0,
            state.vram == old(state).vram,
            state.vram_data == old(state).vram_data,
            state.vram_parity == old(state).vram_parity,
            state.last_block == old(state).last_block,
        decreases 288 - c,
    {
        state.literal_code_lengths.push(8);
        proof {
            assert(state.literal_code_lengths@ =~= fixed_literal_lengths().take(c as int + 1));
        }
        c = c + 1;
    }
    proof {
        assert(state.literal_code_lengths@ =~= fixed_literal_lengths());
    }
    let mut c2: usize = 0;
    while c2 < 32
        invariant
            c2 <= 32,
            state.literal_code_lengths@ == fixed_literal_lengths(),
            state.distance_code_lengths@ == fixed_distance_lengths().take(c2 as int),
            state.vram == old(state).vram,
            state.vram_data == old(state).vram_data,
            state.vram_parity == old(state).vram_parity,
            state.last_block == old(state).last_block,
        decreases 32 - c2,
    {
        state.distance_code_lengths.push(5);
        proof {
            assert(state.distance_code_lengths@ =~= fixed_distance_lengths().take(c2 as int + 1));
        }
        c2 = c2 + 1;
    }
    proof {
        assert(state.distance_code_lengths@ =~= fixed_distance_lengths());
    }
}

/// Read a dynamic block's header: the three counts, the code-length code in
/// transmission order, and the two expanded tables.
#[verifier::loop_isolation(false)]
#[verifier::rlimit(100)]
fn read_dynamic_tables(state: &mut BlockDecodeState, bits: &mut BitIter<'_>)
    requires
        old(state).wf(),
        old(bits).wf(),
        old(state).literal_code_lengths@.len() == 0,
        old(state).distance_code_lengths@.len() == 0,
        spec_dynamic_header(old(bits).bits()).is_some(),
    ensures
        final(state).wf(),
        final(bits).wf(),
        final(state).literal_code_lengths@ == spec_dynamic_header(old(bits).bits()).unwrap().0,
        final(state).distance_code_lengths@ == spec_dynamic_header(old(bits).bits()).unwrap().1,
        final(bits).bits() == spec_dynamic_header(old(bits).bits()).unwrap().2,
        final(state).vram == old(state).vram,
        final(state).vram_data == old(state).vram_data,
        final(state).vram_parity == old(state).vram_parity,
        final(state).last_block == old(state).last_block,
{
    let ghost rest_g = old(bits).bits();
    let ghost r1 = rest_g.skip(14);
    proof {
        lemma2_to64();
        lemma_bits_value_bound(rest_g.take(5));
        lemma_bits_value_bound(rest_g.subrange(5, 10));
        lemma_bits_value_bound(rest_g.subrange(10, 14));
        assert(rest_g.skip(5).take(5) =~= rest_g.subrange(5, 10));
        assert(rest_g.skip(10).take(4) =~= rest_g.subrange(10, 14));
        assert(rest_g.skip(5).skip(5) =~= rest_g.skip(10));
        assert(rest_g.skip(10).skip(4) =~= r1);
    }
    let literal_len = bits.take_into_usize(5).unwrap() + 257;
    let distance_len = bits.take_into_usize(5).unwrap() + 1;
    let len_len = bits.take_into_usize(4).unwrap() + 4;
    proof {
        assert(literal_len == bits_value(rest_g.subrange(0, 5)) + 257);
        assert(distance_len == bits_value(rest_g.subrange(5, 10)) + 1);
        assert(len_len == bits_value(rest_g.subrange(10, 14)) + 4);
        assert(len_len <= 19);
    }

    let mut len_code_len: Vec<u8> = vec![0u8; 19];
    let mut j: usize = 0;
    proof {
        assert(len_code_len@ =~= spec_clen_table(r1, 0));
    }
    while j < len_len
        invariant
            j <= len_len,
            bits.wf(),
            bits.bits() == r1.skip(3 * j as int),
            len_code_len@.len() == 19,
            len_code_len@ == spec_clen_table(r1, j as int),
            state == old(state),
        decreases len_len - j,
    {
        let len3 = bits.take_into_u8(3).unwrap();
        let idx = clen_order_index(j);
        proof {
            assert(r1.skip(3 * j as int).take(3) =~= r1.subrange(3 * j as int, 3 * (j
                + 1) as int));
        }
        len_code_len[idx] = len3;
        proof {
            assert(len_code_len@ =~= spec_clen_table(r1, j as int + 1));
            assert(bits.bits() =~= r1.skip(3 * (j + 1) as int));
        }
        j = j + 1;
    }
    proof {
        lemma_clen_table_bounded(r1, len_len as int);
    }
    let len_tree = HuffmanTreeEntry::from_code_lengths(len_code_len.as_slice());
    let ghost lct = spec_build_tree(spec_clen_table(r1, len_len as int));
    let ghost r2 = r1.skip(3 * len_len as int);
    let ghost hl = spec_read_code_lengths(lct, r2, Seq::empty(), literal_len as nat);
    proof {
        assert(state.literal_code_lengths@ =~= Seq::<u8>::empty());
        lemma_read_code_lengths_props(lct, r2, Seq::empty(), literal_len as nat);
    }

    while state.literal_code_lengths.len() != literal_len
        invariant
            bits.wf(),
            state.wf(),
            state.vram == old(state).vram,
            state.vram_data == old(state).vram_data,
            state.vram_parity == old(state).vram_parity,
            state.last_block == old(state).last_block,
            state.distance_code_lengths@.len() == 0,
            spec_read_code_lengths(
                lct,
                bits.bits(),
                state.literal_code_lengths@,
                literal_len as nat,
            ) == hl,
        decreases literal_len - state.literal_code_lengths.len(),
    {
        handle_len_len(bits, &len_tree, &mut state.literal_code_lengths);
    }
    let ghost hd = spec_read_code_lengths(lct, bits.bits(), Seq::empty(), distance_len as nat);
    proof {
        assert(state.distance_code_lengths@ =~= Seq::<u8>::empty());
        lemma_read_code_lengths_props(lct, bits.bits(), Seq::empty(), distance_len as nat);
    }
    while state.distance_code_lengths.len() != distance_len
        invariant
            bits.wf(),
            state.wf(),
            state.vram == old(state).vram,
            state.vram_data == old(state).vram_data,
            state.vram_parity == old(state).vram_parity,
            state.last_block == old(state).last_block,
            state.literal_code_lengths@ == hl.unwrap().1,
            spec_read_code_lengths(
                lct,
                bits.bits(),
                state.distance_code_lengths@,
                distance_len as nat,
            ) == hd,
        decreases distance_len - state.distance_code_lengths.len(),
    {
        handle_len_len(bits, &len_tree, &mut state.distance_code_lengths);
    }
}

/// One stored block inside a well-formed image: what it leaves behind.
pub proof fn lemma_inflate_step_stored(stream: Seq<bool>, out: Seq<u8>)
    requires
        spec_inflate(stream, out).is_some(),
        stream.len() >= 3,
        bits_value(stream.subrange(1, 3)) == 0,
    ensures
        spec_stored_block(stream.skip(3), out).is_some(),
        ({
            let (rest2, out2) = spec_stored_block(stream.skip(3), out).unwrap();
            &&& rest2.len() < stream.len()
            &&& out2.len() <= spec_inflate(stream, out).unwrap().len()
            &&& (stream[0] ==> spec_inflate(stream, out) == Some(out2))
            &&& (!stream[0] ==> spec_inflate(rest2, out2) == spec_inflate(stream, out))
        }),
{
    let (rest2, out2) = spec_stored_block(stream.skip(3), out).unwrap();
    if !stream[0] {
        lemma_inflate_out_mono(rest2, out2);
    }
}

/// One fixed-Huffman block inside a well-formed image.
pub proof fn lemma_inflate_step_fixed(stream: Seq<bool>, out: Seq<u8>)
    requires
        spec_inflate(stream, out).is_some(),
        stream.len() >= 3,
        bits_value(stream.subrange(1, 3)) == 1,
    ensures
        spec_block_decode(
            spec_build_tree(fixed_literal_lengths()),
            spec_build_tree(fixed_distance_lengths()),
            stream.skip(3),
            out,
        ).is_some(),
        ({
            let (rest2, out2) = spec_block_decode(
                spec_build_tree(fixed_literal_lengths()),
                spec_build_tree(fixed_distance_lengths()),
                stream.skip(3),
                out,
            ).unwrap();
            &&& rest2.len() < stream.len()
            &&& out2.len() <= spec_inflate(stream, out).unwrap().len()
            &&& (stream[0] ==> spec_inflate(stream, out) == Some(out2))
            &&& (!stream[0] ==> spec_inflate(rest2, out2) == spec_inflate(stream, out))
        }),
{
    let lt = spec_build_tree(fixed_literal_lengths());
    let dt = spec_build_tree(fixed_distance_lengths());
    lemma_block_decode_out_mono(lt, dt, stream.skip(3), out);
    let (rest2, out2) = spec_block_decode(lt, dt, stream.skip(3), out).unwrap();
    if !stream[0] {
        lemma_inflate_out_mono(rest2, out2);
    }
}

/// One dynamic-Huffman block inside a well-formed image.
pub proof fn lemma_inflate_step_dynamic(stream: Seq<bool>, out: Seq<u8>)
    requires
        spec_inflate(stream, out).is_some(),
        stream.len() >= 3,
        bits_value(stream.subrange(1, 3)) == 2,
    ensures
        spec_dynamic_header(stream.skip(3)).is_some(),
        ({
            let (litl, distl, r4) = spec_dynamic_header(stream.skip(3)).unwrap();
            spec_block_decode(spec_build_tree(litl), spec_build_tree(distl), r4, out).is_some()
        }),
        ({
            let (litl, distl, r4) = spec_dynamic_header(stream.skip(3)).unwrap();
            let (rest2, out2) = spec_block_decode(
                spec_build_tree(litl),
                spec_build_tree(distl),
                r4,
                out,
            ).unwrap();
            &&& rest2.len() < stream.len()
            &&& out2.len() <= spec_inflate(stream, out).unwrap().len()
            &&& (stream[0] ==> spec_inflate(stream, out) == Some(out2))
            &&& (!stream[0] ==> spec_inflate(rest2, out2) == spec_inflate(stream, out))
        }),
{
    let (litl, distl, r4) = spec_dynamic_header(stream.skip(3)).unwrap();
    lemma_dynamic_header_props(stream.skip(3));
    let lt = spec_build_tree(litl);
    let dt = spec_build_tree(distl);
    lemma_block_decode_out_mono(lt, dt, r4, out);
    let (rest2, out2) = spec_block_decode(lt, dt, r4, out).unwrap();
    if !stream[0] {
        lemma_inflate_out_mono(rest2, out2);
    }
}

/// A well-formed image opens with a readable block header.
pub proof fn lemma_inflate_header(stream: Seq<bool>, out: Seq<u8>)
    requires
        spec_inflate(stream, out).is_some(),
    ensures
        stream.len() >= 3,
        bits_value(stream.subrange(1, 3)) <= 2,
{
}

/// Decode a complete compressed image into a fresh output window, walking
/// its blocks until the one flagged as final.
#[verifier::loop_isolation(false)]
#[verifier::rlimit(100)]
pub fn display_bitmap_file(file: RomFile<'_>) -> (state: BlockDecodeState)
    requires
        file.cursor() <= file.data_bytes().len(),
        spec_inflate(
            crate::util::bititer::bytes_bits(file.data_bytes().skip(file.cursor())),
            Seq::empty(),
        ).is_some(),
        spec_inflate(
            crate::util::bititer::bytes_bits(file.data_bytes().skip(file.cursor())),
            Seq::empty(),
        ).unwrap().len() <= 0x7fff_ffff,
    ensures
        state.wf(),
        state.last_block,
        state.out_bytes() == spec_inflate(
            crate::util::bititer::bytes_bits(file.data_bytes().skip(file.cursor())),
            Seq::empty(),
        ).unwrap(),
{
    let mut state = BlockDecodeState {
        vram_data: 0,
        vram_parity: false,
        vram: Vec::new(),
        last_block: false,
        literal_code_lengths: Vec::with_capacity(288),
        distance_code_lengths: Vec::with_capacity(32),
    };

    let data = file.as_bytes();
    let mut bits = BitIter::new(data);
    let ghost s0 = crate::util::bititer::bytes_bits(file.data_bytes().skip(file.cursor()));
    let ghost goal = spec_inflate(s0, Seq::empty()).unwrap();
    proof {
        assert(state.out_bytes() =~= Seq::<u8>::empty());
    }

    while !state.last_block
        invariant
            state.wf(),
            bits.wf(),
            state.out_bytes().len() <= goal.len(),
            if state.last_block {
                state.out_bytes() == goal
            } else {
                spec_inflate(bits.bits(), state.out_bytes()) == Some(goal)
            },
        decreases bits.bits().len(),
    {
        let ghost stream_it = bits.bits();
        let ghost out_it = state.out_bytes();
        let ghost rest_g = stream_it.skip(3);

        state.literal_code_lengths.clear();
        state.distance_code_lengths.clear();

        proof {
            lemma_inflate_header(stream_it, out_it);
        }
        let last = bits.next().unwrap();
        state.last_block = last;
        let ghost s1 = bits.bits();
        let block_type = bits.take_into_u8(2).unwrap();
        proof {
            assert(s1.take(2) =~= stream_it.subrange(1, 3));
            assert(s1.skip(2) =~= rest_g);
        }

        if block_type == 0 {
            proof {
                lemma_inflate_step_stored(stream_it, out_it);
            }
            read_stored_block(&mut state, &mut bits);
        } else if block_type == 1 {
            proof {
                lemma_inflate_step_fixed(stream_it, out_it);
            }
            push_fixed_tables(&mut state);
            decode_hufman_block(&mut state, &mut bits);
        } else if block_type == 2 {
            proof {
                lemma_inflate_step_dynamic(stream_it, out_it);
                lemma_dynamic_header_props(rest_g);
            }
            read_dynamic_tables(&mut state, &mut bits);
            decode_hufman_block(&mut state, &mut bits);
        } else {
            proof {
                assert(false);
            }
        }
    }
    state
}

/// How many of the code lengths in `s` equal `l`.
pub open spec fn count_len(s: Seq<u8>, l: int) -> nat
    decreases s.len(),
{
    if s.len() == 0 {
        0
    } else {
        count_len(s.drop_last(), l) + (if s.last() == l {
            1nat
        } else {
            0nat
        })
    }
}

/// The first canonical code of length `l`: each length class starts where
/// the previous one ended, shifted up one bit.
pub open spec fn next_code(s: Seq<u8>, l: int) -> nat
    decreases l,
{
    if l <= 1 {
        0
    } else {
        2 * (next_code(s, l - 1) + count_len(s, l - 1))
    }
}

/// The canonical code of symbol `k`: the first code of its length class plus
/// the number of earlier symbols in the same class.
pub open spec fn code_of(s: Seq<u8>, k: int) -> nat {
    next_code(s, s[k] as int) + count_len(s.take(k), s[k] as int)
}

/// The transmitted bit path of symbol `k`'s canonical code.
pub open spec fn canonical_path(s: Seq<u8>, k: int) -> Seq<bool> {
    code_path(code_of(s, k), s[k] as nat)
}

/// The tree holding the canonical codes of the symbols `0..i` of `s` whose
/// length is nonzero, inserted in symbol order.
pub open spec fn spec_build_up_to(s: Seq<u8>, i: int) -> HuffmanTreeEntry
    decreases i,
{
    if i <= 0 {
        HuffmanTreeEntry::Leaf(0u16)
    } else if s[i - 1] == 0 {
        spec_build_up_to(s, i - 1)
    } else {
        spec_insert(spec_build_up_to(s, i - 1), canonical_path(s, i - 1), (i - 1) as u16)
    }
}

/// The canonical prefix-code tree of a code-length table.
pub open spec fn spec_build_tree(s: Seq<u8>) -> HuffmanTreeEntry {
    spec_build_up_to(s, s.len() as int)
}

/// No length class holds more codes than there are symbols.
pub proof fn lemma_count_len_le(s: Seq<u8>, l: int)
    ensures
        count_len(s, l) <= s.len(),
    decreases s.len(),
{
    if s.len() > 0 {
        lemma_count_len_le(s.drop_last(), l);
    }
}

/// Counting over a longer prefix counts at least as much.
pub proof fn lemma_count_len_take_le(s: Seq<u8>, l: int, i: int, j: int)
    requires
        0 <= i <= j <= s.len(),
    ensures
        count_len(s.take(i), l) <= count_len(s.take(j), l),
    decreases j - i,
{
    if i < j {
        lemma_count_len_take_le(s, l, i, j - 1);
        assert(s.take(j).drop_last() =~= s.take(j - 1));
    }
}

/// Extending the counted prefix by one symbol bumps exactly its class.
pub proof fn lemma_count_len_take_step(s: Seq<u8>, l: int, i: int)
    requires
        0 <= i < s.len(),
    ensures
        count_len(s.take(i + 1), l) == count_len(s.take(i), l) + (if s[i] == l {
            1nat
        } else {
            0nat
        }),
{
    assert(s.take(i + 1).drop_last() =~= s.take(i));
    assert(s.take(i + 1).last() == s[i]);
}

/// The canonical first codes stay within a coarse bound: enough to rule out
/// overflow during construction.
pub proof fn lemma_next_code_bound(s: Seq<u8>, l: int)
    requires
        1 <= l,
    ensures
        next_code(s, l) <= (pow2(l as nat) - 2) * s.len(),
    decreases l,
{
    lemma_pow2_pos(l as nat);
    lemma_pow2_pos((l - 1) as nat);
    if l == 1 {
        lemma2_to64();
    } else {
        lemma_next_code_bound(s, l - 1);
        lemma_count_len_le(s, l - 1);
        lemma_pow2_adds((l - 1) as nat, 1);
        lemma2_to64();
        assert(2 * (next_code(s, l - 1) + count_len(s, l - 1)) <= (pow2(l as nat) - 2) * s.len())
            by (nonlinear_arith)
            requires
                next_code(s, l - 1) <= (pow2((l - 1) as nat) - 2) * s.len(),
                count_len(s, l - 1) <= s.len(),
                pow2(l as nat) == 2 * pow2((l - 1) as nat),
                pow2((l - 1) as nat) >= 1,
        ;
    }
}

/// Truncating to sixteen bits keeps every bit below position sixteen.
pub proof fn lemma_u64_trunc16_bit(x: u64, k: u16)
    requires
        k < 16,
    ensures
        bit_of((x as u16) as nat, k as int) == bit_of(x as nat, k as int),
{
    let y = x as u16;
    assert((y >> k) & 1 == (((x >> (k as u64)) & 1) as u16)) by (bit_vector)
        requires
            k < 16,
            y == x as u16,
    ;
    lemma_u16_shift_bit(y, k);
    lemma_u64_shift_bit(x, k as u64);
}

/// Like `lemma_u16_shift_bit`, for a 64-bit register.
pub proof fn lemma_u64_shift_bit(x: u64, k: u64)
    requires
        k < 64,
    ensures
        ((x >> k) & 1 == 1) == bit_of(x as nat, k as int),
        (x >> k) & 1 <= 1,
{
    lemma_u64_shr_is_div(x, k);
    let y = x >> k;
    assert((y & 1 == 1) == (y % 2 == 1)) by (bit_vector);
    assert(y & 1 <= 1) by (bit_vector);
}

/// One transmitted bit of a code word, read off with a shift, is the
/// corresponding abstract bit of its value.
pub proof fn lemma_u16_shift_bit(x: u16, k: u16)
    requires
        k < 16,
    ensures
        ((x >> k) & 1 == 1) == bit_of(x as nat, k as int),
        (x >> k) & 1 <= 1,
{
    lemma_u16_shr_is_div(x, k);
    let y = x >> k;
    assert((y & 1 == 1) == (y % 2 == 1)) by (bit_vector);
    assert(y & 1 <= 1) by (bit_vector);
}

} // verus!
