//! Bits gathered into bytes, and the end token that closes the payload.

use crate::encoder::bits::{complement, two_to};
use vstd::prelude::*;

verus! {

/// The number whose binary digits are `bits`, the lowest first.
pub open spec fn bits_value(bits: Seq<bool>) -> nat
    decreases bits.len(),
{
    if bits.len() == 0 {
        0
    } else {
        bits_value(bits.drop_last()) + if bits.last() {
            two_to((bits.len() - 1) as nat)
        } else {
            0
        }
    }
}

/// The bytes that `bits` fill, each byte lowest bit first; bits left over
/// after the last full byte are not counted.
pub open spec fn bytes_of_bits(bits: Seq<bool>) -> Seq<u8> {
    Seq::new(bits.len() / 8, |j: int| bits_value(bits.subrange(8 * j, 8 * j + 8)) as u8)
}

/// The length that is kept of `bytes[..w]` when the pairs of neighbours are
/// searched from the end for a byte that is the complement of the byte
/// before it: what stands before that byte is kept, and the first byte alone
/// where there is no such pair.
pub open spec fn cut_point(bytes: Seq<u8>, w: int) -> int
    decreases w,
{
    if w < 2 || w > bytes.len() {
        if w < 1 {
            0
        } else {
            1
        }
    } else if bytes[w - 1] == complement(bytes[w - 2]) {
        w - 1
    } else {
        cut_point(bytes, w - 1)
    }
}

/// The payload of a decoded byte string: the bytes before the end token.
///
/// The end token is found as the last byte that is the complement of the
/// byte before it.  A string of at most one byte is kept whole; a longer one
/// without such a pair keeps its first byte.
pub open spec fn strip_filler(bytes: Seq<u8>) -> Seq<u8> {
    if bytes.len() < 2 {
        bytes
    } else {
        bytes.take(cut_point(bytes, bytes.len() as int))
    }
}

/// The cut lies within the bytes searched, and keeps at least one byte
/// where there is one.
pub proof fn lemma_cut_point(bytes: Seq<u8>, w: int)
    requires
        0 <= w <= bytes.len(),
    ensures
        0 <= cut_point(bytes, w) <= w,
        w >= 1 ==> cut_point(bytes, w) >= 1,
    decreases w,
{
    if w >= 2 && bytes[w - 1] != complement(bytes[w - 2]) {
        lemma_cut_point(bytes, w - 1);
    }
}

/// The byte in the making after `bits` were written into it: each bit
/// enters at the top and moves the bits before it down by one place.
pub open spec fn partial_byte(bits: Seq<bool>) -> nat
    decreases bits.len(),
{
    if bits.len() == 0 {
        0
    } else {
        partial_byte(bits.drop_last()) / 2 + if bits.last() {
            128nat
        } else {
            0nat
        }
    }
}

proof fn lemma_partial_byte_bound(bits: Seq<bool>)
    ensures
        partial_byte(bits) < 256,
    decreases bits.len(),
{
    if bits.len() > 0 {
        lemma_partial_byte_bound(bits.drop_last());
    }
}

/// One if the bit is set, zero if not.
spec fn digit(bit: bool) -> nat {
    if bit {
        1
    } else {
        0
    }
}

/// A byte that eight bits were written into holds the number whose binary
/// digits they are, the lowest first.
proof fn lemma_full_byte(bits: Seq<bool>)
    requires
        bits.len() == 8,
    ensures
        partial_byte(bits) == bits_value(bits),
{
    let d = |i: int| digit(bits[i]);
    assert forall|k: int| 1 <= k <= 8 implies #[trigger] bits.take(k).drop_last() == bits.take(
        k - 1,
    ) && bits.take(k).last() == bits[k - 1] by {
        assert(bits.take(k).drop_last() =~= bits.take(k - 1));
    }
    assert(bits.take(8) =~= bits);
    assert(partial_byte(bits.take(0)) == 0 && bits_value(bits.take(0)) == 0);
    assert(partial_byte(bits.take(1)) == d(0) * 128);
    assert(partial_byte(bits.take(2)) == d(0) * 64 + d(1) * 128);
    assert(partial_byte(bits.take(3)) == d(0) * 32 + d(1) * 64 + d(2) * 128);
    assert(partial_byte(bits.take(4)) == d(0) * 16 + d(1) * 32 + d(2) * 64 + d(3) * 128);
    assert(partial_byte(bits.take(5)) == d(0) * 8 + d(1) * 16 + d(2) * 32 + d(3) * 64 + d(4)
        * 128);
    assert(partial_byte(bits.take(6)) == d(0) * 4 + d(1) * 8 + d(2) * 16 + d(3) * 32 + d(4) * 64
        + d(5) * 128);
    assert(partial_byte(bits.take(7)) == d(0) * 2 + d(1) * 4 + d(2) * 8 + d(3) * 16 + d(4) * 32
        + d(5) * 64 + d(6) * 128);
    assert(partial_byte(bits.take(8)) == d(0) + d(1) * 2 + d(2) * 4 + d(3) * 8 + d(4) * 16 + d(5)
        * 32 + d(6) * 64 + d(7) * 128);
    assert(bits_value(bits.take(1)) == d(0));
    assert(bits_value(bits.take(2)) == d(0) + d(1) * 2);
    assert(bits_value(bits.take(3)) == d(0) + d(1) * 2 + d(2) * 4);
    assert(bits_value(bits.take(4)) == d(0) + d(1) * 2 + d(2) * 4 + d(3) * 8);
    assert(bits_value(bits.take(5)) == d(0) + d(1) * 2 + d(2) * 4 + d(3) * 8 + d(4) * 16);
    assert(bits_value(bits.take(6)) == d(0) + d(1) * 2 + d(2) * 4 + d(3) * 8 + d(4) * 16 + d(5)
        * 32);
    assert(bits_value(bits.take(7)) == d(0) + d(1) * 2 + d(2) * 4 + d(3) * 8 + d(4) * 16 + d(5)
        * 32 + d(6) * 64);
    assert(bits_value(bits.take(8)) == d(0) + d(1) * 2 + d(2) * 4 + d(3) * 8 + d(4) * 16 + d(5)
        * 32 + d(6) * 64 + d(7) * 128);
}

/// Writer of bits into bytes, each byte filled from its lowest bit up.
pub struct BitWriter {
    current: u8,
    decoded: Vec<u8>,
    empty_bits: u8,
    written: Ghost<Seq<bool>>,
}

impl View for BitWriter {
    type V = Seq<bool>;

    /// The bits written so far.
    closed spec fn view(&self) -> Seq<bool> {
        self.written@
    }
}

impl BitWriter {
    /// The bits written into the byte in the making.
    spec fn partial(&self) -> Seq<bool> {
        self.written@.subrange(8 * (self.written@.len() / 8) as int, self.written@.len() as int)
    }

    /// The fields agree with the bits written.
    pub closed spec fn wf(&self) -> bool {
        &&& 1 <= self.empty_bits <= 8
        &&& self.written@.len() % 8 == 8 - self.empty_bits
        &&& self.decoded@ == bytes_of_bits(self.written@)
        &&& self.current as nat == partial_byte(self.partial())
    }

    /// A writer into which nothing was written.
    pub fn new() -> (w: Self)
        ensures
            w.wf(),
            w@ == Seq::<bool>::empty(),
    {
        let w = BitWriter {
            current: 0,
            decoded: Vec::new(),
            empty_bits: 8,
            written: Ghost(Seq::empty()),
        };
        assert(w.decoded@ =~= bytes_of_bits(w.written@));
        assert(w.partial() =~= Seq::<bool>::empty());
        w
    }

    /// Writes one bit.
    pub fn write(&mut self, data: bool)
        requires
            old(self).wf(),
        ensures
            final(self).wf(),
            final(self)@ == old(self)@.push(data),
    {
        let ghost before = self.written@;
        let ghost part = self.partial();
        let ghost after = before.push(data);
        let ghost grown = part.push(data);
        proof {
            assert(grown.drop_last() =~= part);
            lemma_partial_byte_bound(grown);
        }
        self.empty_bits -= 1;

        let unshifted = self.current;
        let shifted = unshifted >> 1;
        assert(shifted == unshifted / 2 && shifted < 128) by (bit_vector)
            requires
                shifted == unshifted >> 1,
        ;
        self.current = shifted;
        if data {
            let set = shifted | 0b1000_0000;
            assert(set == shifted + 128) by (bit_vector)
                requires
                    shifted < 128,
                    set == shifted | 0b1000_0000,
            ;
            self.current = set;
        }
        self.written = Ghost(after);
        assert(self.current as nat == partial_byte(grown));

        if self.empty_bits == 0 {
            proof {
                lemma_full_byte(grown);
                assert(grown =~= after.subrange(8 * (before.len() / 8) as int, after.len() as int));
                let full = after.len() / 8;
                assert(bytes_of_bits(after) =~= bytes_of_bits(before).push(self.current)) by {
                    assert forall|j: int| 0 <= j < full - 1 implies #[trigger] bytes_of_bits(
                        after,
                    )[j] == bytes_of_bits(before)[j] by {
                        assert(after.subrange(8 * j, 8 * j + 8) =~= before.subrange(
                            8 * j,
                            8 * j + 8,
                        ));
                    }
                    assert(after.subrange(8 * (full - 1), 8 * (full - 1) + 8) =~= grown);
                }
            }
            self.decoded.push(self.current);
            self.current = 0;
            self.empty_bits = 8;
            assert(self.partial() =~= Seq::<bool>::empty());
        } else {
            proof {
                assert(self.partial() =~= grown);
                assert(bytes_of_bits(after) =~= bytes_of_bits(before)) by {
                    assert forall|j: int| 0 <= j < before.len() / 8 implies #[trigger] bytes_of_bits(
                        after,
                    )[j] == bytes_of_bits(before)[j] by {
                        assert(after.subrange(8 * j, 8 * j + 8) =~= before.subrange(
                            8 * j,
                            8 * j + 8,
                        ));
                    }
                }
            }
        }
    }

    /// The bytes written, without the end token and what follows it; bits
    /// of a byte that was not filled are dropped.
    pub fn finish(self) -> (bytes: Vec<u8>)
        requires
            self.wf(),
        ensures
            bytes@ == strip_filler(bytes_of_bits(self@)),
    {
        let mut decoded = self.decoded;
        let ghost all = decoded@;
        let n = decoded.len();
        let mut resized_len = n;
        let mut w = n;
        while w >= 2
            invariant_except_break
                w <= n == all.len(),
                decoded@ == all,
                n < 2 ==> resized_len == n,
                n >= 2 ==> resized_len == w,
                n >= 2 ==> cut_point(all, n as int) == cut_point(all, w as int),
            ensures
                decoded@ == all,
                n == all.len(),
                n >= 2 ==> resized_len == cut_point(all, n as int),
                n < 2 ==> resized_len == n,
            decreases w,
        {
            resized_len -= 1;
            let front = decoded[w - 2];
            let back = decoded[w - 1];
            assert(!front == 255 - front) by (bit_vector);
            assert(cut_point(all, w as int) == if all[w - 1] == complement(all[w - 2]) {
                w - 1
            } else {
                cut_point(all, w - 1)
            });
            if back == !front {
                break ;
            }
            w -= 1;
            if w < 2 {
                assert(cut_point(all, w as int) == 1);
                break ;
            }
        }
        proof {
            lemma_cut_point(all, n as int);
        }
        decoded.truncate(resized_len);
        assert(decoded@ =~= strip_filler(all));
        decoded
    }
}

} // verus!
