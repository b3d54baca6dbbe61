//! The stream of bits that encoding reads: the input, its end token, and
//! filler without end.

use super::lcg::{filler, LcgU8};
use vstd::prelude::*;

verus! {

/// Two to the power `k`, for the bit positions of a byte.
pub open spec fn two_to(k: nat) -> nat {
    if k == 0 {
        1
    } else if k == 1 {
        2
    } else if k == 2 {
        4
    } else if k == 3 {
        8
    } else if k == 4 {
        16
    } else if k == 5 {
        32
    } else if k == 6 {
        64
    } else if k == 7 {
        128
    } else {
        256
    }
}

/// The bit of `b` at position `k`, the lowest bit at position 0.
pub open spec fn bit_of(b: u8, k: nat) -> bool {
    (b as nat / two_to(k)) % 2 == 1
}

/// The bitwise complement of a byte.
pub open spec fn complement(b: u8) -> u8 {
    (255 - b) as u8
}

/// The byte at index `j` of the endless stream that a reader draws from:
/// the bytes of `input`, then the end token, which is the complement of the
/// last of them, then the filler sequence grown from the end token.  Over an
/// empty input the stream is the filler sequence after the seed 0.
pub open spec fn stream_byte(input: Seq<u8>, j: nat) -> u8 {
    if j < input.len() {
        input[j as int]
    } else if input.len() == 0 {
        filler(0, j + 1)
    } else {
        filler(complement(input.last()), (j - input.len()) as nat)
    }
}

/// The bit at index `k` of the stream: bytes are served lowest bit first.
pub open spec fn stream_bit(input: Seq<u8>, k: nat) -> bool {
    bit_of(stream_byte(input, k / 8), k % 8)
}

/// Whether a reader that has served `k` bits has loaded the end token: it
/// has as soon as one bit of the token is served, and at once when the
/// input is empty.
pub open spec fn stream_ended(input: Seq<u8>, k: nat) -> bool {
    input.len() == 0 || k > 8 * input.len()
}

proof fn lemma_shift(b: u8, k: nat)
    requires
        k < 8,
    ensures
        (b as nat / two_to(k)) / 2 == b as nat / two_to(k + 1),
        (b as nat / two_to(0)) == b,
        (b as nat / two_to(8)) == 0,
{
}

enum Source {
    Data,
    EndToken(u8),
    Trailing(LcgU8),
}

/// Reader of the bits of a byte string, which goes on with the end token
/// and with filler bits when the bytes are used up.
pub struct BitReader<'a> {
    bytes: &'a [u8],
    next: usize,
    current: u8,
    rest_bits: u8,
    source: Source,
    served: Ghost<nat>,
}

impl<'a> BitReader<'a> {
    /// The bytes that the reader was made for.
    pub closed spec fn input(&self) -> Seq<u8> {
        self.bytes@
    }

    /// How many bits the reader has served.
    pub closed spec fn position(&self) -> nat {
        self.served@
    }

    spec fn loaded(&self) -> nat {
        ((self.served@ + self.rest_bits) / 8) as nat
    }

    spec fn source_ok(&self, loaded: nat) -> bool {
        let n = self.bytes@.len();
        &&& self.next <= n
        &&& if n == 0 {
            self.source matches Source::Trailing(l) && l@ == filler(0, loaded)
        } else if loaded < n {
            self.source is Data && self.next == loaded
        } else if loaded == n {
            self.source == Source::EndToken(complement(self.bytes@.last()))
        } else {
            self.source matches Source::Trailing(l) && l@ == filler(
                complement(self.bytes@.last()),
                (loaded - n - 1) as nat,
            )
        }
    }

    /// The reader is in step with the stream of its input.
    pub closed spec fn wf(&self) -> bool {
        &&& self.rest_bits <= 7
        &&& (self.served@ + self.rest_bits) % 8 == 0
        &&& self.source_ok(self.loaded())
        &&& if self.loaded() == 0 {
            self.rest_bits == 0
        } else {
            self.current as nat == stream_byte(self.bytes@, (self.loaded() - 1) as nat) as nat
                / two_to((8 - self.rest_bits) as nat)
        }
    }

    /// A reader at the first bit of `bytes`.
    pub fn new(bytes: &'a [u8]) -> (r: Self)
        ensures
            r.wf(),
            r.input() == bytes@,
            r.position() == 0,
    {
        BitReader {
            bytes,
            next: 0,
            current: 0,
            rest_bits: 0,
            source: if bytes.len() > 0 {
                Source::Data
            } else {
                Source::Trailing(LcgU8::new(0))
            },
            served: Ghost(0),
        }
    }

    /// The next bit of the stream.
    pub fn get(&mut self) -> (bit: bool)
        requires
            old(self).wf(),
        ensures
            final(self).wf(),
            final(self).input() == old(self).input(),
            final(self).position() == old(self).position() + 1,
            bit == stream_bit(old(self).input(), old(self).position()),
    {
        let ghost k = self.served@;
        let ghost loaded = self.loaded();
        if self.rest_bits == 0 {
            self.current = self.get_byte_from_source(Ghost(loaded));
            self.rest_bits = 7;
            assert(k / 8 == loaded && k % 8 == 0);
        } else {
            assert(k / 8 == loaded - 1 && k % 8 == 8 - self.rest_bits);
            self.rest_bits -= 1;
        }
        let current = self.current;
        let ghost byte = stream_byte(self.bytes@, k / 8);
        proof {
            lemma_shift(byte, k % 8);
        }
        assert(current as nat == byte as nat / two_to(k % 8));
        assert(current & 1 != 0 <==> current % 2 == 1) by (bit_vector);
        assert(current >> 1 == current / 2) by (bit_vector);
        let result = current & 1 != 0;
        self.current = current >> 1;
        self.served = Ghost(k + 1);
        assert((k + 1 + self.rest_bits) / 8 == k / 8 + 1);
        result
    }

    /// The next byte of the stream.
    fn get_byte_from_source(&mut self, Ghost(loaded): Ghost<nat>) -> (byte: u8)
        requires
            old(self).source_ok(loaded),
        ensures
            byte == stream_byte(old(self).bytes@, loaded),
            final(self).source_ok(loaded + 1),
            final(self).bytes == old(self).bytes,
            final(self).current == old(self).current,
            final(self).rest_bits == old(self).rest_bits,
            final(self).served == old(self).served,
    {
        match &mut self.source {
            Source::Data => {
                let current = self.bytes[self.next];
                self.next += 1;
                if self.next == self.bytes.len() {
                    assert(!current == 255 - current) by (bit_vector);
                    self.source = Source::EndToken(!current);
                }
                current
            },
            Source::EndToken(token) => {
                let token = *token;
                self.source = Source::Trailing(LcgU8::new(token));
                token
            },
            Source::Trailing(lcg) => lcg.next(),
        }
    }

    /// Whether the end token has been loaded.
    pub fn ended(&self) -> (b: bool)
        requires
            self.wf(),
        ensures
            b == stream_ended(self.input(), self.position()),
    {
        match self.source {
            Source::Trailing(_) => true,
            _ => false,
        }
    }
}

} // verus!
