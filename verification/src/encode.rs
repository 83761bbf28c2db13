use vstd::prelude::*;

use crate::bits::{
    bits_of, bytes_bits, chunks_bits, lemma_bits_of_len, lemma_bytes_bits_len, lemma_pow2n_mono,
    lemma_pow2n_values, nat_bits, pad_bits, pow2n, zigzag,
};

verus! {

/// A growing bit buffer, filled most significant bit first. The bits of
/// the byte under construction sit in the low end of `current`.
pub struct Encoder {
    pub buffer: Vec<u8>,
    pub used_bits: usize,
    pub current_byte: u8,
}

impl View for Encoder {
    type V = Seq<bool>;

    /// The bits written so far.
    open spec fn view(&self) -> Seq<bool> {
        bytes_bits(self.buffer@) + bits_of(self.current_byte as nat, self.used_bits as nat)
    }
}

impl Encoder {
    /// The byte under construction holds exactly the bits written past
    /// the last byte boundary.
    pub open spec fn wf(&self) -> bool {
        self.used_bits < 8 && (self.current_byte as nat) < pow2n(self.used_bits as nat)
    }

    pub proof fn lemma_len(&self)
        ensures
            self@.len() == 8 * self.buffer@.len() + self.used_bits,
    {
        lemma_bytes_bits_len(self.buffer@);
        lemma_bits_of_len(self.current_byte as nat, self.used_bits as nat);
    }

    /// An empty buffer.
    pub fn new() -> (r: Encoder)
        ensures
            r.wf(),
            r@ == Seq::<bool>::empty(),
    {
        let r = Encoder { buffer: Vec::new(), used_bits: 0, current_byte: 0 };
        proof {
            assert(r@ =~= Seq::<bool>::empty());
        }
        r
    }

    /// Appends one bit.
    pub fn bit(&mut self, b: bool)
        requires
            old(self).wf(),
        ensures
            final(self).wf(),
            final(self)@ == old(self)@.push(b),
            final(self).used_bits as int == if old(self).used_bits == 7 {
                0int
            } else {
                old(self).used_bits + 1
            },
    {
        proof {
            lemma_pow2n_values();
            lemma_pow2n_mono(old(self).used_bits as nat, 7);
        }
        let add: u8 = if b { 1 } else { 0 };
        let next = self.current_byte * 2 + add;
        proof {
            assert((next as nat) / 2 == self.current_byte as nat);
            assert((next as nat) % 2 == 1 <==> b);
            assert(bits_of(next as nat, (self.used_bits + 1) as nat) == bits_of(
                self.current_byte as nat,
                self.used_bits as nat,
            ).push(b));
        }
        if self.used_bits == 7 {
            let ghost oldbuf = self.buffer@;
            self.buffer.push(next);
            self.current_byte = 0;
            self.used_bits = 0;
            proof {
                assert(self.buffer@.drop_last() =~= oldbuf);
                assert(bytes_bits(self.buffer@) == bytes_bits(oldbuf) + bits_of(next as nat, 8));
                assert(self@ =~= old(self)@.push(b));
            }
        } else {
            self.current_byte = next;
            self.used_bits = self.used_bits + 1;
            proof {
                assert(self@ =~= old(self)@.push(b));
            }
        }
    }

    /// Appends the low `width` bits of a byte, most significant first.
    pub fn bits8(&mut self, width: usize, value: u8)
        requires
            old(self).wf(),
            width <= 8,
            (value as nat) < pow2n(width as nat),
        ensures
            final(self).wf(),
            final(self)@ == old(self)@ + bits_of(value as nat, width as nat),
        decreases width,
    {
        if width == 0 {
            proof {
                assert(self@ =~= old(self)@ + bits_of(value as nat, 0));
            }
        } else {
            proof {
                assert(pow2n(width as nat) == 2 * pow2n((width - 1) as nat));
            }
            self.bits8(width - 1, value / 2);
            self.bit(value % 2 == 1);
            proof {
                assert(self@ =~= old(self)@ + bits_of(value as nat, width as nat));
            }
        }
    }

    /// Appends the variable-width encoding of a natural number: seven
    /// bits per byte, least significant group first, the high bit saying
    /// that more groups follow.
    pub fn word(&mut self, n: usize)
        requires
            old(self).wf(),
        ensures
            final(self).wf(),
            final(self)@ == old(self)@ + nat_bits(n as nat),
        decreases n,
    {
        proof {
            lemma_pow2n_values();
        }
        if n < 128 {
            self.bits8(8, n as u8);
        } else {
            self.bits8(8, 128 + (n % 128) as u8);
            self.word(n / 128);
            proof {
                assert(self@ =~= old(self)@ + nat_bits(n as nat));
            }
        }
    }

    /// Appends the zig-zag encoding of a signed integer.
    pub fn integer(&mut self, i: isize)
        requires
            old(self).wf(),
        ensures
            final(self).wf(),
            final(self)@ == old(self)@ + nat_bits(zigzag(i as int)),
    {
        if i >= 0 {
            self.word(2 * (i as usize));
        } else {
            self.word(2 * ((-(i + 1)) as usize) + 1);
        }
    }

    /// Appends one bit for a boolean.
    pub fn bool(&mut self, b: bool)
        requires
            old(self).wf(),
        ensures
            final(self).wf(),
            final(self)@ == old(self)@.push(b),
    {
        self.bit(b);
    }

    /// Pads to the next byte boundary: zero bits and a final one bit.
    pub fn filler(&mut self)
        requires
            old(self).wf(),
        ensures
            final(self).wf(),
            final(self)@ == old(self)@ + pad_bits(old(self)@.len() as nat),
            final(self).used_bits == 0,
    {
        proof {
            self.lemma_len();
        }
        let ghost base = self@;
        let ghost r0 = self.used_bits as nat;
        while self.used_bits != 7
            invariant
                self.wf(),
                r0 <= self.used_bits,
                self@ == base + Seq::new((self.used_bits - r0) as nat, |i: int| false),
            decreases 7 - self.used_bits,
        {
            let ghost k = (self.used_bits - r0) as nat;
            self.bit(false);
            proof {
                assert(Seq::new(k, |i: int| false).push(false) =~= Seq::new(
                    k + 1,
                    |i: int| false,
                ));
                assert(self@ =~= base + Seq::new(k + 1, |i: int| false));
            }
        }
        self.bit(true);
        proof {
            assert(base.len() % 8 == r0);
            assert(self@ =~= base + pad_bits(base.len() as nat));
        }
    }

    /// Appends the bytes `from .. to` of a buffer, whole bytes each.
    fn byte_range(&mut self, b: &Vec<u8>, from: usize, to: usize)
        requires
            old(self).wf(),
            from <= to <= b@.len(),
        ensures
            final(self).wf(),
            final(self)@ == old(self)@ + bytes_bits(b@.subrange(from as int, to as int)),
        decreases to - from,
    {
        proof {
            lemma_pow2n_values();
        }
        if from == to {
            proof {
                assert(self@ =~= old(self)@ + bytes_bits(b@.subrange(from as int, to as int)));
            }
        } else {
            self.byte_range(b, from, to - 1);
            self.bits8(8, b[to - 1]);
            proof {
                let s = b@.subrange(from as int, to as int);
                assert(s.drop_last() =~= b@.subrange(from as int, to as int - 1));
                assert(self@ =~= old(self)@ + bytes_bits(s));
            }
        }
    }

    /// Appends the chunks of a byte string starting at `from`: each
    /// chunk led by its length, a zero length byte closing the list.
    fn chunks(&mut self, b: &Vec<u8>, from: usize)
        requires
            old(self).wf(),
            from <= b@.len(),
        ensures
            final(self).wf(),
            final(self)@ == old(self)@ + chunks_bits(b@.skip(from as int)),
        decreases b@.len() - from,
    {
        proof {
            lemma_pow2n_values();
        }
        let remaining = b.len() - from;
        if remaining == 0 {
            self.bits8(8, 0);
            proof {
                assert(b@.skip(from as int).len() == 0);
                assert(self@ =~= old(self)@ + chunks_bits(b@.skip(from as int)));
            }
        } else if remaining <= 255 {
            self.bits8(8, remaining as u8);
            self.byte_range(b, from, b.len());
            self.bits8(8, 0);
            proof {
                let s = b@.skip(from as int);
                assert(s =~= b@.subrange(from as int, b@.len() as int));
                assert(self@ =~= old(self)@ + chunks_bits(s));
            }
        } else {
            self.bits8(8, 255);
            self.byte_range(b, from, from + 255);
            self.chunks(b, from + 255);
            proof {
                let s = b@.skip(from as int);
                assert(s.take(255) =~= b@.subrange(from as int, from as int + 255));
                assert(s.skip(255) =~= b@.skip(from as int + 255));
                assert(self@ =~= old(self)@ + chunks_bits(s));
            }
        }
    }

    /// Pads to a byte boundary, then appends a chunked byte string.
    pub fn bytes(&mut self, b: &Vec<u8>)
        requires
            old(self).wf(),
        ensures
            final(self).wf(),
            final(self)@ == old(self)@ + pad_bits(old(self)@.len() as nat) + chunks_bits(b@),
    {
        self.filler();
        self.chunks(b, 0);
        proof {
            assert(b@.skip(0) =~= b@);
        }
    }

    /// Hands out the finished bytes; the stream must be byte-aligned,
    /// which the final padding guarantees.
    pub fn finish(self) -> (r: Vec<u8>)
        requires
            self.wf(),
            self.used_bits == 0,
        ensures
            bytes_bits(r@) == self@,
            8 * r@.len() == self@.len(),
    {
        proof {
            self.lemma_len();
            assert(bytes_bits(self.buffer@) =~= self@);
        }
        self.buffer
    }
}

} // verus!
