use vstd::prelude::*;

use crate::bits::{
    bits_of, bytes_bits, lemma_bits_of_inj, lemma_bits_of_len, lemma_bytes_bits_len,
    lemma_prefix_split, nat_bits, pad_bits, pow2n, prefix_at,
};
use crate::flat::FlatError;

verus! {

/// The first eight-bit group of the encoding of a natural number.
pub open spec fn nat_group(n: nat) -> nat {
    if n < 128 {
        n
    } else {
        128 + n % 128
    }
}

/// The encoding of a natural number is its first group followed by the
/// encoding of the remaining groups.
pub proof fn lemma_nat_bits_group(n: nat)
    ensures
        nat_bits(n).len() >= 8,
        n < 128 ==> nat_bits(n) == bits_of(nat_group(n), 8),
        n >= 128 ==> nat_bits(n) == bits_of(nat_group(n), 8) + nat_bits(n / 128),
        nat_group(n) < 256,
    decreases n,
{
    lemma_bits_of_len(nat_group(n), 8);
    if n >= 128 {
        lemma_bits_of_len(128 + n % 128, 8);
        lemma_nat_bits_group(n / 128);
    }
}

/// A bit-position reader over a byte buffer, most significant bit of
/// each byte first.
pub struct Decoder {
    pub bytes: Vec<u8>,
    pub pos: usize,
}

impl Decoder {
    /// All the bits of the input.
    pub open spec fn all(&self) -> Seq<bool> {
        bytes_bits(self.bytes@)
    }

    /// The reading position never passes the end of the input, and the
    /// bit count of the input fits the machine word.
    pub open spec fn wf(&self) -> bool {
        self.pos <= 8 * self.bytes@.len() && self.bytes@.len() <= usize::MAX / 8
    }

    /// A reader over a whole buffer.
    pub fn new(bytes: Vec<u8>) -> (r: Decoder)
        requires
            bytes@.len() <= usize::MAX / 8,
        ensures
            r.wf(),
            r.all() == bytes_bits(bytes@),
            r.pos == 0,
            r.bytes@ == bytes@,
    {
        Decoder { bytes, pos: 0 }
    }

    /// Reads one bit; fails exactly at the end of the stream.
    pub fn bit(&mut self) -> (r: Result<bool, FlatError>)
        requires
            old(self).wf(),
        ensures
            final(self).wf(),
            final(self).bytes@ == old(self).bytes@,
            r is Ok <==> old(self).pos < old(self).all().len(),
            r is Ok ==> final(self).pos == old(self).pos + 1 && r->Ok_0 == old(self).all()[
                old(self).pos as int
            ],
            r is Err ==> *final(self) == *old(self) && r == Err::<bool, FlatError>(
                FlatError::EndOfStream,
            ),
    {
        proof {
            lemma_bytes_bits_len(self.bytes@);
        }
        if self.pos / 8 >= self.bytes.len() {
            return Err(FlatError::EndOfStream);
        }
        let k = self.pos / 8;
        let r = self.pos % 8;
        let byte = self.bytes[k];
        let divisor: u8 = match 7 - r {
            0 => 1,
            1 => 2,
            2 => 4,
            3 => 8,
            4 => 16,
            5 => 32,
            6 => 64,
            _ => 128,
        };
        let b = (byte / divisor) % 2 == 1;
        proof {
            crate::bits::lemma_pow2n_values();
            lemma_bytes_bits_index(self.bytes@, self.pos as int);
            lemma_bits_of_index(byte as nat, 8, r as int);
        }
        self.pos = self.pos + 1;
        Ok(b)
    }

    /// Reads `width` bits into the low end of a byte; fails exactly when
    /// fewer are left.
    pub fn bits8(&mut self, width: usize) -> (r: Result<u8, FlatError>)
        requires
            old(self).wf(),
            width <= 8,
        ensures
            final(self).wf(),
            final(self).bytes@ == old(self).bytes@,
            r is Ok <==> old(self).pos + width <= old(self).all().len(),
            r is Ok ==> final(self).pos == old(self).pos + width && (r->Ok_0 as nat) < pow2n(
                width as nat,
            ) && bits_of(r->Ok_0 as nat, width as nat) == old(self).all().subrange(
                old(self).pos as int,
                old(self).pos + width,
            ),
            r is Err ==> final(self).pos >= old(self).pos && r == Err::<u8, FlatError>(
                FlatError::EndOfStream,
            ),
        decreases width,
    {
        proof {
            crate::bits::lemma_pow2n_values();
            crate::bits::lemma_pow2n_mono(width as nat, 8);
        }
        proof {
            lemma_bytes_bits_len(self.bytes@);
        }
        if width == 0 {
            proof {
                assert(bits_of(0, 0) =~= self.all().subrange(
                    self.pos as int,
                    self.pos as int,
                ));
            }
            return Ok(0);
        }
        let hi = match self.bits8(width - 1) {
            Ok(h) => h,
            Err(e) => {
                return Err(e);
            },
        };
        let b = match self.bit() {
            Ok(b) => b,
            Err(e) => {
                return Err(e);
            },
        };
        let v = hi * 2 + if b {
            1
        } else {
            0
        };
        proof {
            assert((v as nat) / 2 == hi as nat);
            assert((v as nat) % 2 == 1 <==> b);
            assert(bits_of(v as nat, width as nat) =~= old(self).all().subrange(
                old(self).pos as int,
                old(self).pos + width,
            ));
        }
        Ok(v)
    }

    /// Reads the variable-width encoding of a natural number. It
    /// returns exactly the number whose canonical encoding stands at the
    /// reading position; it rejects an encoding with a redundant final
    /// group and one that exceeds the machine word.
    pub fn word(&mut self) -> (r: Result<usize, FlatError>)
        requires
            old(self).wf(),
        ensures
            final(self).wf(),
            final(self).bytes@ == old(self).bytes@,
            r is Ok ==> final(self).pos == old(self).pos + nat_bits(r->Ok_0 as nat).len()
                && prefix_at(old(self).all(), old(self).pos as nat, nat_bits(r->Ok_0 as nat)),
            forall|n: nat|
                n <= usize::MAX && prefix_at(old(self).all(), old(self).pos as nat, nat_bits(n))
                    ==> r is Ok && r->Ok_0 == n,
            r is Err ==> final(self).pos >= old(self).pos && (r == Err::<usize, FlatError>(
                FlatError::EndOfStream,
            ) || r == Err::<usize, FlatError>(FlatError::BitOverflow)),
            r == Err::<usize, FlatError>(FlatError::EndOfStream) ==> forall|n: nat|
                !prefix_at(old(self).all(), old(self).pos as nat, nat_bits(n)),
        decreases 8 * old(self).bytes@.len() - old(self).pos,
    {
        proof {
            crate::bits::lemma_pow2n_values();
            lemma_bytes_bits_len(self.bytes@);
        }
        let ghost all = old(self).all();
        let ghost p0 = old(self).pos as nat;
        let g = match self.bits8(8) {
            Ok(g) => g,
            Err(e) => {
                proof {
                    assert forall|n: nat| !prefix_at(all, p0, nat_bits(n)) by {
                        lemma_nat_bits_group(n);
                        if prefix_at(all, p0, nat_bits(n)) {
                            if n >= 128 {
                                lemma_prefix_split(all, p0, bits_of(nat_group(n), 8), nat_bits(n / 128));
                            }
                        }
                    }
                }
                return Err(e);
            },
        };
        proof {
            assert forall|n: nat|
                prefix_at(all, p0, nat_bits(n)) implies nat_group(n) == g as nat by {
                lemma_nat_bits_group(n);
                lemma_bits_of_len(nat_group(n), 8);
                if n >= 128 {
                    lemma_prefix_split(all, p0, bits_of(nat_group(n), 8), nat_bits(n / 128));
                }
                assert(bits_of(nat_group(n), 8) == all.subrange(p0 as int, (p0 + 8) as int));
                lemma_bits_of_inj(nat_group(n), g as nat, 8);
            }
        }
        if g < 128 {
            proof {
                crate::bits::lemma_bits_of_len(g as nat, 8);
                assert forall|n: nat|
                    n <= usize::MAX && prefix_at(all, p0, nat_bits(n)) implies n == g as nat by {
                    if n >= 128 {
                        assert(nat_group(n) >= 128);
                    }
                    lemma_nat_bits_group(n);
                }
            }
            Ok(g as usize)
        } else {
            let low = (g - 128) as usize;
            proof {
                assert forall|n: nat|
                    prefix_at(all, p0, nat_bits(n)) implies n >= 128 && prefix_at(
                    all,
                    p0 + 8,
                    nat_bits(n / 128),
                ) && n % 128 == low by {
                    if n < 128 {
                        assert(nat_group(n) == n < 128);
                    }
                    lemma_nat_bits_group(n);
                    lemma_bits_of_len(nat_group(n), 8);
                    lemma_prefix_split(all, p0, bits_of(nat_group(n), 8), nat_bits(n / 128));
                }
            }
            let m = match self.word() {
                Ok(m) => m,
                Err(e) => {
                    proof {
                        assert forall|n: nat|
                            n <= usize::MAX && prefix_at(all, p0, nat_bits(n)) implies false by {
                            assert(n / 128 <= usize::MAX);
                            assert(prefix_at(all, p0 + 8, nat_bits(n / 128)));
                        }
                        if e == FlatError::EndOfStream {
                            assert forall|n: nat| !prefix_at(all, p0, nat_bits(n)) by {
                                if prefix_at(all, p0, nat_bits(n)) {
                                    assert(!prefix_at(all, p0 + 8, nat_bits(n / 128)));
                                }
                            }
                        }
                    }
                    return Err(e);
                },
            };
            if m == 0 {
                proof {
                    assert forall|n: nat|
                        n <= usize::MAX && prefix_at(all, p0, nat_bits(n)) implies false by {
                        assert(n / 128 <= usize::MAX);
                        assert(prefix_at(all, p0 + 8, nat_bits(n / 128)));
                        assert(n / 128 >= 1);
                    }
                }
                return Err(FlatError::BitOverflow);
            }
            if m > (usize::MAX - low) / 128 {
                proof {
                    assert forall|n: nat|
                        n <= usize::MAX && prefix_at(all, p0, nat_bits(n)) implies false by {
                        assert(n / 128 <= usize::MAX);
                        assert(prefix_at(all, p0 + 8, nat_bits(n / 128)));
                        assert(m as nat == n / 128);
                        assert(n == 128 * (n / 128) + n % 128);
                        assert(128 * (m as nat) <= usize::MAX - low);
                        assert(m as nat <= (usize::MAX - low) as nat / 128) by (nonlinear_arith)
                            requires
                                128 * (m as nat) <= (usize::MAX - low) as nat,
                        ;
                    }
                }
                return Err(FlatError::BitOverflow);
            }
            let n = low + 128 * m;
            proof {
                assert(n as nat >= 128 && (n as nat) % 128 == low && (n as nat) / 128 == m as nat)
                    by (nonlinear_arith)
                    requires
                        n as nat == low + 128 * (m as nat),
                        0 <= low < 128,
                        m >= 1,
                ;
                lemma_nat_bits_group(n as nat);
                lemma_prefix_split(all, p0, bits_of(nat_group(n as nat), 8), nat_bits(m as nat));
                assert(nat_group(n as nat) == g as nat);
                assert(prefix_at(all, p0, nat_bits(n as nat)));
                assert forall|k: nat|
                    k <= usize::MAX && prefix_at(all, p0, nat_bits(k)) implies k == n as nat by {
                    assert(k / 128 <= usize::MAX);
                    assert(prefix_at(all, p0 + 8, nat_bits(k / 128)));
                    assert(m as nat == k / 128);
                    assert(k == 128 * (k / 128) + k % 128);
                }
            }
            Ok(n)
        }
    }

    /// Reads the padding up to the next byte boundary: it succeeds
    /// exactly when the pad stands at the reading position, zero bits
    /// closed by a one bit.
    pub fn filler(&mut self) -> (r: Result<(), FlatError>)
        requires
            old(self).wf(),
        ensures
            final(self).wf(),
            final(self).bytes@ == old(self).bytes@,
            r is Ok ==> final(self).pos == old(self).pos + pad_bits(old(self).pos as nat).len()
                && pad_bits(old(self).pos as nat) == old(self).all().subrange(
                old(self).pos as int,
                final(self).pos as int,
            ) && final(self).pos % 8 == 0,
            r is Ok <==> prefix_at(old(self).all(), old(self).pos as nat, pad_bits(old(self).pos as nat)),
            r is Err ==> final(self).pos >= old(self).pos,
    {
        let ghost p0 = self.pos as nat;
        proof {
            lemma_bytes_bits_len(self.bytes@);
        }
        let r = self.pos % 8;
        let zeros = 7 - r;
        let mut i: usize = 0;
        while i < zeros
            invariant
                old(self).wf(),
                self.wf(),
                old(self).all().len() == 8 * old(self).bytes@.len(),
                self.bytes@ == old(self).bytes@,
                i <= zeros,
                zeros == 7 - p0 % 8,
                self.pos == p0 + i,
                old(self).pos == p0,
                old(self).all().subrange(p0 as int, p0 + i) =~= Seq::new(
                    i as nat,
                    |j: int| false,
                ),
            decreases zeros - i,
        {
            let b = match self.bit() {
                Ok(b) => b,
                Err(e) => {
                    proof {
                        assert(pad_bits(p0).len() == zeros + 1);
                        assert(!prefix_at(old(self).all(), p0, pad_bits(p0)));
                    }
                    return Err(e);
                },
            };
            if b {
                proof {
                    assert(pad_bits(p0).len() == zeros + 1);
                    if prefix_at(old(self).all(), p0, pad_bits(p0)) {
                        assert(old(self).all()[p0 + i] == pad_bits(p0)[i as int]);
                        assert(pad_bits(p0)[i as int] == false);
                    }
                }
                return Err(FlatError::EndOfStream);
            }
            i = i + 1;
            proof {
                assert(old(self).all().subrange(p0 as int, p0 + i) =~= old(self).all().subrange(
                    p0 as int,
                    p0 + i - 1,
                ).push(old(self).all()[p0 + i - 1]));
                assert(Seq::new(i as nat, |j: int| false) =~= Seq::new(
                    (i - 1) as nat,
                    |j: int| false,
                ).push(false));
            }
        }
        let b = match self.bit() {
            Ok(b) => b,
            Err(e) => {
                proof {
                    assert(pad_bits(p0).len() == zeros + 1);
                    assert(!prefix_at(old(self).all(), p0, pad_bits(p0)));
                }
                return Err(e);
            },
        };
        if !b {
            proof {
                assert(pad_bits(p0).len() == zeros + 1);
                if prefix_at(old(self).all(), p0, pad_bits(p0)) {
                    assert(old(self).all()[p0 + zeros] == pad_bits(p0)[zeros as int]);
                    assert(pad_bits(p0)[zeros as int] == true);
                }
            }
            return Err(FlatError::EndOfStream);
        }
        proof {
            assert(pad_bits(p0) =~= old(self).all().subrange(p0 as int, self.pos as int));
            crate::bits::lemma_bytes_bits_len(self.bytes@);
            assert(prefix_at(old(self).all(), p0, pad_bits(p0)));
        }
        Ok(())
    }
}

/// The bit at a position of a byte sequence is the corresponding bit of
/// the byte it falls in.
proof fn lemma_bytes_bits_index(s: Seq<u8>, i: int)
    requires
        0 <= i < 8 * s.len(),
    ensures
        bytes_bits(s).len() == 8 * s.len(),
        bytes_bits(s)[i] == bits_of(s[i / 8] as nat, 8)[i % 8],
    decreases s.len(),
{
    lemma_bytes_bits_len(s);
    if s.len() > 0 {
        lemma_bytes_bits_len(s.drop_last());
        crate::bits::lemma_bits_of_len(s.last() as nat, 8);
        if i < 8 * (s.len() - 1) {
            lemma_bytes_bits_index(s.drop_last(), i);
            assert(i / 8 < s.len() - 1);
            assert(s.drop_last()[i / 8] == s[i / 8]);
        } else {
            assert(i / 8 == s.len() - 1 && i % 8 == i - 8 * (s.len() - 1)) by (nonlinear_arith)
                requires
                    8 * (s.len() - 1) <= i < 8 * s.len(),
            ;
        }
    }
}

/// Indexing the bits of a value: bit `i` is the `w - 1 - i` binary digit.
proof fn lemma_bits_of_index(v: nat, w: nat, i: int)
    requires
        0 <= i < w,
    ensures
        bits_of(v, w).len() == w,
        bits_of(v, w)[i] == ((v / pow2n((w - 1 - i) as nat)) % 2 == 1),
    decreases w,
{
    crate::bits::lemma_bits_of_len(v, w);
    crate::bits::lemma_pow2n_values();
    if i < w - 1 {
        lemma_bits_of_index(v / 2, (w - 1) as nat, i);
        assert(pow2n((w - 2 - i) as nat) >= 1) by {
            crate::bits::lemma_pow2n_mono(0, (w - 2 - i) as nat);
        }
        assert(pow2n((w - 1 - i) as nat) == 2 * pow2n((w - 2 - i) as nat));
        assert(v / 2 / pow2n((w - 2 - i) as nat) == v / pow2n((w - 1 - i) as nat)) by (nonlinear_arith)
            requires
                pow2n((w - 1 - i) as nat) == 2 * pow2n((w - 2 - i) as nat),
                pow2n((w - 2 - i) as nat) >= 1,
        ;
    } else {
        assert(v / pow2n(0) == v);
    }
}

} // verus!
